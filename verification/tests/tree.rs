use stellar_mixer::action::{hash_transfer_action, hash_withdraw_action};
use stellar_mixer::bytes::{append_be_bytes, append_le_bytes, same_bytes};
use stellar_mixer::image_id::{image_id_bytes_le_words, image_id_hex_le_words};
use stellar_mixer::journal::{decode_withdraw_journal, encode_transfer_journal, JournalError};
use stellar_mixer::merkle::{
    build_sparse_tree, compute_root, hash_node, zero_hashes, TreeError, DEPTH, MAX_LEAVES,
};
use stellar_mixer::note::{note_leaf, Note};
use stellar_mixer::signature::{fixed_be_array, owner_modulus_from_parts, SetupError};

const LEAF_SIMPLE: &str = "258e9728ee583fbdae237fc926e3ec7495b15d5940a94ddbbf953d570356b364";
const NODE_7: &str = "94f5919a6621a38bda889fd109318f34d57711f5f1f371ddee3920f4effd9f60";
const ZERO_1: &str = "947ee7810cc696a590aacc413449f3de3ad8e7b3c10ba91d1980149d19109d40";
const ZERO_45: &str = "7f6e4aadfdea82d5ea84faa8165efadcd0108f311ff5d0fb785f661a5b130346";
const LEAF_A: &str = "01d9bafc1031b2c258f39e8959219b911d5665c553ff66cd8254de707c35439b";
const LEAF_B: &str = "54557461cc30d5e3672cd20e5d1ac23ad7508e1ed320095bcf19a726c3a193ff";
const ROOT_AB: &str = "e005d8b4b1f7ba6dd0cef3126c9580bf836f60d1c7d4bbcc7757d1cbc30d0566";
const TA_SIMPLE: &str = "af8b48e2f4cfbe3a3b0732482ff4a97a178f71cc9b7a249b92cab8801f8616f4";
const WA_SIMPLE: &str = "f72802bbd1d82f1e88bd51e1a762eb1f21386c92d150713ca0ecd6a14546dc28";
const ROOT_MAX: &str = "7518284dba7d3dbf8cb7992914bb728419d3a2d310876753c18d68f5154eaec4";

fn h32(s: &str) -> [u8; 32] {
    hex::decode(s).unwrap().try_into().unwrap()
}

fn simple_note() -> Note {
    Note { value: 70, owner_modulus: [0xAB; 256], nullifier: [1; 32], secret: [2; 32] }
}

fn zero_path() -> [[u8; 32]; DEPTH] {
    let zeros = zero_hashes();
    let mut path = [[0u8; 32]; DEPTH];
    for level in 0..DEPTH {
        path[level] = zeros[level];
    }
    path
}

#[test]
fn be_and_le_bytes_of_integers() {
    let mut out = Vec::new();
    append_be_bytes(&mut out, 0x0102_0304, 4);
    assert_eq!(out, vec![1, 2, 3, 4]);
    let mut out = Vec::new();
    append_be_bytes(&mut out, 70, 16);
    assert_eq!(out, 70u128.to_be_bytes().to_vec());
    let mut out = Vec::new();
    append_be_bytes(&mut out, 0x1_0000_0005, 4);
    assert_eq!(out, vec![0, 0, 0, 5]);
    let mut out = vec![9];
    append_le_bytes(&mut out, 0x0102_0304, 4);
    assert_eq!(out, vec![9, 4, 3, 2, 1]);
}

#[test]
fn same_bytes_compares_contents() {
    assert!(same_bytes(&[1, 2, 3], &[1, 2, 3]));
    assert!(!same_bytes(&[1, 2, 3], &[1, 2, 4]));
    assert!(!same_bytes(&[1, 2], &[1, 2, 3]));
}

#[test]
fn note_leaf_matches_reference_digest() {
    assert_eq!(note_leaf(&simple_note()), h32(LEAF_SIMPLE));
    let mut other = simple_note();
    other.value = 71;
    assert_ne!(note_leaf(&other), h32(LEAF_SIMPLE));
}

#[test]
fn hash_node_matches_reference_digest() {
    assert_eq!(hash_node(7, &[1; 32], &[2; 32]), h32(NODE_7));
    assert_eq!(hash_node(0, &[0; 32], &[0; 32]), h32(ZERO_1));
    assert_ne!(hash_node(7, &[2; 32], &[1; 32]), h32(NODE_7));
    assert_ne!(hash_node(6, &[1; 32], &[2; 32]), h32(NODE_7));
}

#[test]
fn zero_hashes_chain_up_to_the_empty_root() {
    let zeros = zero_hashes();
    assert_eq!(zeros.len(), DEPTH + 1);
    assert_eq!(zeros[0], [0u8; 32]);
    assert_eq!(zeros[1], h32(ZERO_1));
    assert_eq!(zeros[DEPTH], h32(ZERO_45));
    for level in 0..DEPTH {
        assert_eq!(zeros[level + 1], hash_node(level as u32, &zeros[level], &zeros[level]));
    }
}

#[test]
fn empty_leaf_with_empty_path_gives_empty_root() {
    let path = zero_path();
    assert_eq!(compute_root([0u8; 32], 0, &path), h32(ZERO_45));
    assert_eq!(compute_root([0u8; 32], 12345, &path), h32(ZERO_45));
}

#[test]
fn compute_root_takes_sides_from_index_bits() {
    let path = zero_path();
    let leaf = [7u8; 32];
    let zeros = zero_hashes();
    let mut expected = leaf;
    let index: u64 = 0b101;
    for level in 0..DEPTH {
        expected = if (index >> level) & 1 == 0 {
            hash_node(level as u32, &expected, &zeros[level])
        } else {
            hash_node(level as u32, &zeros[level], &expected)
        };
    }
    assert_eq!(compute_root(leaf, index, &path), expected);
    assert_ne!(compute_root(leaf, 0b100, &path), expected);
}

#[test]
fn sparse_tree_root_and_paths_match_reference() {
    let leaf_a = h32(LEAF_A);
    let leaf_b = h32(LEAF_B);
    let (root, paths) = build_sparse_tree(&[(19, leaf_a), (43, leaf_b)]).unwrap();
    assert_eq!(root, h32(ROOT_AB));
    assert_eq!(paths.len(), 2);
    let zeros = zero_hashes();
    assert_eq!(paths[0][0], zeros[0]);
    for level in 6..DEPTH {
        assert_eq!(paths[0][level], zeros[level]);
    }
}

#[test]
fn built_paths_lead_back_to_the_root() {
    let entries = [(19u64, h32(LEAF_A)), (43u64, h32(LEAF_B)), (18u64, [5u8; 32]), (0u64, [6u8; 32])];
    let (root, paths) = build_sparse_tree(&entries).unwrap();
    for (i, (index, leaf)) in entries.iter().enumerate() {
        assert_eq!(compute_root(*leaf, *index, &paths[i]), root);
    }
    assert_ne!(compute_root([9u8; 32], 19, &paths[0]), root);
    assert_ne!(compute_root(entries[0].1, 20, &paths[0]), root);
}

#[test]
fn sibling_leaves_see_each_other_in_their_paths() {
    let entries = [(18u64, [5u8; 32]), (19u64, [6u8; 32])];
    let (_, paths) = build_sparse_tree(&entries).unwrap();
    assert_eq!(paths[0][0], [6u8; 32]);
    assert_eq!(paths[1][0], [5u8; 32]);
}

#[test]
fn a_zero_leaf_tree_has_the_empty_root() {
    let (root, paths) = build_sparse_tree(&[(0, [0u8; 32])]).unwrap();
    assert_eq!(root, h32(ZERO_45));
    assert_eq!(paths[0].to_vec(), zero_hashes()[..DEPTH].to_vec());
}

#[test]
fn the_last_leaf_position_is_usable() {
    let (root, paths) = build_sparse_tree(&[(MAX_LEAVES - 1, [7u8; 32])]).unwrap();
    assert_eq!(root, h32(ROOT_MAX));
    assert_eq!(compute_root([7u8; 32], MAX_LEAVES - 1, &paths[0]), root);
}

#[test]
fn sparse_tree_errors() {
    assert_eq!(build_sparse_tree(&[]).unwrap_err(), TreeError::NoLeaves);
    assert_eq!(build_sparse_tree(&[(MAX_LEAVES, [1; 32])]).unwrap_err(), TreeError::IndexOutOfRange);
    assert_eq!(build_sparse_tree(&[(5, [1; 32]), (5, [2; 32])]).unwrap_err(), TreeError::DuplicateIndex);
    assert_eq!(
        build_sparse_tree(&[(5, [1; 32]), (5, [2; 32]), (MAX_LEAVES, [3; 32])]).unwrap_err(),
        TreeError::DuplicateIndex
    );
    assert_eq!(
        build_sparse_tree(&[(MAX_LEAVES, [3; 32]), (5, [1; 32]), (5, [2; 32])]).unwrap_err(),
        TreeError::IndexOutOfRange
    );
    assert_eq!(build_sparse_tree(&[(u64::MAX, [1; 32])]).unwrap_err(), TreeError::IndexOutOfRange);
}

#[test]
fn action_digests_match_reference() {
    let root = [0x11u8; 32];
    assert_eq!(hash_transfer_action(&root, &[[1; 32]], &[[2; 32], [3; 32]], &[[4; 32]]), h32(TA_SIMPLE));
    assert_eq!(
        hash_withdraw_action(&root, &[[1; 32]], &[[2; 32]], 0x0102030405060708090a0b0c0d0e0f10, &[4; 32]),
        h32(WA_SIMPLE)
    );
    assert_ne!(hash_transfer_action(&root, &[[1; 32], [2; 32]], &[[3; 32]], &[[4; 32]]), h32(TA_SIMPLE));
}

#[test]
fn transfer_journal_is_scale_encoded() {
    let journal = encode_transfer_journal(&[0x11; 32], &vec![[1; 32], [2; 32]], &vec![[3; 32]]);
    let mut expected = vec![0x11u8; 32];
    expected.push(8);
    expected.extend_from_slice(&[1; 32]);
    expected.extend_from_slice(&[2; 32]);
    expected.push(4);
    expected.extend_from_slice(&[3; 32]);
    assert_eq!(journal, expected);
    let empty = encode_transfer_journal(&[0; 32], &vec![], &vec![]);
    assert_eq!(empty.len(), 34);
    assert_eq!(&empty[32..], &[0, 0]);
}

#[test]
fn transfer_journal_with_many_nullifiers_uses_two_byte_length() {
    let nullifiers = vec![[1u8; 32]; 64];
    let journal = encode_transfer_journal(&[0; 32], &nullifiers, &vec![]);
    assert_eq!(&journal[32..34], &[0x01, 0x01]);
    assert_eq!(journal.len(), 32 + 2 + 64 * 32 + 1);
}

fn withdraw_journal_bytes() -> Vec<u8> {
    let mut bytes = vec![0x22u8; 32];
    bytes.push(8);
    bytes.extend_from_slice(&[1; 32]);
    bytes.extend_from_slice(&[2; 32]);
    bytes.extend_from_slice(&45u128.to_le_bytes());
    bytes.extend_from_slice(&[3; 32]);
    bytes
}

#[test]
fn withdraw_journal_decodes() {
    let decoded = decode_withdraw_journal(&withdraw_journal_bytes()).unwrap();
    assert_eq!(decoded.root, [0x22; 32]);
    assert_eq!(decoded.nullifiers, vec![[1; 32], [2; 32]]);
    assert_eq!(decoded.withdraw_amount, 45);
    assert_eq!(decoded.output_leaf, [3; 32]);
}

#[test]
fn withdraw_journal_ignores_trailing_bytes() {
    let mut bytes = withdraw_journal_bytes();
    bytes.extend_from_slice(&[0xEE; 5]);
    let decoded = decode_withdraw_journal(&bytes).unwrap();
    assert_eq!(decoded.withdraw_amount, 45);
}

#[test]
fn malformed_withdraw_journal_is_refused() {
    let bytes = withdraw_journal_bytes();
    assert_eq!(decode_withdraw_journal(&bytes[..bytes.len() - 1]).err(), Some(JournalError::Malformed));
    assert_eq!(decode_withdraw_journal(&[]).err(), Some(JournalError::Malformed));
    let mut noncanonical = vec![0x22u8; 32];
    noncanonical.extend_from_slice(&[0x09, 0x00]);
    noncanonical.extend_from_slice(&[1; 32]);
    noncanonical.extend_from_slice(&[2; 32]);
    noncanonical.extend_from_slice(&45u128.to_le_bytes());
    noncanonical.extend_from_slice(&[3; 32]);
    assert_eq!(decode_withdraw_journal(&noncanonical).err(), Some(JournalError::Malformed));
}

#[test]
fn image_id_bytes_are_little_endian_words() {
    let id = [0x0403_0201u32, 0, 0, 0, 0, 0, 0, 0xFFEE_DDCC];
    let bytes = image_id_bytes_le_words(id);
    assert_eq!(bytes.len(), 32);
    assert_eq!(&bytes[..4], &[1, 2, 3, 4]);
    assert_eq!(&bytes[28..], &[0xCC, 0xDD, 0xEE, 0xFF]);
}

#[test]
fn image_id_hex_is_lower_case() {
    let id = [0x0403_0201u32, 0, 0, 0, 0, 0, 0, 0xFFEE_DDCC];
    let text = image_id_hex_le_words(id);
    assert_eq!(text.len(), 64);
    assert!(text.starts_with("01020304"));
    assert!(text.ends_with("ccddeeff"));
}

#[test]
fn fixed_be_array_pads_on_the_left() {
    let out: [u8; 4] = fixed_be_array(&[1, 2]).unwrap();
    assert_eq!(out, [0, 0, 1, 2]);
    let exact: [u8; 2] = fixed_be_array(&[1, 2]).unwrap();
    assert_eq!(exact, [1, 2]);
    let empty: [u8; 3] = fixed_be_array(&[]).unwrap();
    assert_eq!(empty, [0, 0, 0]);
    assert_eq!(fixed_be_array::<1>(&[1, 2]).unwrap_err(), SetupError::IntegerTooLarge);
}

#[test]
fn owner_modulus_checks_exponent_then_size() {
    let modulus = vec![0x80u8; 256];
    assert_eq!(owner_modulus_from_parts(&[1, 0, 1], &modulus).unwrap(), [0x80u8; 256]);
    assert_eq!(owner_modulus_from_parts(&[3], &modulus).unwrap_err(), SetupError::UnexpectedExponent);
    assert_eq!(
        owner_modulus_from_parts(&[1, 0, 1], &vec![1u8; 257]).unwrap_err(),
        SetupError::IntegerTooLarge
    );
    assert_eq!(
        owner_modulus_from_parts(&[3], &vec![1u8; 257]).unwrap_err(),
        SetupError::UnexpectedExponent
    );
    let short = owner_modulus_from_parts(&[1, 0, 1], &[5, 6]).unwrap();
    assert_eq!(&short[254..], &[5, 6]);
    assert!(short[..254].iter().all(|b| *b == 0));
}

#[test]
fn leaf_order_changes_neither_root_nor_paths() {
    let entries = [(19u64, h32(LEAF_A)), (43u64, h32(LEAF_B)), (7u64, [3u8; 32])];
    let reordered = [entries[2], entries[0], entries[1]];
    let (root, paths) = build_sparse_tree(&entries).unwrap();
    let (root2, paths2) = build_sparse_tree(&reordered).unwrap();
    assert_eq!(root, root2);
    assert_eq!(paths2[0], paths[2]);
    assert_eq!(paths2[1], paths[0]);
    assert_eq!(paths2[2], paths[1]);
}

#[test]
fn image_id_bytes_decode_back_to_words() {
    let id = [0x0403_0201u32, 7, 0xDEAD_BEEF, 0, 1, 2, 3, 0xFFEE_DDCC];
    let bytes = image_id_bytes_le_words(id);
    for k in 0..8 {
        let word = u32::from_le_bytes(bytes[4 * k..4 * k + 4].try_into().unwrap());
        assert_eq!(word, id[k]);
    }
    let mut other = id;
    other[2] ^= 1;
    assert_ne!(image_id_bytes_le_words(other), bytes);
}

#[test]
fn split_between_action_lists_is_unambiguous() {
    let root = [0x11u8; 32];
    let a = hash_transfer_action(&root, &[[1; 32], [2; 32]], &[[3; 32]], &[]);
    let b = hash_transfer_action(&root, &[[1; 32]], &[[2; 32], [3; 32]], &[]);
    assert_ne!(a, b);
}
