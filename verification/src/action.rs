//! The action digests that note owners sign: a transfer (inputs to outputs)
//! and a withdrawal (inputs to a public amount plus a change note).
use crate::bytes::{
    append_be_bytes, append_bytes, be_bytes, lemma_be_bytes4_injective, lemma_be_bytes_injective,
    lemma_pow256_16,
};
use crate::merkle::{node_message, NODE_DOMAIN};
use crate::note::{note_leaf_message, Note, NOTE_LEAF_DOMAIN};
use crate::digest::{sha256, sha256_digest};
use vstd::prelude::*;
use vstd::string::StringSliceAdditionalSpecFns;

verus! {

/// Domain separator of transfer actions.
pub const TRANSFER_ACTION_DOMAIN: &'static str = "stellar-mixer-transfer-action-v1";

/// Domain separator of withdraw actions.
pub const WITHDRAW_ACTION_DOMAIN: &'static str = "stellar-mixer-withdraw-action-v1";

/// The byte strings of `s`, one after another.
pub open spec fn blocks(s: Seq<Seq<u8>>) -> Seq<u8>
    decreases s.len(),
{
    if s.len() == 0 {
        Seq::empty()
    } else {
        blocks(s.drop_last()) + s.last()
    }
}

/// The bytes of each 32-byte array of `s`.
pub open spec fn block_views(s: Seq<[u8; 32]>) -> Seq<Seq<u8>> {
    s.map_values(|b: [u8; 32]| b@)
}

/// The number of blocks (4 bytes big-endian, modulo `2^32`), then the blocks.
pub open spec fn counted_blocks(s: Seq<Seq<u8>>) -> Seq<u8> {
    be_bytes(s.len(), 4) + blocks(s)
}

/// The bytes hashed into a transfer action.
pub open spec fn transfer_action_message(
    root: Seq<u8>,
    input_leaves: Seq<Seq<u8>>,
    nullifiers: Seq<Seq<u8>>,
    output_leaves: Seq<Seq<u8>>,
) -> Seq<u8> {
    TRANSFER_ACTION_DOMAIN.spec_bytes() + root + counted_blocks(input_leaves) + counted_blocks(
        nullifiers,
    ) + counted_blocks(output_leaves)
}

/// The bytes hashed into a withdraw action.
pub open spec fn withdraw_action_message(
    root: Seq<u8>,
    input_leaves: Seq<Seq<u8>>,
    nullifiers: Seq<Seq<u8>>,
    withdraw_amount: u128,
    output_leaf: Seq<u8>,
) -> Seq<u8> {
    WITHDRAW_ACTION_DOMAIN.spec_bytes() + root + counted_blocks(input_leaves) + counted_blocks(
        nullifiers,
    ) + be_bytes(withdraw_amount as nat, 16) + output_leaf
}

/// Appends the count of `items` (the low 4 bytes, big-endian) and the items.
fn append_counted_blocks(out: &mut Vec<u8>, items: &[[u8; 32]])
    ensures
        final(out)@ == old(out)@ + counted_blocks(block_views(items@)),
{
    let ghost start = out@;
    append_be_bytes(out, items.len() as u128, 4);
    let ghost counted = out@;
    let mut i: usize = 0;
    while i < items.len()
        invariant
            i <= items@.len(),
            counted == start + be_bytes(items@.len(), 4),
            out@ == counted + blocks(block_views(items@.take(i as int))),
        decreases items@.len() - i,
    {
        append_bytes(out, &items[i]);
        proof {
            assert(block_views(items@.take(i + 1)).drop_last() =~= block_views(items@.take(i as int)));
        }
        i = i + 1;
    }
    assert(items@.take(items@.len() as int) =~= items@);
    assert(out@ =~= start + counted_blocks(block_views(items@)));
}

/// The digest a transfer's owner signs: SHA-256 over the domain separator,
/// the root, then the input leaves, the nullifiers and the output leaves, each
/// list preceded by its length.
pub fn hash_transfer_action(
    root: &[u8; 32],
    input_leaves: &[[u8; 32]],
    nullifiers: &[[u8; 32]],
    output_leaves: &[[u8; 32]],
) -> (digest: [u8; 32])
    ensures
        digest@ == sha256_digest(
            transfer_action_message(
                root@,
                block_views(input_leaves@),
                block_views(nullifiers@),
                block_views(output_leaves@),
            ),
        ),
{
    let mut message: Vec<u8> = Vec::new();
    append_bytes(&mut message, TRANSFER_ACTION_DOMAIN.as_bytes());
    append_bytes(&mut message, root);
    append_counted_blocks(&mut message, input_leaves);
    append_counted_blocks(&mut message, nullifiers);
    append_counted_blocks(&mut message, output_leaves);
    assert(message@ =~= transfer_action_message(
        root@,
        block_views(input_leaves@),
        block_views(nullifiers@),
        block_views(output_leaves@),
    ));
    sha256(message.as_slice())
}

/// The digest a withdrawal's owner signs: SHA-256 over the domain separator,
/// the root, the input leaves and the nullifiers (each list preceded by its
/// length), the amount (16 bytes big-endian) and the change leaf.
pub fn hash_withdraw_action(
    root: &[u8; 32],
    input_leaves: &[[u8; 32]],
    nullifiers: &[[u8; 32]],
    withdraw_amount: u128,
    output_leaf: &[u8; 32],
) -> (digest: [u8; 32])
    ensures
        digest@ == sha256_digest(
            withdraw_action_message(
                root@,
                block_views(input_leaves@),
                block_views(nullifiers@),
                withdraw_amount,
                output_leaf@,
            ),
        ),
{
    let mut message: Vec<u8> = Vec::new();
    append_bytes(&mut message, WITHDRAW_ACTION_DOMAIN.as_bytes());
    append_bytes(&mut message, root);
    append_counted_blocks(&mut message, input_leaves);
    append_counted_blocks(&mut message, nullifiers);
    append_be_bytes(&mut message, withdraw_amount, 16);
    append_bytes(&mut message, output_leaf);
    assert(message@ =~= withdraw_action_message(
        root@,
        block_views(input_leaves@),
        block_views(nullifiers@),
        withdraw_amount,
        output_leaf@,
    ));
    sha256(message.as_slice())
}

/// Every entry of `s` has 32 bytes.
pub open spec fn all_32(s: Seq<Seq<u8>>) -> bool {
    forall|i: int| 0 <= i < s.len() ==> (#[trigger] s[i]).len() == 32
}

/// Blocks of 32 bytes lie one after another: byte `j` of block `i` is byte
/// `32 * i + j` of the whole.
pub proof fn lemma_blocks_layout(s: Seq<Seq<u8>>)
    requires
        all_32(s),
    ensures
        blocks(s).len() == 32 * s.len(),
        forall|i: int, j: int|
            0 <= i < s.len() && 0 <= j < 32 ==> blocks(s)[32 * i + j] == #[trigger] s[i][j],
    decreases s.len(),
{
    if s.len() > 0 {
        let init = s.drop_last();
        assert(all_32(init)) by {
            assert forall|i: int| 0 <= i < init.len() implies (#[trigger] init[i]).len() == 32 by {
                assert(init[i] == s[i]);
            }
        }
        lemma_blocks_layout(init);
        assert(s.last().len() == 32);
        assert forall|i: int, j: int| 0 <= i < s.len() && 0 <= j < 32 implies blocks(s)[32 * i + j]
            == #[trigger] s[i][j] by {
            if i < s.len() - 1 {
                assert(init[i] == s[i]);
                assert(blocks(init)[32 * i + j] == init[i][j]);
            }
        }
    }
}

/// Blocks of 32 bytes, as many on each side, are equal when their
/// concatenations are.
pub proof fn lemma_blocks_injective(a: Seq<Seq<u8>>, b: Seq<Seq<u8>>)
    requires
        all_32(a),
        all_32(b),
        a.len() == b.len(),
        blocks(a) == blocks(b),
    ensures
        a == b,
{
    lemma_blocks_layout(a);
    lemma_blocks_layout(b);
    assert forall|i: int| 0 <= i < a.len() implies a[i] == b[i] by {
        assert forall|j: int| 0 <= j < 32 implies a[i][j] == b[i][j] by {
            assert(blocks(a)[32 * i + j] == a[i][j]);
            assert(blocks(b)[32 * i + j] == b[i][j]);
        }
        assert(a[i] =~= b[i]);
    }
    assert(a =~= b);
}

/// A counted list of 32-byte blocks at position `p` of `m`, with fewer than
/// `2^32` blocks, is read back from `m`: the count, then the blocks.
proof fn lemma_read_counted(m1: Seq<u8>, m2: Seq<u8>, p: int, a: Seq<Seq<u8>>, b: Seq<Seq<u8>>)
    requires
        m1 == m2,
        all_32(a),
        all_32(b),
        a.len() < 0x1_0000_0000,
        b.len() < 0x1_0000_0000,
        0 <= p,
        p + 4 + 32 * a.len() <= m1.len(),
        p + 4 + 32 * b.len() <= m2.len(),
        m1.subrange(p, p + 4) == be_bytes(a.len(), 4),
        m2.subrange(p, p + 4) == be_bytes(b.len(), 4),
        m1.subrange(p + 4, p + 4 + 32 * a.len()) == blocks(a),
        m2.subrange(p + 4, p + 4 + 32 * b.len()) == blocks(b),
    ensures
        a == b,
{
    lemma_be_bytes4_injective(a.len(), b.len());
    lemma_blocks_injective(a, b);
}

/// A transfer action's bytes determine its parts: two transfer actions over
/// 32-byte roots and 32-byte blocks, each list shorter than `2^32`, with the
/// same bytes have the same root, input leaves, nullifiers and output leaves.
pub proof fn lemma_transfer_action_message_injective(
    root: Seq<u8>,
    input_leaves: Seq<Seq<u8>>,
    nullifiers: Seq<Seq<u8>>,
    output_leaves: Seq<Seq<u8>>,
    root2: Seq<u8>,
    input_leaves2: Seq<Seq<u8>>,
    nullifiers2: Seq<Seq<u8>>,
    output_leaves2: Seq<Seq<u8>>,
)
    requires
        root.len() == 32,
        root2.len() == 32,
        all_32(input_leaves),
        all_32(nullifiers),
        all_32(output_leaves),
        all_32(input_leaves2),
        all_32(nullifiers2),
        all_32(output_leaves2),
        input_leaves.len() < 0x1_0000_0000,
        nullifiers.len() < 0x1_0000_0000,
        output_leaves.len() < 0x1_0000_0000,
        input_leaves2.len() < 0x1_0000_0000,
        nullifiers2.len() < 0x1_0000_0000,
        output_leaves2.len() < 0x1_0000_0000,
        transfer_action_message(root, input_leaves, nullifiers, output_leaves)
            == transfer_action_message(root2, input_leaves2, nullifiers2, output_leaves2),
    ensures
        root == root2,
        input_leaves == input_leaves2,
        nullifiers == nullifiers2,
        output_leaves == output_leaves2,
{
    let d = TRANSFER_ACTION_DOMAIN.spec_bytes();
    let m1 = transfer_action_message(root, input_leaves, nullifiers, output_leaves);
    let m2 = transfer_action_message(root2, input_leaves2, nullifiers2, output_leaves2);
    lemma_blocks_layout(input_leaves);
    lemma_blocks_layout(nullifiers);
    lemma_blocks_layout(output_leaves);
    lemma_blocks_layout(input_leaves2);
    lemma_blocks_layout(nullifiers2);
    lemma_blocks_layout(output_leaves2);
    let p0 = d.len() as int;
    assert(m1.subrange(p0, p0 + 32) =~= root);
    assert(m2.subrange(p0, p0 + 32) =~= root2);
    let p1 = p0 + 32;
    let la = input_leaves.len() as int;
    let la2 = input_leaves2.len() as int;
    assert(m1.subrange(p1, p1 + 4) =~= be_bytes(input_leaves.len(), 4));
    assert(m2.subrange(p1, p1 + 4) =~= be_bytes(input_leaves2.len(), 4));
    assert(m1.subrange(p1 + 4, p1 + 4 + 32 * la) =~= blocks(input_leaves));
    assert(m2.subrange(p1 + 4, p1 + 4 + 32 * la2) =~= blocks(input_leaves2));
    lemma_read_counted(m1, m2, p1, input_leaves, input_leaves2);
    let p2 = p1 + 4 + 32 * la;
    let lb = nullifiers.len() as int;
    let lb2 = nullifiers2.len() as int;
    assert(m1.subrange(p2, p2 + 4) =~= be_bytes(nullifiers.len(), 4));
    assert(m2.subrange(p2, p2 + 4) =~= be_bytes(nullifiers2.len(), 4));
    assert(m1.subrange(p2 + 4, p2 + 4 + 32 * lb) =~= blocks(nullifiers));
    assert(m2.subrange(p2 + 4, p2 + 4 + 32 * lb2) =~= blocks(nullifiers2));
    lemma_read_counted(m1, m2, p2, nullifiers, nullifiers2);
    let p3 = p2 + 4 + 32 * lb;
    let lc = output_leaves.len() as int;
    let lc2 = output_leaves2.len() as int;
    assert(m1.subrange(p3, p3 + 4) =~= be_bytes(output_leaves.len(), 4));
    assert(m2.subrange(p3, p3 + 4) =~= be_bytes(output_leaves2.len(), 4));
    assert(m1.subrange(p3 + 4, p3 + 4 + 32 * lc) =~= blocks(output_leaves));
    assert(m2.subrange(p3 + 4, p3 + 4 + 32 * lc2) =~= blocks(output_leaves2));
    lemma_read_counted(m1, m2, p3, output_leaves, output_leaves2);
}

/// A withdraw action's bytes determine its parts: two withdraw actions over
/// 32-byte roots, 32-byte blocks (each list shorter than `2^32`) and 32-byte
/// change leaves, with the same bytes, have the same root, input leaves,
/// nullifiers, amount and change leaf.
pub proof fn lemma_withdraw_action_message_injective(
    root: Seq<u8>,
    input_leaves: Seq<Seq<u8>>,
    nullifiers: Seq<Seq<u8>>,
    withdraw_amount: u128,
    output_leaf: Seq<u8>,
    root2: Seq<u8>,
    input_leaves2: Seq<Seq<u8>>,
    nullifiers2: Seq<Seq<u8>>,
    withdraw_amount2: u128,
    output_leaf2: Seq<u8>,
)
    requires
        root.len() == 32,
        root2.len() == 32,
        output_leaf.len() == 32,
        output_leaf2.len() == 32,
        all_32(input_leaves),
        all_32(nullifiers),
        all_32(input_leaves2),
        all_32(nullifiers2),
        input_leaves.len() < 0x1_0000_0000,
        nullifiers.len() < 0x1_0000_0000,
        input_leaves2.len() < 0x1_0000_0000,
        nullifiers2.len() < 0x1_0000_0000,
        withdraw_action_message(root, input_leaves, nullifiers, withdraw_amount, output_leaf)
            == withdraw_action_message(
            root2,
            input_leaves2,
            nullifiers2,
            withdraw_amount2,
            output_leaf2,
        ),
    ensures
        root == root2,
        input_leaves == input_leaves2,
        nullifiers == nullifiers2,
        withdraw_amount == withdraw_amount2,
        output_leaf == output_leaf2,
{
    let d = WITHDRAW_ACTION_DOMAIN.spec_bytes();
    let m1 = withdraw_action_message(root, input_leaves, nullifiers, withdraw_amount, output_leaf);
    let m2 = withdraw_action_message(
        root2,
        input_leaves2,
        nullifiers2,
        withdraw_amount2,
        output_leaf2,
    );
    lemma_blocks_layout(input_leaves);
    lemma_blocks_layout(nullifiers);
    lemma_blocks_layout(input_leaves2);
    lemma_blocks_layout(nullifiers2);
    let p0 = d.len() as int;
    assert(m1.subrange(p0, p0 + 32) =~= root);
    assert(m2.subrange(p0, p0 + 32) =~= root2);
    let p1 = p0 + 32;
    let la = input_leaves.len() as int;
    let la2 = input_leaves2.len() as int;
    assert(m1.subrange(p1, p1 + 4) =~= be_bytes(input_leaves.len(), 4));
    assert(m2.subrange(p1, p1 + 4) =~= be_bytes(input_leaves2.len(), 4));
    assert(m1.subrange(p1 + 4, p1 + 4 + 32 * la) =~= blocks(input_leaves));
    assert(m2.subrange(p1 + 4, p1 + 4 + 32 * la2) =~= blocks(input_leaves2));
    lemma_read_counted(m1, m2, p1, input_leaves, input_leaves2);
    let p2 = p1 + 4 + 32 * la;
    let lb = nullifiers.len() as int;
    let lb2 = nullifiers2.len() as int;
    assert(m1.subrange(p2, p2 + 4) =~= be_bytes(nullifiers.len(), 4));
    assert(m2.subrange(p2, p2 + 4) =~= be_bytes(nullifiers2.len(), 4));
    assert(m1.subrange(p2 + 4, p2 + 4 + 32 * lb) =~= blocks(nullifiers));
    assert(m2.subrange(p2 + 4, p2 + 4 + 32 * lb2) =~= blocks(nullifiers2));
    lemma_read_counted(m1, m2, p2, nullifiers, nullifiers2);
    let p3 = p2 + 4 + 32 * lb;
    assert(m1.subrange(p3, p3 + 16) =~= be_bytes(withdraw_amount as nat, 16));
    assert(m2.subrange(p3, p3 + 16) =~= be_bytes(withdraw_amount2 as nat, 16));
    lemma_pow256_16();
    lemma_be_bytes_injective(withdraw_amount as nat, withdraw_amount2 as nat, 16);
    assert(m1.subrange(p3 + 16, p3 + 48) =~= output_leaf);
    assert(m2.subrange(p3 + 16, p3 + 48) =~= output_leaf2);
}

/// The byte at position 14 of each domain separator, and at 16 for the two
/// tree ones: where they part.
proof fn lemma_domain_bytes()
    ensures
        TRANSFER_ACTION_DOMAIN.spec_bytes().len() == 32,
        WITHDRAW_ACTION_DOMAIN.spec_bytes().len() == 32,
        NOTE_LEAF_DOMAIN.spec_bytes().len() == 26,
        NODE_DOMAIN.spec_bytes().len() == 21,
        TRANSFER_ACTION_DOMAIN.spec_bytes()[14] == 116u8,
        WITHDRAW_ACTION_DOMAIN.spec_bytes()[14] == 119u8,
        NOTE_LEAF_DOMAIN.spec_bytes()[14] == 110u8,
        NODE_DOMAIN.spec_bytes()[14] == 110u8,
        NOTE_LEAF_DOMAIN.spec_bytes()[16] == 116u8,
        NODE_DOMAIN.spec_bytes()[16] == 100u8,
{
    reveal_strlit("stellar-mixer-transfer-action-v1");
    reveal_strlit("stellar-mixer-withdraw-action-v1");
    reveal_strlit("stellar-mixer-note-leaf-v1");
    reveal_strlit("stellar-mixer-node-v1");
    vstd::string::is_ascii_spec_bytes(TRANSFER_ACTION_DOMAIN);
    vstd::string::is_ascii_spec_bytes(WITHDRAW_ACTION_DOMAIN);
    vstd::string::is_ascii_spec_bytes(NOTE_LEAF_DOMAIN);
    vstd::string::is_ascii_spec_bytes(NODE_DOMAIN);
}

/// Domain separation: whatever their arguments, a withdraw action, a transfer
/// action, a note leaf and a tree node hash different bytes, so equal digests
/// of two of them would be a SHA-256 collision.
pub proof fn lemma_messages_domain_separated(
    root: Seq<u8>,
    input_leaves: Seq<Seq<u8>>,
    nullifiers: Seq<Seq<u8>>,
    output_leaves: Seq<Seq<u8>>,
    withdraw_root: Seq<u8>,
    withdraw_inputs: Seq<Seq<u8>>,
    withdraw_nullifiers: Seq<Seq<u8>>,
    withdraw_amount: u128,
    output_leaf: Seq<u8>,
    note: Note,
    level: nat,
    left: Seq<u8>,
    right: Seq<u8>,
)
    ensures
        ({
            let transfer = transfer_action_message(root, input_leaves, nullifiers, output_leaves);
            let withdraw = withdraw_action_message(
                withdraw_root,
                withdraw_inputs,
                withdraw_nullifiers,
                withdraw_amount,
                output_leaf,
            );
            let leaf = note_leaf_message(note);
            let node = node_message(level, left, right);
            &&& withdraw != transfer
            &&& withdraw != leaf
            &&& withdraw != node
            &&& transfer != leaf
            &&& transfer != node
            &&& leaf != node
        }),
{
    lemma_domain_bytes();
    let transfer = transfer_action_message(root, input_leaves, nullifiers, output_leaves);
    let withdraw = withdraw_action_message(
        withdraw_root,
        withdraw_inputs,
        withdraw_nullifiers,
        withdraw_amount,
        output_leaf,
    );
    let leaf = note_leaf_message(note);
    let node = node_message(level, left, right);
    assert(transfer[14] == 116u8);
    assert(withdraw[14] == 119u8);
    assert(leaf[14] == 110u8);
    assert(node[14] == 110u8);
    assert(leaf[16] == 116u8);
    assert(node[16] == 100u8);
}

} // verus!
