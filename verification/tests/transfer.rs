use rsa::{BigUint, RsaPrivateKey, RsaPublicKey};
use stellar_mixer::merkle::{build_sparse_tree, DEPTH, MAX_LEAVES};
use stellar_mixer::merkle::TreeError;
use stellar_mixer::note::{note_leaf, Note};
use stellar_mixer::signature::{owner_modulus, sign_action, verify_owner_signature, SetupError};
use stellar_mixer::transfer::{
    assert_unique_nullifiers, check_note_counts, process_transfer, TransferError, TransferInput,
};
use stellar_mixer::withdraw::{check_withdraw_balance, prepare_withdraw};

const LEAF_A: &str = "01d9bafc1031b2c258f39e8959219b911d5665c553ff66cd8254de707c35439b";
const LEAF_B: &str = "54557461cc30d5e3672cd20e5d1ac23ad7508e1ed320095bcf19a726c3a193ff";
const LEAF_C: &str = "5b6550456bd60428a592a875202b03c3c92e5127fc33f270008e18576c7558f9";
const LEAF_D: &str = "3b077bdab18c1cf043fbfb72dfe3784ef759e699ff37d7f9da5e12aceb4cef8f";
const ROOT_AB: &str = "e005d8b4b1f7ba6dd0cef3126c9580bf836f60d1c7d4bbcc7757d1cbc30d0566";
const TRANSFER_ACTION: &str = "02af85effe9ba32dd83207a2a8cf4b53af69b6f8455b7584b4945dda1d99f006";
const TRANSFER_SIG: &str = "d4e2246cf9730b05e35ca27b6682da66682f46ca11ab2c2853c7793d09830bf5077c9d4cf40d550df9e83dc0158b51e9bb729f35c355b3c8f723cc0ceb91b9263801ee26d317af3dfe2de5e59115a9d984a0bce80fed5ee592d04cbe3f6149253fc42a669affd70001e5c0de2bf34f36743bc1639bc581315502dc80dc37f0005de9b18ed3f63b880c39c2e481aa3cf81a0d101a8692bcb48a75ad72520887a0108f1622b8d5903d84f0d4994e256c4fbac0a8537eb840e9d8094f70543d27bcc6af561fc35951b6d09d3bb71e7e980722dc65409fd6ce02045291191b6ac32a484885d39536f84e678e1427deffd152ba77061400b6bc645a7ed6c58ecfab06";
const TRANSFER_JOURNAL: &str = "e005d8b4b1f7ba6dd0cef3126c9580bf836f60d1c7d4bbcc7757d1cbc30d05660801010101010101010101010101010101010101010101010101010101010101010303030303030303030303030303030303030303030303030303030303030303085b6550456bd60428a592a875202b03c3c92e5127fc33f270008e18576c7558f93b077bdab18c1cf043fbfb72dfe3784ef759e699ff37d7f9da5e12aceb4cef8f";
const LEAF_E: &str = "fef5a9f39a0c661db81d9726fde619b8f0808e7baaa16c82b5566a05bc6f44cf";
const WITHDRAW_ACTION: &str = "667e865772b1ddd63b983ccefb7a75ab9c407c54d30e170a433578c3d257dda2";
const WITHDRAW_SIG: &str = "bd6d969c63960e721dae7476c6f7f9efe3b4ac7a84f27d9e2abca07530e2f6c846092f3de4d2d6f3fe8768b1d97793c2a87cb567a1860e269e6268d99f3968d5029d423a4b76048b72c4ad4aa2c704b2c8a1e202f7599c72a0959af56159e838ed375959673f6d2610efb14f60c21e354ff39609de2b98fb5b1ad0ad0cf91cb14bb3aaa4a962759ff381b70a0d03cae3470bd6dabeac0fe22a37da2c264ee90fe8059580ccfe53d72e651074fbe79d155ec0a26bd5d42485da244f3e68916d2c3f750508b02d66fed610d19f4968ff30596b0fb04039e87c9ac4f36c0bdaa66698b18144ec01a17e2cde27baadef1d92b15ec10e5e433c8f45f3b05bee405bdd";
const N: &str = "f96d022bfbdbee49d22bd640dc51abd345cafba9157358add45d04ab64dd9a1862c6c381bf9bcc0d6a07913c70fcd4113a86868a61895e4a62bd4975030a2f41a89202be76fb4cf3599f2ca91636281e8e391735db34932370921e18acf3fd5f09a6b5fa7306ba1688fe5626580b198b7e41032782406ca390dd43cad0392d592da2b41425fa7c9bbf3a53cbf4cbc8f67add12f8d910ef2f739c034ea2ea4f1f818c54699d174adbc4b8adf1dda1a3808760230ea9c317655e40e2812acbb2ee6cd3a801c6fc39007c68a188acec59a8df66027bf8c4e4abbd5360f2ff810b042619e728f0ab6f4eb52db65b4853d7fa589a9bf10461b2b7ace75a02ce39d77b";
const P: &str = "fb7fc28464a64f895ea65843f8373f8daffe9c9cc35b6eeae76f3e70733fce19cca246d0ed200d7ff356dee32f37c2cf4c4ca2aa553b8c9a8bbc5e0d3c2223ffaea3bac4368c0b2f12fb493d7910486285b659382754a8e087ff9587be3f31a6f402488e4deb1c44a87b6fa2d29490f130141b74a828406d454bd62f2bef4afd";
const Q: &str = "fde3c005f1dcd5fd30221f94c83fb4021429c0af6f49f959b3c3f4b125e552560968f05e4a58fa8bf1729dad11c5bbbf90e0c61120c923446f0d814997f721ade4813698155a3614658f3a988d3725383987535959c199a97d188cd60b79f502d86032092dd5534067e8d8bed473b6212cf59c6bad1f68f2f368353fe3b861d7";
const D: &str = "d639aa03dceda85bff07679d8d9d17d6fdbab92b202151a8fb1c69464bfb88be29184e12c25f2d82d7ee67ef619bc508871bc3b256d385089e85b4f1ab0ab44bd05c97bebeb258052a946be74e0c75a8c8be8010e194e64b2a0455951bf6f3470d2302697921edf22cf74546e9979ef91017067e88808cce6f3d9b5c363ae59660696642d6cdc91d89de40eb41a71b227d09f87fb0efe9910b0dfabeb405877399f9eb009d06b09b99d9f6afbfb9bb81548cfd3b38d5f0549c593b7ec1b7bdde55189a06c710b716c09ba5262bbaba83e75abd70041b19659cb645aa21e6ed5a2c743deb306026112a5756fd706b56a9e887295aab09d1bc2b3165ebbf620b01";

const N3: &str = "ad54e29d597521a2adeb8dce3381b111ca241bd68e2245f274b2d52ece6b092737bbf9a2157aecfa923f75135fafb08b54dceb9ad53cd149b7a7b0bf177f6e287b491484265d0390d160fa0fafeadc02ee2082d4bb43b15a0e301041be494f6195b1729d2dea0276cc774c6e83e4c2cd3a1b3607300e1ba283db158ddd0ebfe372e3262f8b14717fca3600eca4746a934ef720ed4dd258dfbdd80818ca629179773537846e5a16b37b025e519df1377d54121a2a9dbb391b72d84cbde7f365b4ae43a8399f59a5aaf0ebc499ee8d92923ed38fdebfbdffd1bf642eba298e21afc83d4ba2ed7ac709b3f7d1f4d600c1bd51d6b92110abb4afa17aec8674bc7157";
const P3: &str = "c83a177683146747b8280b5853a554a0359efd57fbee704a38fab4e67ffe02d0f7c84c937fc51cf4d33704134a7beb5a0502437d8d5b3f7cca34caeb8141dfb642563f431bb8f4c15f6b72b4a404e12c9dd775a4308ee55f02c6b5d338aaa06cd2d8678304a1749e5c5a26696801a79bfb30f7d1dfb3328c2de6a3e477b0b597";
const Q3: &str = "dd9cec7afb9359f65bbcea440d013674f18a317b0b5f28d3e4b262275c618bae4fd5bae216cf43485babd6ec9c228516e30490768cf9ddcdba91431fb825a89d9e245bc251f2618568378b873899667fe6427957c920c915be9a2e012e5b4a0e4f18b17bd30f9add00637772a41a237371c9d6ac18f500d1cf3e0fd0b49b1a41";
const D3: &str = "738dec68e64e166c73f25e8977abcb61316d67e45ec183f6f87738c9def2061a2527fbc163a748a70c2a4e0cea75205ce33df26738d33631251a75d4ba54f41afcdb6302c43e02608b95fc0a75473d57496b01e32782763c0975602bd430df9663cba1be1e9c01a4884f8849ad432c88d167795a200967c1ad3cb9093e09d541335d6c295d9dcad6798b5ce02d33ea541a894c1184587fd66ac74b5c9eacaca6ca64cab48fd9244edd6a578bcf8c84b2f2b22ecf0244128b49617f21c9b29395de8608cd767434ed70db2ee9614a31ee7c7bc0972eb4363dfeacdc992c5acf786edd77180e867a5ee4d178108698a473ede7f1c2100256366d8ed08b85a06bab";
const SIG3: &str = "9bc7e86374c04b85aaa177fa89171de2b1e9e3b020b7348424aad5150c8ea5faf40a3a66a7c0ef5904fd7465cf11cb92a0559b7b15e483327c76e9302e493bd844a9d2805149985d1bdf4fd1874a431fba653311319bdd5fac1ca1edf8b762e1a827c746b8bf40ab61c7e54a32c81dfb3ece9e7ff1496651f9f14dfcb5ea45c18c644f120fa953f4114fbdd094d99431f283b0b396545b32187538a568acf7adf695d596841722a1b1f1c9db6eabc50db474303299028f8ff4be10201bf25e32bf6d937260d674323e36d6f7a8cf906ae75379e58c091d72801de274dec31bfdb71800a824c334d42d6bfae6cc79581d35a61e57dbbe7aff0b75ef9bb259902e";

fn h32(s: &str) -> [u8; 32] {
    hex::decode(s).unwrap().try_into().unwrap()
}

fn h256(s: &str) -> [u8; 256] {
    hex::decode(s).unwrap().try_into().unwrap()
}

fn big(s: &str) -> BigUint {
    BigUint::from_bytes_be(&hex::decode(s).unwrap())
}

fn keys() -> (RsaPrivateKey, RsaPublicKey) {
    let private_key =
        RsaPrivateKey::from_components(big(N), BigUint::from(65537u32), big(D), vec![big(P), big(Q)])
            .unwrap();
    let public_key = RsaPublicKey::from(&private_key);
    (private_key, public_key)
}

fn note(value: u128, nullifier: u8, secret: u8) -> Note {
    Note { value, owner_modulus: h256(N), nullifier: [nullifier; 32], secret: [secret; 32] }
}

fn input_a() -> Note {
    note(70, 1, 2)
}

fn input_b() -> Note {
    note(30, 3, 4)
}

fn outputs() -> Vec<Note> {
    vec![note(60, 5, 6), note(40, 7, 8)]
}

fn tree_inputs(notes: &[(u64, Note)]) -> ([u8; 32], Vec<TransferInput>) {
    let entries: Vec<(u64, [u8; 32])> = notes.iter().map(|(i, n)| (*i, note_leaf(n))).collect();
    let (root, paths) = build_sparse_tree(&entries).unwrap();
    let inputs = notes
        .iter()
        .zip(paths.iter())
        .map(|((i, n), p)| TransferInput { leaf_index: *i, note: *n, merkle_path: *p })
        .collect();
    (root, inputs)
}

fn demo_inputs() -> ([u8; 32], Vec<TransferInput>) {
    tree_inputs(&[(19, input_a()), (43, input_b())])
}

#[test]
fn leaves_of_the_demo_notes() {
    assert_eq!(note_leaf(&input_a()), h32(LEAF_A));
    assert_eq!(note_leaf(&input_b()), h32(LEAF_B));
    assert_eq!(note_leaf(&outputs()[0]), h32(LEAF_C));
    assert_eq!(note_leaf(&outputs()[1]), h32(LEAF_D));
}

#[test]
fn owner_modulus_of_the_test_key() {
    let (_, public_key) = keys();
    assert_eq!(owner_modulus(&public_key).unwrap(), h256(N));
}

#[test]
fn sign_action_gives_the_pkcs1_signature() {
    let (private_key, public_key) = keys();
    let signature = sign_action(&private_key, &public_key, &h32(TRANSFER_ACTION)).unwrap();
    assert_eq!(signature.to_vec(), hex::decode(TRANSFER_SIG).unwrap());
}

#[test]
fn owner_signature_verifies_and_tampering_is_caught() {
    let signature = h256(TRANSFER_SIG);
    assert!(verify_owner_signature(h256(N), &h32(TRANSFER_ACTION), &signature).is_ok());
    let mut other_hash = h32(TRANSFER_ACTION);
    other_hash[0] ^= 1;
    assert_eq!(
        verify_owner_signature(h256(N), &other_hash, &signature).unwrap_err(),
        TransferError::InvalidSignature
    );
    let mut bad = signature;
    bad[100] ^= 0x40;
    assert_eq!(
        verify_owner_signature(h256(N), &h32(TRANSFER_ACTION), &bad).unwrap_err(),
        TransferError::InvalidSignature
    );
    let mut even_modulus = h256(N);
    even_modulus[255] &= 0xFE;
    assert!(verify_owner_signature(even_modulus, &h32(TRANSFER_ACTION), &signature).is_err());
}

#[test]
fn demo_transfer_is_accepted_with_its_journal() {
    let (root, inputs) = demo_inputs();
    assert_eq!(root, h32(ROOT_AB));
    let journal = process_transfer(root, &inputs, &outputs(), &h256(TRANSFER_SIG)).unwrap();
    assert_eq!(journal, hex::decode(TRANSFER_JOURNAL).unwrap());
}

#[test]
fn transfer_note_counts() {
    let (root, inputs) = demo_inputs();
    let sig = h256(TRANSFER_SIG);
    assert_eq!(process_transfer(root, &vec![], &outputs(), &sig).unwrap_err(), TransferError::InvalidNoteCount);
    assert_eq!(process_transfer(root, &inputs, &vec![], &sig).unwrap_err(), TransferError::InvalidNoteCount);
    let nine = vec![note(1, 9, 9); 9];
    assert_eq!(process_transfer(root, &inputs, &nine, &sig).unwrap_err(), TransferError::InvalidNoteCount);
    let nine_inputs = vec![inputs[0]; 9];
    assert_eq!(
        process_transfer(root, &nine_inputs, &outputs(), &sig).unwrap_err(),
        TransferError::InvalidNoteCount
    );
    assert!(check_note_counts(1, 8).is_ok());
    assert!(check_note_counts(8, 1).is_ok());
    assert_eq!(check_note_counts(0, 1).unwrap_err(), TransferError::InvalidNoteCount);
    assert_eq!(check_note_counts(1, 9).unwrap_err(), TransferError::InvalidNoteCount);
}

#[test]
fn transfer_with_a_foreign_owner_is_refused() {
    let mut foreign = input_b();
    foreign.owner_modulus[10] ^= 1;
    let (root, inputs) = tree_inputs(&[(19, input_a()), (43, foreign)]);
    assert_eq!(
        process_transfer(root, &inputs, &outputs(), &h256(TRANSFER_SIG)).unwrap_err(),
        TransferError::OwnerMismatch
    );
}

#[test]
fn transfer_with_a_wrong_root_is_refused() {
    let (root, mut inputs) = demo_inputs();
    inputs[1].leaf_index = 42;
    assert_eq!(
        process_transfer(root, &inputs, &outputs(), &h256(TRANSFER_SIG)).unwrap_err(),
        TransferError::RootMismatch
    );
    let (_, inputs) = demo_inputs();
    assert_eq!(
        process_transfer([0; 32], &inputs, &outputs(), &h256(TRANSFER_SIG)).unwrap_err(),
        TransferError::RootMismatch
    );
}

#[test]
fn transfer_with_overflowing_inputs_is_refused() {
    let (root, inputs) = tree_inputs(&[(1, note(u128::MAX, 1, 2)), (2, note(1, 3, 4))]);
    assert_eq!(
        process_transfer(root, &inputs, &outputs(), &h256(TRANSFER_SIG)).unwrap_err(),
        TransferError::InputValueOverflow
    );
}

#[test]
fn transfer_with_repeated_nullifier_is_refused() {
    let (root, inputs) = tree_inputs(&[(19, note(70, 1, 2)), (43, note(30, 1, 4))]);
    assert_eq!(
        process_transfer(root, &inputs, &outputs(), &h256(TRANSFER_SIG)).unwrap_err(),
        TransferError::DuplicateNullifier
    );
}

#[test]
fn transfer_with_overflowing_outputs_is_refused() {
    let (root, inputs) = demo_inputs();
    let outs = vec![note(u128::MAX, 5, 6), note(1, 7, 8)];
    assert_eq!(
        process_transfer(root, &inputs, &outs, &h256(TRANSFER_SIG)).unwrap_err(),
        TransferError::OutputValueOverflow
    );
}

#[test]
fn transfer_that_creates_value_is_refused() {
    let (root, inputs) = demo_inputs();
    let outs = vec![note(61, 5, 6), note(40, 7, 8)];
    assert_eq!(
        process_transfer(root, &inputs, &outs, &h256(TRANSFER_SIG)).unwrap_err(),
        TransferError::ValueMismatch
    );
}

#[test]
fn transfer_with_a_signature_over_other_outputs_is_refused() {
    let (root, inputs) = demo_inputs();
    let outs = vec![note(40, 7, 8), note(60, 5, 6)];
    assert_eq!(
        process_transfer(root, &inputs, &outs, &h256(TRANSFER_SIG)).unwrap_err(),
        TransferError::InvalidSignature
    );
}

#[test]
fn unique_nullifier_check() {
    assert!(assert_unique_nullifiers(&[[1; 32], [2; 32], [3; 32]]).is_ok());
    assert!(assert_unique_nullifiers(&[]).is_ok());
    assert_eq!(
        assert_unique_nullifiers(&[[1; 32], [2; 32], [1; 32]]).unwrap_err(),
        TransferError::DuplicateNullifier
    );
}

#[test]
fn withdraw_balance_check() {
    let inputs = vec![input_a(), input_b()];
    assert_eq!(check_withdraw_balance(&inputs, 45, &note(55, 9, 10)).unwrap(), 100);
    assert_eq!(check_withdraw_balance(&inputs, 45, &note(56, 9, 10)).unwrap_err(), SetupError::ValueMismatch);
    assert_eq!(
        check_withdraw_balance(&inputs, u128::MAX, &note(1, 9, 10)).unwrap_err(),
        SetupError::AmountOverflow
    );
}

#[test]
fn demo_withdraw_is_prepared() {
    let (private_key, public_key) = keys();
    let inputs = vec![input_a(), input_b()];
    let change = note(55, 9, 10);
    let setup = prepare_withdraw(&inputs, &vec![19, 43], 45, &change, &private_key, &public_key).unwrap();
    assert_eq!(setup.root, h32(ROOT_AB));
    assert_eq!(setup.input_leaves, vec![h32(LEAF_A), h32(LEAF_B)]);
    assert_eq!(setup.nullifiers, vec![[1; 32], [3; 32]]);
    assert_eq!(setup.output_leaf, h32(LEAF_E));
    assert_eq!(setup.action_hash, h32(WITHDRAW_ACTION));
    assert_eq!(setup.signature.to_vec(), hex::decode(WITHDRAW_SIG).unwrap());
    assert_eq!(setup.paths.len(), 2);
    assert_eq!(setup.paths[0].len(), DEPTH);
}

#[test]
fn withdraw_preparation_errors() {
    let (private_key, public_key) = keys();
    let inputs = vec![input_a(), input_b()];
    let change = note(55, 9, 10);
    let unbalanced = prepare_withdraw(&inputs, &vec![19, 43], 46, &change, &private_key, &public_key);
    assert_eq!(unbalanced.err(), Some(SetupError::ValueMismatch));
    let same_index = prepare_withdraw(&inputs, &vec![19, 19], 45, &change, &private_key, &public_key);
    assert_eq!(same_index.err(), Some(SetupError::Tree(TreeError::DuplicateIndex)));
    let far = prepare_withdraw(&inputs, &vec![19, MAX_LEAVES], 45, &change, &private_key, &public_key);
    assert_eq!(far.err(), Some(SetupError::Tree(TreeError::IndexOutOfRange)));
    let no_indices = prepare_withdraw(&inputs, &vec![], 45, &change, &private_key, &public_key);
    assert_eq!(no_indices.err(), Some(SetupError::Tree(TreeError::NoLeaves)));
}

#[test]
fn what_the_host_signs_the_guest_accepts() {
    let (private_key, public_key) = keys();
    let hash = [0x5Au8; 32];
    let signature = sign_action(&private_key, &public_key, &hash).unwrap();
    let modulus = owner_modulus(&public_key).unwrap();
    assert!(verify_owner_signature(modulus, &hash, &signature).is_ok());
}

#[test]
fn sign_action_signs_with_a_key_of_another_exponent() {
    let private_key =
        RsaPrivateKey::from_components(big(N3), BigUint::from(3u32), big(D3), vec![big(P3), big(Q3)])
            .unwrap();
    let public_key = RsaPublicKey::from(&private_key);
    let signature = sign_action(&private_key, &public_key, &[0x5Au8; 32]).unwrap();
    assert_eq!(signature.to_vec(), hex::decode(SIG3).unwrap());
    assert_eq!(owner_modulus(&public_key).unwrap_err(), SetupError::UnexpectedExponent);
}

#[test]
fn sign_action_refuses_a_public_key_with_the_wrong_exponent() {
    let (private_key, _) = keys();
    let other = RsaPublicKey::new(big(N), BigUint::from(3u32)).unwrap();
    assert_eq!(
        sign_action(&private_key, &other, &h32(TRANSFER_ACTION)).unwrap_err(),
        SetupError::SignatureRejected
    );
}

#[test]
fn sign_action_refuses_a_signature_the_public_key_rejects() {
    let (private_key, _) = keys();
    let other_modulus = big(N) + BigUint::from(2u32);
    let other = RsaPublicKey::new(other_modulus, BigUint::from(65537u32)).unwrap();
    assert_eq!(
        sign_action(&private_key, &other, &h32(TRANSFER_ACTION)).unwrap_err(),
        SetupError::SignatureRejected
    );
}

#[test]
fn balanced_demo_withdraw_gives_no_value_error() {
    let (private_key, public_key) = keys();
    let inputs = vec![input_a(), input_b()];
    let setup = prepare_withdraw(&inputs, &vec![43, 19], 45, &note(55, 9, 10), &private_key, &public_key);
    assert!(setup.is_ok());
}
