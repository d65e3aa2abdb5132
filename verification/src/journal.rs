//! The SCALE framing of the journals that the guests commit: the transfer
//! journal the transfer guest writes, and the withdraw journal the host reads.
use crate::action::{block_views, blocks};
use crate::bytes::{append_bytes, le_bytes};
use parity_scale_codec::{Decode, Encode};
use vstd::prelude::*;

verus! {

/// SCALE's compact encoding of a 32-bit length `n`.
pub open spec fn compact_len(n: nat) -> Seq<u8> {
    if n < 0x40 {
        seq![(n * 4) as u8]
    } else if n < 0x4000 {
        le_bytes(n * 4 + 1, 2)
    } else if n < 0x4000_0000 {
        le_bytes(n * 4 + 2, 4)
    } else {
        seq![3u8] + le_bytes(n, 4)
    }
}

/// SCALE's encoding of a list of 32-byte arrays: the compact length, then the
/// arrays' bytes.
pub open spec fn scale_blocks(items: Seq<Seq<u8>>) -> Seq<u8> {
    compact_len(items.len()) + blocks(items)
}

/// Calls `parity_scale_codec::Encode::encode` on `items`. Trusted: the bytes
/// are SCALE's encoding of a sequence (compact length, then each 32-byte
/// array as it stands). More than `u32::MAX` items make the call panic.
#[verifier::external_body]
fn scale_encode_blocks(items: &Vec<[u8; 32]>) -> (encoded: Vec<u8>)
    requires
        items@.len() <= u32::MAX,
    ensures
        encoded@ == scale_blocks(block_views(items@)),
{
    items.encode()
}

/// The transfer journal: the root, then the nullifiers and the output leaves,
/// each as a SCALE sequence.
pub open spec fn transfer_journal_bytes(
    root: Seq<u8>,
    nullifiers: Seq<Seq<u8>>,
    output_leaves: Seq<Seq<u8>>,
) -> Seq<u8> {
    root + scale_blocks(nullifiers) + scale_blocks(output_leaves)
}

/// SCALE encoding of the transfer journal `{ root, nullifiers, output_leaves }`:
/// its fields' encodings in order, the root being its 32 bytes.
pub fn encode_transfer_journal(
    root: &[u8; 32],
    nullifiers: &Vec<[u8; 32]>,
    output_leaves: &Vec<[u8; 32]>,
) -> (journal: Vec<u8>)
    requires
        nullifiers@.len() <= u32::MAX,
        output_leaves@.len() <= u32::MAX,
    ensures
        journal@ == transfer_journal_bytes(
            root@,
            block_views(nullifiers@),
            block_views(output_leaves@),
        ),
{
    let mut journal: Vec<u8> = Vec::new();
    append_bytes(&mut journal, root);
    let encoded_nullifiers = scale_encode_blocks(nullifiers);
    append_bytes(&mut journal, encoded_nullifiers.as_slice());
    let encoded_leaves = scale_encode_blocks(output_leaves);
    append_bytes(&mut journal, encoded_leaves.as_slice());
    assert(journal@ =~= transfer_journal_bytes(
        root@,
        block_views(nullifiers@),
        block_views(output_leaves@),
    ));
    journal
}

/// The withdraw guest's public outputs.
pub struct WithdrawJournal {
    pub root: [u8; 32],
    pub nullifiers: Vec<[u8; 32]>,
    pub withdraw_amount: u128,
    pub output_leaf: [u8; 32],
}

/// SCALE encoding of a withdraw journal with these fields.
pub open spec fn withdraw_journal_bytes(
    root: Seq<u8>,
    nullifiers: Seq<[u8; 32]>,
    withdraw_amount: u128,
    output_leaf: Seq<u8>,
) -> Seq<u8> {
    root + scale_blocks(block_views(nullifiers)) + le_bytes(withdraw_amount as nat, 16) + output_leaf
}

/// `bytes` begin with the encoding of a withdraw journal with these fields.
pub open spec fn starts_with_withdraw_journal(
    bytes: Seq<u8>,
    root: [u8; 32],
    nullifiers: Seq<[u8; 32]>,
    withdraw_amount: u128,
    output_leaf: [u8; 32],
) -> bool {
    &&& nullifiers.len() <= u32::MAX
    &&& withdraw_journal_bytes(root@, nullifiers, withdraw_amount, output_leaf@).is_prefix_of(bytes)
}

/// SCALE's decoding error.
#[verifier::external_type_specification]
#[verifier::external_body]
pub struct ExScaleError(parity_scale_codec::Error);

/// Calls `parity_scale_codec::Decode::decode` for the tuple
/// `([u8; 32], Vec<[u8; 32]>, u128, [u8; 32])` on `bytes`. Trusted: it
/// succeeds exactly when `bytes` begin with the SCALE encoding of such a
/// tuple (canonical compact length, little-endian `u128`), and returns that
/// tuple; bytes after it are left unread.
#[verifier::external_body]
fn scale_decode_withdraw_fields(bytes: &[u8]) -> (res: Result<
    ([u8; 32], Vec<[u8; 32]>, u128, [u8; 32]),
    parity_scale_codec::Error,
>)
    ensures
        match res {
            Ok(fields) => starts_with_withdraw_journal(
                bytes@,
                fields.0,
                fields.1@,
                fields.2,
                fields.3,
            ),
            Err(_) => forall|
                root: [u8; 32],
                nullifiers: Seq<[u8; 32]>,
                withdraw_amount: u128,
                output_leaf: [u8; 32],
            |
                !#[trigger] starts_with_withdraw_journal(
                    bytes@,
                    root,
                    nullifiers,
                    withdraw_amount,
                    output_leaf,
                ),
        },
{
    <([u8; 32], Vec<[u8; 32]>, u128, [u8; 32])>::decode(&mut &bytes[..])
}

/// Why a journal could not be read.
#[derive(Clone, Copy, Debug, PartialEq, Eq, Structural)]
pub enum JournalError {
    /// The bytes do not begin with a SCALE-encoded withdraw journal.
    Malformed,
}

/// Reads a withdraw journal from the front of `journal`; `Malformed` exactly
/// when `journal` does not begin with the encoding of one.
pub fn decode_withdraw_journal(journal: &[u8]) -> (res: Result<WithdrawJournal, JournalError>)
    ensures
        match res {
            Ok(decoded) => starts_with_withdraw_journal(
                journal@,
                decoded.root,
                decoded.nullifiers@,
                decoded.withdraw_amount,
                decoded.output_leaf,
            ),
            Err(e) => e == JournalError::Malformed && forall|
                root: [u8; 32],
                nullifiers: Seq<[u8; 32]>,
                withdraw_amount: u128,
                output_leaf: [u8; 32],
            |
                !#[trigger] starts_with_withdraw_journal(
                    journal@,
                    root,
                    nullifiers,
                    withdraw_amount,
                    output_leaf,
                ),
        },
{
    match scale_decode_withdraw_fields(journal) {
        Ok((root, nullifiers, withdraw_amount, output_leaf)) => Ok(
            WithdrawJournal { root, nullifiers, withdraw_amount, output_leaf },
        ),
        Err(_) => Err(JournalError::Malformed),
    }
}

} // verus!
