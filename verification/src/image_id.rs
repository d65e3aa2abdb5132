//! Guest image IDs (eight 32-bit words) as bytes and as hex text.
use crate::bytes::{append_le_bytes, digit, le_bytes, lemma_four_digits};
use vstd::prelude::*;

verus! {

/// The words of `id`, each as its 4 little-endian bytes, in order.
pub open spec fn words_le_bytes(id: Seq<u32>) -> Seq<u8>
    decreases id.len(),
{
    if id.len() == 0 {
        Seq::empty()
    } else {
        words_le_bytes(id.drop_last()) + le_bytes(id.last() as nat, 4)
    }
}

/// The lower-case hex digit for `v` below 16.
pub open spec fn hex_digit(v: int) -> char {
    if v < 10 {
        (48 + v) as char
    } else {
        (87 + v) as char
    }
}

/// Lower-case hex text of `bytes`: two digits per byte, high nibble first.
pub open spec fn hex_lower(bytes: Seq<u8>) -> Seq<char>
    decreases bytes.len(),
{
    if bytes.len() == 0 {
        Seq::empty()
    } else {
        hex_lower(bytes.drop_last()) + seq![
            hex_digit(bytes.last() as int / 16),
            hex_digit(bytes.last() as int % 16),
        ]
    }
}

/// Calls `hex::encode` on `bytes`. Trusted: the text is two lower-case hex
/// digits per byte, high nibble first.
#[verifier::external_body]
fn hex_encode(bytes: &[u8]) -> (text: String)
    ensures
        text@ == hex_lower(bytes@),
{
    hex::encode(bytes)
}

/// The 32 bytes of an image ID: each word little-endian, in order.
pub fn image_id_bytes_le_words(id: [u32; 8]) -> (out: Vec<u8>)
    ensures
        out@ == words_le_bytes(id@),
{
    let mut out: Vec<u8> = Vec::with_capacity(32);
    let mut i: usize = 0;
    while i < 8
        invariant
            i <= 8,
            out@ == words_le_bytes(id@.take(i as int)),
        decreases 8 - i,
    {
        append_le_bytes(&mut out, id[i] as u128, 4);
        proof {
            assert(id@.take(i + 1).drop_last() =~= id@.take(i as int));
        }
        i = i + 1;
    }
    assert(id@.take(8) =~= id@);
    out
}

/// An image ID as hex text of its little-endian word bytes.
pub fn image_id_hex_le_words(id: [u32; 8]) -> (text: String)
    ensures
        text@ == hex_lower(words_le_bytes(id@)),
{
    let bytes = image_id_bytes_le_words(id);
    hex_encode(bytes.as_slice())
}

/// The little-endian 32-bit word in bytes `4k .. 4k + 4` of `bytes`.
pub open spec fn le_word(bytes: Seq<u8>, k: int) -> nat {
    bytes[4 * k] as nat + 256 * bytes[4 * k + 1] as nat + 65536 * bytes[4 * k + 2] as nat
        + 16777216 * bytes[4 * k + 3] as nat
}

proof fn lemma_words_layout(id: Seq<u32>)
    ensures
        words_le_bytes(id).len() == 4 * id.len(),
        forall|k: int, j: nat|
            0 <= k < id.len() && j < 4 ==> words_le_bytes(id)[4 * k + j] == #[trigger] digit(
                id[k] as nat,
                j,
            ),
    decreases id.len(),
{
    if id.len() > 0 {
        let init = id.drop_last();
        lemma_words_layout(init);
        assert forall|k: int, j: nat| 0 <= k < id.len() && j < 4 implies words_le_bytes(id)[4 * k
            + j] == #[trigger] digit(id[k] as nat, j) by {
            if k < id.len() - 1 {
                assert(init[k] == id[k]);
                assert(words_le_bytes(init)[4 * k + j] == digit(init[k] as nat, j));
            }
        }
    }
}

/// The image ID's bytes decode back to its words: bytes `4k .. 4k + 4`,
/// read little-endian, are word `k`; so distinct IDs have distinct bytes.
pub proof fn lemma_image_id_bytes_decode(id: Seq<u32>, other: Seq<u32>)
    requires
        id.len() == other.len(),
    ensures
        words_le_bytes(id).len() == 4 * id.len(),
        forall|k: int| 0 <= k < id.len() ==> le_word(words_le_bytes(id), k) == #[trigger] id[k],
        words_le_bytes(id) == words_le_bytes(other) ==> id == other,
{
    lemma_words_layout(id);
    lemma_words_layout(other);
    assert forall|k: int| 0 <= k < id.len() implies le_word(words_le_bytes(id), k)
        == #[trigger] id[k] by {
        lemma_four_digits(id[k] as nat);
        assert(words_le_bytes(id)[4 * k + 0] == digit(id[k] as nat, 0));
        assert(words_le_bytes(id)[4 * k + 1] == digit(id[k] as nat, 1));
        assert(words_le_bytes(id)[4 * k + 2] == digit(id[k] as nat, 2));
        assert(words_le_bytes(id)[4 * k + 3] == digit(id[k] as nat, 3));
    }
    if words_le_bytes(id) == words_le_bytes(other) {
        assert forall|k: int| 0 <= k < id.len() implies id[k] == other[k] by {
            lemma_four_digits(id[k] as nat);
            lemma_four_digits(other[k] as nat);
            assert(words_le_bytes(id)[4 * k + 0] == digit(other[k] as nat, 0));
            assert(words_le_bytes(id)[4 * k + 1] == digit(other[k] as nat, 1));
            assert(words_le_bytes(id)[4 * k + 2] == digit(other[k] as nat, 2));
            assert(words_le_bytes(id)[4 * k + 3] == digit(other[k] as nat, 3));
            assert(words_le_bytes(id)[4 * k + 0] == digit(id[k] as nat, 0));
            assert(words_le_bytes(id)[4 * k + 1] == digit(id[k] as nat, 1));
            assert(words_le_bytes(id)[4 * k + 2] == digit(id[k] as nat, 2));
            assert(words_le_bytes(id)[4 * k + 3] == digit(id[k] as nat, 3));
        }
        assert(id =~= other);
    }
}

} // verus!
