//! Fixed-width integer encodings and byte-buffer helpers.
use vstd::arithmetic::div_mod::lemma_div_denominator;
use vstd::arithmetic::power::{lemma_pow0, lemma_pow1, lemma_pow_adds, lemma_pow_positive, pow};
use vstd::prelude::*;

verus! {

/// Base-256 digit `i` of `v`, counting from the least significant one.
pub open spec fn digit(v: nat, i: nat) -> u8 {
    ((v as int / pow(256, i)) % 256) as u8
}

/// The `n` lowest base-256 digits of `v`, most significant first:
/// `x.to_be_bytes()` for an `n`-byte unsigned `x` equal to `v` modulo `256^n`.
pub open spec fn be_bytes(v: nat, n: nat) -> Seq<u8> {
    Seq::new(n, |i: int| digit(v, (n - 1 - i) as nat))
}

/// The `n` lowest base-256 digits of `v`, least significant first:
/// `x.to_le_bytes()` for an `n`-byte unsigned `x` equal to `v` modulo `256^n`.
pub open spec fn le_bytes(v: nat, n: nat) -> Seq<u8> {
    Seq::new(n, |i: int| digit(v, i as nat))
}

/// The unsigned integer whose big-endian base-256 digits are `s`.
pub open spec fn be_value(s: Seq<u8>) -> nat
    decreases s.len(),
{
    if s.len() == 0 {
        0
    } else {
        be_value(s.drop_last()) * 256 + s.last() as nat
    }
}

pub proof fn lemma_pow256_step(k: nat)
    ensures
        pow(256, k + 1) == pow(256, k) * 256,
        pow(256, k) > 0,
{
    lemma_pow_positive(256, k);
    lemma_pow_adds(256, k, 1);
    lemma_pow1(256);
}

/// Appends `src` to `out`.
pub fn append_bytes(out: &mut Vec<u8>, src: &[u8])
    ensures
        final(out)@ == old(out)@ + src@,
{
    let ghost start = out@;
    let mut i: usize = 0;
    while i < src.len()
        invariant
            i <= src@.len(),
            out@ == start + src@.subrange(0, i as int),
        decreases src@.len() - i,
    {
        out.push(src[i]);
        i = i + 1;
        assert(out@ =~= start + src@.subrange(0, i as int));
    }
    assert(src@.subrange(0, src@.len() as int) =~= src@);
}

/// The `n` lowest base-256 digits of `v`, least significant first.
fn low_digits(v: u128, n: usize) -> (digits: Vec<u8>)
    requires
        n <= 16,
    ensures
        digits@ == le_bytes(v as nat, n as nat),
{
    let mut digits: Vec<u8> = Vec::new();
    let mut x: u128 = v;
    let mut k: usize = 0;
    proof { lemma_pow0(256); }
    while k < n
        invariant
            k <= n <= 16,
            digits@.len() == k,
            x as int == v as int / pow(256, k as nat),
            forall|j: int| 0 <= j < k ==> #[trigger] digits@[j] == digit(v as nat, j as nat),
        decreases n - k,
    {
        digits.push((x % 256) as u8);
        proof {
            lemma_pow256_step(k as nat);
            lemma_div_denominator(v as int, pow(256, k as nat), 256);
        }
        x = x / 256;
        k = k + 1;
    }
    assert(digits@ =~= le_bytes(v as nat, n as nat));
    digits
}

/// Appends the `n` lowest big-endian bytes of `v`.
pub fn append_be_bytes(out: &mut Vec<u8>, v: u128, n: usize)
    requires
        n <= 16,
    ensures
        final(out)@ == old(out)@ + be_bytes(v as nat, n as nat),
{
    let ghost start = out@;
    let digits = low_digits(v, n);
    let mut j: usize = n;
    while j > 0
        invariant
            j <= n <= 16,
            digits@ == le_bytes(v as nat, n as nat),
            out@ == start + be_bytes(v as nat, n as nat).subrange(0, n - j),
        decreases j,
    {
        j = j - 1;
        out.push(digits[j]);
        assert(out@ =~= start + be_bytes(v as nat, n as nat).subrange(0, n - j));
    }
    assert(be_bytes(v as nat, n as nat).subrange(0, n as int) =~= be_bytes(v as nat, n as nat));
}

/// Appends the `n` lowest little-endian bytes of `v`.
pub fn append_le_bytes(out: &mut Vec<u8>, v: u128, n: usize)
    requires
        n <= 16,
    ensures
        final(out)@ == old(out)@ + le_bytes(v as nat, n as nat),
{
    let digits = low_digits(v, n);
    append_bytes(out, digits.as_slice());
}

/// Whether `a` and `b` hold the same bytes.
pub fn same_bytes(a: &[u8], b: &[u8]) -> (same: bool)
    ensures
        same == (a@ == b@),
{
    if a.len() != b.len() {
        return false;
    }
    let mut i: usize = 0;
    while i < a.len()
        invariant
            a@.len() == b@.len(),
            i <= a@.len(),
            forall|k: int| 0 <= k < i ==> a@[k] == b@[k],
        decreases a@.len() - i,
    {
        if a[i] != b[i] {
            return false;
        }
        i = i + 1;
    }
    assert(a@ =~= b@);
    true
}

/// A number below `2^32` is the sum of its four low base-256 digits.
pub proof fn lemma_four_digits(v: nat)
    requires
        v < 0x1_0000_0000,
    ensures
        v == digit(v, 0) + 256 * digit(v, 1) + 65536 * digit(v, 2) + 16777216 * digit(v, 3),
{
    lemma_pow0(256);
    lemma_pow256_step(0);
    lemma_pow256_step(1);
    lemma_pow256_step(2);
    assert(pow(256, 1) == 256);
    assert(pow(256, 2) == 65536);
    assert(pow(256, 3) == 16777216);
    let x = v as int;
    assert(x == x % 256 + 256 * ((x / 256) % 256) + 65536 * ((x / 65536) % 256) + 16777216 * ((x
        / 16777216) % 256)) by (nonlinear_arith)
        requires
            0 <= x < 0x1_0000_0000,
    ;
}

/// Four big-endian bytes determine a number below `2^32`.
pub proof fn lemma_be_bytes4_injective(v: nat, w: nat)
    requires
        v < 0x1_0000_0000,
        w < 0x1_0000_0000,
        be_bytes(v, 4) == be_bytes(w, 4),
    ensures
        v == w,
{
    lemma_four_digits(v);
    lemma_four_digits(w);
    assert(be_bytes(v, 4)[0] == digit(v, 3));
    assert(be_bytes(v, 4)[1] == digit(v, 2));
    assert(be_bytes(v, 4)[2] == digit(v, 1));
    assert(be_bytes(v, 4)[3] == digit(v, 0));
    assert(be_bytes(w, 4)[0] == digit(w, 3));
    assert(be_bytes(w, 4)[1] == digit(w, 2));
    assert(be_bytes(w, 4)[2] == digit(w, 1));
    assert(be_bytes(w, 4)[3] == digit(w, 0));
}

/// Reading `be_bytes(v, n)` back as a big-endian number gives `v`, for `v`
/// below `256^n`.
pub proof fn lemma_be_bytes_value(v: nat, n: nat)
    requires
        v < pow(256, n),
    ensures
        be_value(be_bytes(v, n)) == v,
    decreases n,
{
    if n == 0 {
        lemma_pow0(256);
        assert(v == 0);
    } else {
        let n1 = (n - 1) as nat;
        lemma_pow256_step(n1);
        let p = pow(256, n1);
        let q = v / 256;
        assert(q < p) by (nonlinear_arith)
            requires
                v < p * 256,
                q == v / 256,
                p > 0,
        ;
        lemma_be_bytes_value(q, n1);
        let s = be_bytes(v, n);
        assert forall|i: int| 0 <= i < n1 implies #[trigger] s.drop_last()[i] == be_bytes(q, n1)[i] by {
            let k = (n1 - 1 - i) as nat;
            lemma_pow256_step(k);
            lemma_pow_positive(256, k);
            lemma_div_denominator(v as int, 256, pow(256, k));
            assert(pow(256, k) * 256 == 256 * pow(256, k));
        }
        assert(s.drop_last() =~= be_bytes(q, n1));
        lemma_pow0(256);
        assert(s.last() == (v % 256) as u8);
        assert(q * 256 + v % 256 == v);
    }
}

/// `256^16` is `2^128`: every `u128` fits 16 bytes.
pub proof fn lemma_pow256_16()
    ensures
        pow(256, 16) == 0x1_0000_0000_0000_0000_0000_0000_0000_0000,
{
    lemma_pow0(256);
    lemma_pow256_step(0);
    lemma_pow256_step(1);
    lemma_pow256_step(2);
    lemma_pow256_step(3);
    assert(pow(256, 4) == 0x1_0000_0000);
    lemma_pow_adds(256, 4, 4);
    assert(pow(256, 8) == pow(256, 4) * pow(256, 4));
    assert(pow(256, 8) == 0x1_0000_0000_0000_0000);
    lemma_pow_adds(256, 8, 8);
    assert(pow(256, 16) == pow(256, 8) * pow(256, 8));
}

/// `n` big-endian bytes determine a number below `256^n`.
pub proof fn lemma_be_bytes_injective(v: nat, w: nat, n: nat)
    requires
        v < pow(256, n),
        w < pow(256, n),
        be_bytes(v, n) == be_bytes(w, n),
    ensures
        v == w,
{
    lemma_be_bytes_value(v, n);
    lemma_be_bytes_value(w, n);
}

} // verus!
