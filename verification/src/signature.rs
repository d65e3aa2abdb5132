//! RSASSA-PKCS1-v1_5 / SHA-256 signatures over action digests, and the
//! fixed-width big-endian encodings of RSA integers.
use crate::bytes::be_value;
use crate::merkle::TreeError;
use crate::note::RSA_MODULUS_BYTES;
use crate::transfer::TransferError;
use rsa::pkcs1v15::{Signature as RsaSignature, SigningKey, VerifyingKey};
use rsa::signature::{SignatureEncoding, Signer, Verifier};
use rsa::traits::PublicKeyParts;
use rsa::{BigUint, RsaPrivateKey, RsaPublicKey};
use sha2::Sha256;
use vstd::prelude::*;

verus! {

/// The public exponent of every owner key.
pub const RSA_E: u32 = 65537;

/// Bytes of a signature under an RSA-2048 key.
pub const SIGNATURE_BYTES: usize = 256;

/// An RSA public key, as the `rsa` crate holds it.
#[verifier::external_type_specification]
#[verifier::external_body]
pub struct ExRsaPublicKey(RsaPublicKey);

/// An RSA private key, as the `rsa` crate holds it.
#[verifier::external_type_specification]
#[verifier::external_body]
pub struct ExRsaPrivateKey(RsaPrivateKey);

/// What host-side preparation of an action can run into.
#[derive(Clone, Copy, Debug, PartialEq, Eq, Structural)]
pub enum SetupError {
    /// An integer does not fit the fixed width it must be written in.
    IntegerTooLarge,
    /// The key's public exponent is not 65537.
    UnexpectedExponent,
    /// The private key could not produce a signature.
    SigningFailed,
    /// The public key does not accept the signature just produced.
    SignatureRejected,
    /// The withdraw amount plus the change value does not fit 128 bits.
    AmountOverflow,
    /// The input values do not add up to the withdraw amount plus the change.
    ValueMismatch,
    /// The input leaves do not form a tree.
    Tree(TreeError),
}

/// RSASSA-PKCS1-v1_5 with SHA-256 (RFC 8017) accepts `signature` over
/// `message` under the public key with modulus `modulus` and public exponent
/// `exponent`, as the `rsa` crate decides it (with the key that
/// `RsaPublicKey::new` makes of the two integers).
pub uninterp spec fn pkcs1v15_sha256_accepts(
    modulus: nat,
    exponent: nat,
    message: Seq<u8>,
    signature: Seq<u8>,
) -> bool;

/// Calls `rsa::pkcs1v15::VerifyingKey::<Sha256>::verify` with the key built
/// by `RsaPublicKey::new` from the modulus and exponent (read by
/// `BigUint::from_bytes_be`), and the signature built by `Signature::try_from`
/// from its bytes. Trusted: the answer is `pkcs1v15_sha256_accepts` of the two
/// integers the key bytes encode, the message and the signature bytes, a
/// function of these alone; a key that `RsaPublicKey::new` refuses (even
/// modulus, exponent not below it) gives `false`.
#[verifier::external_body]
fn rsa_verify_pkcs1v15_sha256(
    modulus: &[u8],
    exponent: &[u8],
    message: &[u8],
    signature: &[u8],
) -> (accepted: bool)
    ensures
        accepted == pkcs1v15_sha256_accepts(
            be_value(modulus@),
            be_value(exponent@),
            message@,
            signature@,
        ),
{
    let key = match RsaPublicKey::new(BigUint::from_bytes_be(modulus), BigUint::from_bytes_be(exponent)) {
        Ok(key) => key,
        Err(_) => return false,
    };
    let signature = match RsaSignature::try_from(signature) {
        Ok(signature) => signature,
        Err(_) => return false,
    };
    VerifyingKey::<Sha256>::new(key).verify(message, &signature).is_ok()
}

/// The big-endian bytes of 65537.
pub open spec fn rsa_e_be_bytes() -> Seq<u8> {
    seq![1u8, 0u8, 1u8]
}

/// The big-endian bytes of 65537 encode 65537.
pub proof fn lemma_rsa_e_bytes_value()
    ensures
        be_value(rsa_e_be_bytes()) == RSA_E,
{
    let s = rsa_e_be_bytes();
    let s1 = s.drop_last();
    let s2 = s1.drop_last();
    let s3 = s2.drop_last();
    assert(s.len() == 3 && s.last() == 1u8);
    assert(s1.len() == 2 && s1.last() == 0u8);
    assert(s2.len() == 1 && s2.last() == 1u8);
    assert(s3.len() == 0);
    assert(be_value(s3) == 0);
    assert(be_value(s2) == 1);
    assert(be_value(s1) == 256);
    assert(be_value(s) == 65537);
}

/// The owner of the key with modulus bytes `owner_modulus` and exponent 65537
/// signed `action_hash` with `signature`.
pub open spec fn owner_signature_accepted(
    owner_modulus: Seq<u8>,
    action_hash: Seq<u8>,
    signature: Seq<u8>,
) -> bool {
    pkcs1v15_sha256_accepts(be_value(owner_modulus), RSA_E as nat, action_hash, signature)
}

/// Whether the owner of the key with modulus `owner_modulus` (exponent 65537)
/// signed `action_hash`: `Ok` exactly when the signature verifies, else
/// `InvalidSignature`.
pub fn verify_owner_signature(
    owner_modulus: [u8; RSA_MODULUS_BYTES],
    action_hash: &[u8; 32],
    signature_bytes: &[u8; SIGNATURE_BYTES],
) -> (res: Result<(), TransferError>)
    ensures
        res is Ok <==> owner_signature_accepted(owner_modulus@, action_hash@, signature_bytes@),
        res matches Err(e) ==> e == TransferError::InvalidSignature,
{
    let exponent: [u8; 3] = [1u8, 0u8, 1u8];
    proof {
        assert(exponent@ =~= rsa_e_be_bytes());
        lemma_rsa_e_bytes_value();
    }
    if rsa_verify_pkcs1v15_sha256(&owner_modulus, &exponent, action_hash, signature_bytes) {
        Ok(())
    } else {
        Err(TransferError::InvalidSignature)
    }
}

/// `bytes` written in exactly `n` bytes: zeros in front, then `bytes`.
pub open spec fn left_padded(bytes: Seq<u8>, n: nat) -> Seq<u8> {
    Seq::new((n - bytes.len()) as nat, |i: int| 0u8) + bytes
}

/// The big-endian integer `bytes` written in exactly `N` bytes, or
/// `IntegerTooLarge` when it has more than `N` bytes.
pub fn fixed_be_array<const N: usize>(bytes: &[u8]) -> (res: Result<[u8; N], SetupError>)
    ensures
        match res {
            Ok(out) => bytes@.len() <= N && out@ == left_padded(bytes@, N as nat),
            Err(e) => bytes@.len() > N && e == SetupError::IntegerTooLarge,
        },
{
    if bytes.len() > N {
        return Err(SetupError::IntegerTooLarge);
    }
    let mut out = [0u8; N];
    let start = N - bytes.len();
    let mut i: usize = 0;
    while i < bytes.len()
        invariant
            start + bytes@.len() == N,
            i <= bytes@.len(),
            forall|k: int| 0 <= k < start ==> out@[k] == 0u8,
            forall|k: int| 0 <= k < i ==> out@[start + k] == bytes@[k],
            out@.len() == N,
        decreases bytes@.len() - i,
    {
        out[start + i] = bytes[i];
        i = i + 1;
    }
    assert(out@ =~= left_padded(bytes@, N as nat));
    Ok(out)
}

/// Leading zero bytes do not change a big-endian integer: what
/// `fixed_be_array` returns encodes the integer it was given.
pub proof fn lemma_left_padding_keeps_value(bytes: Seq<u8>, n: nat)
    requires
        bytes.len() <= n,
    ensures
        be_value(left_padded(bytes, n)) == be_value(bytes),
    decreases n,
{
    let padded = left_padded(bytes, n);
    if n > 0 {
        if bytes.len() > 0 {
            assert(padded.drop_last() =~= left_padded(bytes.drop_last(), (n - 1) as nat));
            lemma_left_padding_keeps_value(bytes.drop_last(), (n - 1) as nat);
        } else {
            assert(padded.drop_last() =~= left_padded(bytes, (n - 1) as nat));
            lemma_left_padding_keeps_value(bytes, (n - 1) as nat);
        }
    } else {
        assert(padded =~= bytes);
    }
}

/// `bytes` is the minimal big-endian encoding of an unsigned integer: not
/// empty, and no leading zero byte unless it is the single byte of zero.
pub open spec fn minimal_be(bytes: Seq<u8>) -> bool {
    &&& bytes.len() > 0
    &&& (bytes.len() == 1 || bytes[0] != 0)
}

/// The big-endian bytes `BigUint::to_bytes_be` gives of `key`'s modulus.
pub uninterp spec fn rsa_key_modulus_be(key: RsaPublicKey) -> Seq<u8>;

/// The big-endian bytes `BigUint::to_bytes_be` gives of `key`'s public exponent.
pub uninterp spec fn rsa_key_exponent_be(key: RsaPublicKey) -> Seq<u8>;

/// Calls `PublicKeyParts::n` on `key` and `BigUint::to_bytes_be` on the
/// modulus. Trusted: the bytes are `rsa_key_modulus_be(key)`, a function of
/// the key alone, and a minimal big-endian encoding (`[0]` for zero, else no
/// leading zero byte), as `to_bytes_be` writes them.
#[verifier::external_body]
fn rsa_modulus_be_bytes(key: &RsaPublicKey) -> (bytes: Vec<u8>)
    ensures
        bytes@ == rsa_key_modulus_be(*key),
        minimal_be(bytes@),
{
    key.n().to_bytes_be()
}

/// Calls `PublicKeyParts::e` on `key` and `BigUint::to_bytes_be` on the
/// exponent. Trusted: the bytes are `rsa_key_exponent_be(key)`, a function of
/// the key alone, and a minimal big-endian encoding (`[0]` for zero, else no
/// leading zero byte), as `to_bytes_be` writes them.
#[verifier::external_body]
fn rsa_exponent_be_bytes(key: &RsaPublicKey) -> (bytes: Vec<u8>)
    ensures
        bytes@ == rsa_key_exponent_be(*key),
        minimal_be(bytes@),
{
    key.e().to_bytes_be()
}

/// What an owner key's exponent and modulus bytes give: `UnexpectedExponent`
/// unless the exponent is 65537, then `IntegerTooLarge` if the modulus has
/// more than 256 bytes, else the modulus left-padded to 256 bytes.
pub open spec fn owner_modulus_outcome(exponent_be: Seq<u8>, modulus_be: Seq<u8>) -> Result<
    Seq<u8>,
    SetupError,
> {
    if exponent_be != rsa_e_be_bytes() {
        Err(SetupError::UnexpectedExponent)
    } else if modulus_be.len() > RSA_MODULUS_BYTES {
        Err(SetupError::IntegerTooLarge)
    } else {
        Ok(left_padded(modulus_be, RSA_MODULUS_BYTES as nat))
    }
}

/// `res` is the outcome `outcome`, its bytes written as a 256-byte array.
pub open spec fn matches_outcome(
    res: Result<[u8; RSA_MODULUS_BYTES], SetupError>,
    outcome: Result<Seq<u8>, SetupError>,
) -> bool {
    match res {
        Ok(out) => outcome == Ok::<Seq<u8>, SetupError>(out@),
        Err(e) => outcome == Err::<Seq<u8>, SetupError>(e),
    }
}

/// An owner key's modulus in the 256-byte form notes carry, from the key's
/// exponent and modulus as minimal big-endian bytes: `UnexpectedExponent`
/// unless the exponent is 65537, then `IntegerTooLarge` if the modulus has
/// more than 256 bytes.
pub fn owner_modulus_from_parts(exponent_be: &[u8], modulus_be: &[u8]) -> (res: Result<
    [u8; RSA_MODULUS_BYTES],
    SetupError,
>)
    ensures
        exponent_be@ != rsa_e_be_bytes() ==> res == Err::<[u8; RSA_MODULUS_BYTES], SetupError>(
            SetupError::UnexpectedExponent,
        ),
        exponent_be@ == rsa_e_be_bytes() ==> match res {
            Ok(out) => modulus_be@.len() <= RSA_MODULUS_BYTES && out@ == left_padded(
                modulus_be@,
                RSA_MODULUS_BYTES as nat,
            ),
            Err(e) => modulus_be@.len() > RSA_MODULUS_BYTES && e == SetupError::IntegerTooLarge,
        },
        matches_outcome(res, owner_modulus_outcome(exponent_be@, modulus_be@)),
{
    let expected: [u8; 3] = [1u8, 0u8, 1u8];
    let mut same = exponent_be.len() == 3;
    let mut i: usize = 0;
    while same && i < 3
        invariant
            i <= 3,
            same ==> exponent_be@.len() == 3,
            same ==> forall|k: int| 0 <= k < i ==> exponent_be@[k] == expected@[k],
            !same ==> exponent_be@ != rsa_e_be_bytes(),
            expected@ == rsa_e_be_bytes(),
        decreases 3 - i,
    {
        if exponent_be[i] != expected[i] {
            same = false;
        }
        i = i + 1;
    }
    if !same {
        return Err(SetupError::UnexpectedExponent);
    }
    assert(exponent_be@ =~= rsa_e_be_bytes());
    fixed_be_array::<RSA_MODULUS_BYTES>(modulus_be)
}

/// The 256-byte owner modulus of `public_key`, whose exponent must be 65537:
/// the outcome of `owner_modulus_outcome` on the big-endian bytes of the
/// key's exponent and modulus.
pub fn owner_modulus(public_key: &RsaPublicKey) -> (res: Result<[u8; RSA_MODULUS_BYTES], SetupError>)
    ensures
        matches_outcome(
            res,
            owner_modulus_outcome(rsa_key_exponent_be(*public_key), rsa_key_modulus_be(*public_key)),
        ),
{
    let exponent_be = rsa_exponent_be_bytes(public_key);
    let modulus_be = rsa_modulus_be_bytes(public_key);
    owner_modulus_from_parts(exponent_be.as_slice(), modulus_be.as_slice())
}

/// The RSASSA-PKCS1-v1_5 / SHA-256 signature (RFC 8017) of `message` under
/// `key`, as big-endian bytes, or `None` where the `rsa` crate fails to sign.
/// Without blinding, signing is a function of the key and the message.
pub uninterp spec fn pkcs1v15_sha256_signature(key: RsaPrivateKey, message: Seq<u8>) -> Option<
    Seq<u8>,
>;

/// Calls `Signer::try_sign` of `rsa::pkcs1v15::SigningKey::<Sha256>` built
/// from a clone of `private_key`, then `SignatureEncoding::to_bytes`.
/// Trusted: the result is `pkcs1v15_sha256_signature(private_key, message)`;
/// `try_sign` uses no random number generator, so it depends on these alone.
#[verifier::external_body]
fn rsa_sign_pkcs1v15_sha256(private_key: &RsaPrivateKey, message: &[u8]) -> (signature: Option<
    Vec<u8>,
>)
    ensures
        match signature {
            Some(bytes) => pkcs1v15_sha256_signature(*private_key, message@) == Some(bytes@),
            None => pkcs1v15_sha256_signature(*private_key, message@) is None,
        },
{
    match SigningKey::<Sha256>::new(private_key.clone()).try_sign(message) {
        Ok(signature) => Some(signature.to_bytes().to_vec()),
        Err(_) => None,
    }
}

/// What signing an action gives: `SigningFailed` if the private key cannot
/// sign; then `SignatureRejected` unless the signature verifies under the
/// public key's own modulus and exponent; then `IntegerTooLarge` if it has
/// more than 256 bytes; else the signature left-padded to 256 bytes.
pub open spec fn sign_action_outcome(
    private_key: RsaPrivateKey,
    public_key: RsaPublicKey,
    action_hash: Seq<u8>,
) -> Result<Seq<u8>, SetupError> {
    match pkcs1v15_sha256_signature(private_key, action_hash) {
        None => Err(SetupError::SigningFailed),
        Some(signature) => if !pkcs1v15_sha256_accepts(
            be_value(rsa_key_modulus_be(public_key)),
            be_value(rsa_key_exponent_be(public_key)),
            action_hash,
            signature,
        ) {
            Err(SetupError::SignatureRejected)
        } else if signature.len() > SIGNATURE_BYTES {
            Err(SetupError::IntegerTooLarge)
        } else {
            Ok(left_padded(signature, SIGNATURE_BYTES as nat))
        },
    }
}

/// Signs `action_hash` with `private_key`, checks the signature against
/// `public_key` (its own modulus and exponent), and returns it as 256
/// big-endian bytes.
pub fn sign_action(
    private_key: &RsaPrivateKey,
    public_key: &RsaPublicKey,
    action_hash: &[u8; 32],
) -> (res: Result<[u8; SIGNATURE_BYTES], SetupError>)
    ensures
        matches_outcome(res, sign_action_outcome(*private_key, *public_key, action_hash@)),
{
    let signature = match rsa_sign_pkcs1v15_sha256(private_key, action_hash) {
        Some(signature) => signature,
        None => return Err(SetupError::SigningFailed),
    };
    let modulus_be = rsa_modulus_be_bytes(public_key);
    let exponent_be = rsa_exponent_be_bytes(public_key);
    if !rsa_verify_pkcs1v15_sha256(
        modulus_be.as_slice(),
        exponent_be.as_slice(),
        action_hash,
        signature.as_slice(),
    ) {
        return Err(SetupError::SignatureRejected);
    }
    fixed_be_array::<SIGNATURE_BYTES>(signature.as_slice())
}

/// What the host signs, the guest accepts: for a key pair whose public
/// exponent is 65537, whose modulus has at most 256 bytes and whose
/// signatures have 256 bytes, a signature that `sign_action` returns is one
/// that `verify_owner_signature` accepts over the same action under the key's
/// owner modulus.
pub proof fn lemma_signed_action_is_accepted(
    private_key: RsaPrivateKey,
    public_key: RsaPublicKey,
    action_hash: Seq<u8>,
    signature: Seq<u8>,
)
    requires
        sign_action_outcome(private_key, public_key, action_hash) == Ok::<Seq<u8>, SetupError>(
            signature,
        ),
        rsa_key_exponent_be(public_key) == rsa_e_be_bytes(),
        rsa_key_modulus_be(public_key).len() <= RSA_MODULUS_BYTES,
        pkcs1v15_sha256_signature(private_key, action_hash) matches Some(raw) && raw.len()
            == SIGNATURE_BYTES,
    ensures
        owner_modulus_outcome(rsa_key_exponent_be(public_key), rsa_key_modulus_be(public_key)) is Ok,
        owner_signature_accepted(
            owner_modulus_outcome(
                rsa_key_exponent_be(public_key),
                rsa_key_modulus_be(public_key),
            )->Ok_0,
            action_hash,
            signature,
        ),
        signature.len() == SIGNATURE_BYTES,
{
    let raw = pkcs1v15_sha256_signature(private_key, action_hash)->Some_0;
    let modulus = rsa_key_modulus_be(public_key);
    lemma_rsa_e_bytes_value();
    lemma_left_padding_keeps_value(modulus, RSA_MODULUS_BYTES as nat);
    assert(left_padded(raw, SIGNATURE_BYTES as nat) =~= raw);
}

} // verus!
