//! Notes and their leaf commitments.
use crate::bytes::{append_be_bytes, append_bytes, be_bytes};
use crate::digest::{sha256, sha256_digest};
use vstd::prelude::*;
use vstd::string::StringSliceAdditionalSpecFns;

verus! {

/// Bytes of an RSA-2048 owner modulus, big-endian.
pub const RSA_MODULUS_BYTES: usize = 256;
/// Bytes of a nullifier.
pub const NULLIFIER_BYTES: usize = 32;
/// Bytes of a note secret.
pub const SECRET_BYTES: usize = 32;

/// Domain separator of note leaves.
pub const NOTE_LEAF_DOMAIN: &'static str = "stellar-mixer-note-leaf-v1";

/// A shielded note: a value owned by the holder of an RSA key.
#[derive(Clone, Copy)]
pub struct Note {
    pub value: u128,
    pub owner_modulus: [u8; RSA_MODULUS_BYTES],
    pub nullifier: [u8; NULLIFIER_BYTES],
    pub secret: [u8; SECRET_BYTES],
}

/// The bytes hashed into a note's leaf.
pub open spec fn note_leaf_message(note: Note) -> Seq<u8> {
    NOTE_LEAF_DOMAIN.spec_bytes() + be_bytes(note.value as nat, 16) + note.owner_modulus@
        + note.nullifier@ + note.secret@
}

/// A note's leaf commitment.
pub open spec fn note_leaf_spec(note: Note) -> Seq<u8> {
    sha256_digest(note_leaf_message(note))
}

/// The leaf commitment of `note`: SHA-256 over the domain separator, the value
/// (16 bytes big-endian), the owner modulus, the nullifier and the secret.
pub fn note_leaf(note: &Note) -> (leaf: [u8; 32])
    ensures
        leaf@ == note_leaf_spec(*note),
{
    let mut message: Vec<u8> = Vec::new();
    append_bytes(&mut message, NOTE_LEAF_DOMAIN.as_bytes());
    append_be_bytes(&mut message, note.value, 16);
    append_bytes(&mut message, &note.owner_modulus);
    append_bytes(&mut message, &note.nullifier);
    append_bytes(&mut message, &note.secret);
    sha256(message.as_slice())
}

} // verus!
