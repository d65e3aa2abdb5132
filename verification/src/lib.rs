//! A shielded-note mixer: note commitments, a depth-45 sparse Merkle tree over
//! them, the transfer statement checked inside the zkVM guest, and the byte
//! framings that are hashed, signed and committed to the journal.
use vstd::prelude::*;

pub mod action;
pub mod bytes;
pub mod digest;
pub mod image_id;
pub mod journal;
pub mod merkle;
pub mod note;
pub mod signature;
pub mod transfer;
pub mod withdraw;

verus! {

} // verus!
