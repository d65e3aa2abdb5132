# stellar_mixer

A shielded-note mixer whose statements are proved inside the RISC Zero zkVM.
The library in `src/` is verified with Verus; `app/` holds the host program
(key generation, proving, printing, artifact export) and the transfer guest's
I/O.

- `bytes`: big- and little-endian integer encodings, byte-buffer helpers.
- `digest`: SHA-256 (`sha2`), named `sha256_digest` in contracts.
- `note`: notes and their leaf commitments.
- `merkle`: node hashing, empty-subtree roots, `compute_root`, and
  `build_sparse_tree` over a `BTreeMap` per level; the membership law
  (built paths lead back to the root) is proved here.
- `action`: the transfer and withdraw action digests that owners sign, with
  the laws that the transfer message determines its parts and that action,
  leaf and node messages are domain-separated.
- `signature`: RSASSA-PKCS1-v1_5/SHA-256 signing and verification (`rsa`,
  each result named), the host-signs/guest-accepts law,
  fixed-width big-endian encodings.
- `journal`: SCALE framing of the journals (`parity-scale-codec`).
- `transfer`: the transfer statement, its checks in order, and what an
  accepted transfer guarantees.
- `withdraw`: host-side preparation of a withdrawal.
- `image_id`: guest image IDs as bytes and hex.
