# voltaire

The cryptographic core of the Posada Voltaire voting protocol, verified with
Verus, and the falsification harness that exercises it.

## Layout

- `src/` — the verified library.
  - `group` — Ristretto points and scalars (by their discrete logs and values),
    Fiat-Shamir hashing, hex encodings, bounded discrete log.
  - `elgamal`, `dkg`, `threshold`, `interpolation` — exponential ElGamal,
    joint-Feldman key generation, threshold decryption with Chaum-Pedersen
    proofs, and the Lagrange interpolation identity behind it.
  - `validity` — Helios-style "exactly one choice" ballot proofs.
  - `board`, `tally`, `election` — the append-only bulletin board with its
    nullifier policies, the homomorphic tally, the public transcript and its
    independent verifier, and an election end to end.
  - `jcj`, `coercer` — blinded plaintext-equivalence tests and the coercer's
    nullifier-linkage analysis.
  - `zk` — Poseidon commitments, nullifiers and the membership Merkle tree.
  - `text`, `clock`, `algebra` — decimal text, wall-clock timing, modular
    arithmetic facts.
- `tests/` — unit, property and scenario tests.
- `app/` — the `harness` program (run as `verifier` it checks a transcript),
  the Groth16 membership circuit, the governance benchmark and the JSON form
  of the transcript.

## What is trusted

Group and scalar arithmetic come from `curve25519-dalek`, SHA-512 from `sha2`,
hex from `hex`, randomness from `rand`, and Poseidon from
`ark-crypto-primitives`, each behind a small `external_body` wrapper whose
contract states what the crate computes. The correctness of threshold
decryption is proved assuming that the group order `L` is prime
(`interpolation::scalar_field`), which is not itself proved here.
