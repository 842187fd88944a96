# bcf

A verify-only library for the bilateral commitment format: multilaterally
signed claims in a deterministic-CBOR COSE envelope, hash-linked into
per-author chains, plus the evidence around them — signed receipts, Merkle
chain heads, and a witnessed-log client. Producing and signing artifacts is
the parties' job with their own keys; this crate only checks them.

The library is written in Verus. Every executable function carries a
contract over a mathematical model of its inputs (`Seq<u8>` for bytes, the
`Cbor` value space for decoded CBOR, ghost models of claims, heads and
checkpoints), and Verus proves the code against it.

## Layout

- `src/cbor.rs` — the deterministic CBOR profile: decoder, encoder and their
  models; `src/cbor_laws.rs` — round trip, unique encoding, error codes.
- `src/claim.rs`, `src/predicate.rs`, `src/envelope.rs`, `src/verify.rs` —
  single-artifact verification, checks V1–V9 in order.
- `src/sig.rs`, `src/hash.rs` — Ed25519 (`ed25519-dalek`), ES256K (`k256`)
  and SHA-256 (`sha2`), called through small trusted wrappers whose results
  are named functions of their inputs.
- `src/chain.rs`, `src/gap.rs` — chain verification (C1–C4) and holder-side
  gap detection.
- `src/cose1.rs`, `src/receipt.rs`, `src/head.rs`, `src/merkle.rs`,
  `src/log.rs` — single-signer messages: receipts, chain heads with RFC 6962
  Merkle trees and inclusion proofs, checkpoints, witness co-signatures,
  consistency proofs and equivocation detection.
- `app/` — the error type with `std::error::Error`, for callers.

Functions whose names start with `law_` are proof functions stating
properties of the library as a whole, for example that every RFC 6962 audit
path and consistency proof is accepted, that fork detection is symmetric,
and that an equivocation verdict comes with its evidence.
