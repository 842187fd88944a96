//! Bilateral commitment format: deterministic CBOR, the COSE envelope
//! verifier, chains, receipts, chain heads and the witnessed log client.
//!
//! Everything is offline and self-contained: verification needs only the
//! artifact bytes (public keys travel inline), no key directory and no
//! network. Like the parties' own tooling, this crate only verifies:
//! producing and signing artifacts is the parties' job with their own keys.

pub mod bytes;
pub mod cbor;
pub mod cbor_laws;
pub mod error;
pub mod hash;
pub mod sig;
pub mod merkle;
pub mod log;
pub mod predicate;
pub mod claim;
pub mod envelope;
pub mod verify;
pub mod cose1;
pub mod receipt;
pub mod head;
pub mod chain;
pub mod gap;

pub use chain::verify_chain;
pub use claim::{party_entry, Claim, Party};
pub use error::Error;
pub use gap::find_gaps;
pub use head::{detect_head_fork, verify_head, ForkVerdict, Head, HEAD_DOMAIN};
pub use log::{detect_log_equivocation, verify_checkpoint, verify_log_consistency, Checkpoint, CKPT_DOMAIN, COSIG_DOMAIN};
pub use merkle::{merkle_root, sorted_dedup, verify_inclusion};
pub use receipt::{verify_receipt, Receipt, RECEIPT_DOMAIN};
pub use sig::Alg;
pub use verify::{verify_bcf, Verified};
