//! The failure taxonomy: every variant maps one-to-one to an `E_*` code.
use vstd::prelude::*;

verus! {

/// A verification failure, identified by its normative `E_*` code.
#[derive(Debug, Clone, Copy, PartialEq, Eq, Structural)]
pub enum Error {
    /// Not well-formed CBOR for this profile, or wrong top-level shape (V1).
    Decode,
    /// Well-formed but not the deterministic encoding of its content (V1/V3).
    Noncanonical,
    /// COSE_Sign envelope content violates the profile (V2).
    Envelope,
    /// Claim map structure, key set, types, or field syntax wrong (V3).
    Structure,
    /// `claim.domain` does not equal the caller's `expected_domain` (V4).
    Domain,
    /// Party-entry set malformed: duplicate pub, bad alg/pub, unsorted,
    /// unknown key, or fewer than two parties (V5).
    Party,
    /// A party named in the claim has no corresponding signature (V6).
    SigMissing,
    /// A signature matches no party, or a party is signed for twice (V6).
    SigExtra,
    /// A signature's header `alg` disagrees with the party's claim `alg` (V7).
    Alg,
    /// A signature's protected/unprotected headers violate the profile (V7).
    Header,
    /// A signature fails to verify, or an ES256K signature is not low-s (V8).
    SigInvalid,
    /// Supplied payload does not hash to `claim.payload_hash` (V9).
    PayloadHash,
    /// A claim lists the same predecessor hash more than once.
    ChainStructure,
    /// No single genesis artifact matches `chain_id` (C2).
    ChainRoot,
    /// An input artifact is neither a chain member nor an import (C2).
    ChainUnreachable,
    /// A member's predecessor resolves to nothing and is not an accepted
    /// external reference (C3).
    ChainGap,
    /// One signer put their signature on two distinct claims that share a
    /// predecessor (C4).
    Equivocation,
    /// Receipt body malformed: wrong keys/types, or recipient/header mismatch (R2/R4).
    ReceiptStructure,
    /// Receipt `domain` is not the expected one (R3).
    ReceiptDomain,
    /// Receipt signature fails to verify under the recipient key (R5).
    ReceiptSig,
    /// Head body malformed: wrong keys/types, or publisher/header mismatch.
    HeadStructure,
    /// Head `domain` is not the expected one.
    HeadDomain,
    /// Head signature fails to verify under the publisher key.
    HeadSig,
    /// A Merkle inclusion proof does not recompute the committed root (P1-P3).
    HeadInclusion,
    /// Checkpoint body malformed: wrong keys/types, `tree_size` not a
    /// non-negative `u64`, or publisher/header mismatch (W1).
    CkptStructure,
    /// Checkpoint `domain` is not the expected one (W2).
    CkptDomain,
    /// Checkpoint signature fails to verify under the publisher key (W3).
    CkptSig,
    /// Fewer than `threshold` distinct, in-set, non-publisher witnesses
    /// co-signed this checkpoint's hash (W4).
    CkptWitness,
    /// A consistency proof does not bridge the old root to the new one, or a
    /// boundary case (shrunk or diverged log) makes them inconsistent.
    LogConsistency,
}

/// The normative `E_*` string of each failure.
pub open spec fn code_spec(e: Error) -> Seq<char> {
    match e {
        Error::Decode => "E_DECODE"@,
        Error::Noncanonical => "E_NONCANONICAL"@,
        Error::Envelope => "E_ENVELOPE"@,
        Error::Structure => "E_STRUCTURE"@,
        Error::Domain => "E_DOMAIN"@,
        Error::Party => "E_PARTY"@,
        Error::SigMissing => "E_SIG_MISSING"@,
        Error::SigExtra => "E_SIG_EXTRA"@,
        Error::Alg => "E_ALG"@,
        Error::Header => "E_HEADER"@,
        Error::SigInvalid => "E_SIG_INVALID"@,
        Error::PayloadHash => "E_PAYLOAD_HASH"@,
        Error::ChainStructure => "E_CHAIN_STRUCTURE"@,
        Error::ChainRoot => "E_CHAIN_ROOT"@,
        Error::ChainUnreachable => "E_CHAIN_UNREACHABLE"@,
        Error::ChainGap => "E_CHAIN_GAP"@,
        Error::Equivocation => "E_EQUIVOCATION"@,
        Error::ReceiptStructure => "E_RECEIPT_STRUCTURE"@,
        Error::ReceiptDomain => "E_RECEIPT_DOMAIN"@,
        Error::ReceiptSig => "E_RECEIPT_SIG"@,
        Error::HeadStructure => "E_HEAD_STRUCTURE"@,
        Error::HeadDomain => "E_HEAD_DOMAIN"@,
        Error::HeadSig => "E_HEAD_SIG"@,
        Error::HeadInclusion => "E_HEAD_INCLUSION"@,
        Error::CkptStructure => "E_CKPT_STRUCTURE"@,
        Error::CkptDomain => "E_CKPT_DOMAIN"@,
        Error::CkptSig => "E_CKPT_SIG"@,
        Error::CkptWitness => "E_CKPT_WITNESS"@,
        Error::LogConsistency => "E_LOG_CONSISTENCY"@,
    }
}

impl Error {
    /// The normative `E_*` string, as it appears in the conformance vectors.
    pub fn code(&self) -> (r: &'static str)
        ensures
            r@ == code_spec(*self),
    {
        match self {
            Error::Decode => "E_DECODE",
            Error::Noncanonical => "E_NONCANONICAL",
            Error::Envelope => "E_ENVELOPE",
            Error::Structure => "E_STRUCTURE",
            Error::Domain => "E_DOMAIN",
            Error::Party => "E_PARTY",
            Error::SigMissing => "E_SIG_MISSING",
            Error::SigExtra => "E_SIG_EXTRA",
            Error::Alg => "E_ALG",
            Error::Header => "E_HEADER",
            Error::SigInvalid => "E_SIG_INVALID",
            Error::PayloadHash => "E_PAYLOAD_HASH",
            Error::ChainStructure => "E_CHAIN_STRUCTURE",
            Error::ChainRoot => "E_CHAIN_ROOT",
            Error::ChainUnreachable => "E_CHAIN_UNREACHABLE",
            Error::ChainGap => "E_CHAIN_GAP",
            Error::Equivocation => "E_EQUIVOCATION",
            Error::ReceiptStructure => "E_RECEIPT_STRUCTURE",
            Error::ReceiptDomain => "E_RECEIPT_DOMAIN",
            Error::ReceiptSig => "E_RECEIPT_SIG",
            Error::HeadStructure => "E_HEAD_STRUCTURE",
            Error::HeadDomain => "E_HEAD_DOMAIN",
            Error::HeadSig => "E_HEAD_SIG",
            Error::HeadInclusion => "E_HEAD_INCLUSION",
            Error::CkptStructure => "E_CKPT_STRUCTURE",
            Error::CkptDomain => "E_CKPT_DOMAIN",
            Error::CkptSig => "E_CKPT_SIG",
            Error::CkptWitness => "E_CKPT_WITNESS",
            Error::LogConsistency => "E_LOG_CONSISTENCY",
        }
    }
}

} // verus!
