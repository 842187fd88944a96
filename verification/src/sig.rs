//! Signature verification backends: Ed25519 (through `ed25519-dalek`) and
//! ES256K, ECDSA over secp256k1 with SHA-256 (through `k256`).
//!
//! The algorithm a verifier runs is always taken from the signed claim, never
//! asserted by the backend.
use crate::bytes::{to_array32, to_array64};
use crate::error::Error;
use k256::ecdsa::signature::Verifier;
use vstd::prelude::*;

verus! {

/// COSE algorithm identifiers used by the BCF profile.
#[derive(Debug, Clone, Copy, PartialEq, Eq, Structural)]
pub enum Alg {
    /// EdDSA over Ed25519, COSE alg `-8`.
    Eddsa,
    /// ECDSA over secp256k1 with SHA-256, COSE alg `-47`.
    Es256k,
}

pub open spec fn alg_from_cose(id: int) -> Option<Alg> {
    if id == -8 {
        Some(Alg::Eddsa)
    } else if id == -47 {
        Some(Alg::Es256k)
    } else {
        None
    }
}

pub open spec fn cose_id_spec(alg: Alg) -> int {
    match alg {
        Alg::Eddsa => -8,
        Alg::Es256k => -47,
    }
}

pub open spec fn pubkey_len_spec(alg: Alg) -> nat {
    match alg {
        Alg::Eddsa => 32,
        Alg::Es256k => 33,
    }
}

impl Alg {
    /// Map a COSE algorithm id to a supported algorithm, if any.
    pub fn from_cose(id: i128) -> (r: Option<Alg>)
        ensures
            r == alg_from_cose(id as int),
    {
        if id == -8 {
            Some(Alg::Eddsa)
        } else if id == -47 {
            Some(Alg::Es256k)
        } else {
            None
        }
    }

    /// The COSE algorithm id.
    pub fn cose_id(self) -> (r: i128)
        ensures
            r as int == cose_id_spec(self),
    {
        match self {
            Alg::Eddsa => -8,
            Alg::Es256k => -47,
        }
    }

    /// The public-key length this algorithm requires, in bytes: a raw
    /// Ed25519 key is 32 bytes, a SEC1-compressed secp256k1 key is 33.
    pub fn pubkey_len(self) -> (r: usize)
        ensures
            r as nat == pubkey_len_spec(self),
    {
        match self {
            Alg::Eddsa => 32,
            Alg::Es256k => 33,
        }
    }
}

/// Whether `ed25519-dalek` accepts `signature` over `message` under `pubkey`
/// with `VerifyingKey::verify_strict` (the key must decompress; small-order
/// keys and non-canonical `R` are rejected).
pub uninterp spec fn ed25519_strict_accepts(pubkey: Seq<u8>, message: Seq<u8>, signature: Seq<u8>) -> bool;

/// Whether the 64-byte `signature` parses as a `k256` ECDSA signature, and if
/// so whether `Signature::normalize_s` would change it (it is high-s).
pub uninterp spec fn es256k_high_s(signature: Seq<u8>) -> Option<bool>;

/// Whether `k256` accepts `signature` over `message` under the SEC1 `pubkey`
/// (key and signature parse, and ECDSA/SHA-256 verification succeeds).
pub uninterp spec fn es256k_accepts(pubkey: Seq<u8>, message: Seq<u8>, signature: Seq<u8>) -> bool;

/// `ed25519_dalek::VerifyingKey::from_bytes` then `verify_strict`. The
/// result is the named function of the three byte strings; nothing more is
/// claimed of it.
#[verifier::external_body]
fn ed25519_verify_strict(pubkey: &[u8; 32], message: &[u8], signature: &[u8; 64]) -> (ok: bool)
    ensures
        ok == ed25519_strict_accepts(pubkey@, message@, signature@),
{
    match ed25519_dalek::VerifyingKey::from_bytes(pubkey) {
        Ok(key) => key.verify_strict(message, &ed25519_dalek::Signature::from_bytes(signature)).is_ok(),
        Err(_) => false,
    }
}

/// `k256::ecdsa::Signature::from_slice` then `normalize_s`: `None` when the
/// bytes do not parse (which `from_slice` does unless there are exactly 64),
/// else whether the signature is in the high-s form.
#[verifier::external_body]
fn es256k_signature_high_s(signature: &[u8]) -> (r: Option<bool>)
    ensures
        r == es256k_high_s(signature@),
        r is Some ==> signature@.len() == 64,
{
    k256::ecdsa::Signature::from_slice(signature).ok().map(|sig| sig.normalize_s().is_some())
}

/// `k256::ecdsa::VerifyingKey::from_sec1_bytes`, `Signature::from_slice`,
/// then `Verifier::verify`: the named acceptance of the three byte strings.
#[verifier::external_body]
fn es256k_verify(pubkey: &[u8], message: &[u8], signature: &[u8]) -> (ok: bool)
    ensures
        ok == es256k_accepts(pubkey@, message@, signature@),
{
    match (
        k256::ecdsa::VerifyingKey::from_sec1_bytes(pubkey),
        k256::ecdsa::Signature::from_slice(signature),
    ) {
        (Ok(key), Ok(sig)) => key.verify(message, &sig).is_ok(),
        _ => false,
    }
}

/// Whether [`verify`] accepts: Ed25519 needs a 32-byte key and a 64-byte
/// signature that verify strictly; ES256K needs a signature in the low-s form
/// that verifies.
pub open spec fn verify_spec(alg: Alg, pubkey: Seq<u8>, message: Seq<u8>, signature: Seq<u8>) -> bool {
    match alg {
        Alg::Eddsa => pubkey.len() == 32 && signature.len() == 64 && ed25519_strict_accepts(
            pubkey,
            message,
            signature,
        ),
        Alg::Es256k => es256k_high_s(signature) == Some(false) && es256k_accepts(
            pubkey,
            message,
            signature,
        ),
    }
}

/// Verify `signature` over `message` under `pubkey` for the given algorithm.
///
/// For ES256K the signature must be low-s: a high-s signature is a second,
/// malleable encoding of the same logical signature and is rejected as
/// `E_SIG_INVALID`.
pub fn verify(alg: Alg, pubkey: &[u8], message: &[u8], signature: &[u8]) -> (r: Result<(), Error>)
    ensures
        r is Ok <==> verify_spec(alg, pubkey@, message@, signature@),
        r is Err ==> r == Err::<(), Error>(Error::SigInvalid),
{
    match alg {
        Alg::Eddsa => verify_ed25519(pubkey, message, signature),
        Alg::Es256k => verify_es256k(pubkey, message, signature),
    }
}

fn verify_ed25519(pubkey: &[u8], message: &[u8], signature: &[u8]) -> (r: Result<(), Error>)
    ensures
        r is Ok <==> verify_spec(Alg::Eddsa, pubkey@, message@, signature@),
        r is Err ==> r == Err::<(), Error>(Error::SigInvalid),
{
    if pubkey.len() != 32 {
        return Err(Error::SigInvalid);
    }
    let key_bytes = to_array32(pubkey);
    if signature.len() != 64 {
        return Err(Error::SigInvalid);
    }
    let sig_bytes = to_array64(signature);
    // verify_strict rejects small-order keys and non-canonical R components.
    if ed25519_verify_strict(&key_bytes, message, &sig_bytes) {
        Ok(())
    } else {
        Err(Error::SigInvalid)
    }
}

fn verify_es256k(pubkey: &[u8], message: &[u8], signature: &[u8]) -> (r: Result<(), Error>)
    ensures
        r is Ok <==> verify_spec(Alg::Es256k, pubkey@, message@, signature@),
        r is Err ==> r == Err::<(), Error>(Error::SigInvalid),
{
    // Low-s is mandatory: a signature that normalize_s would change is the
    // malleable high-s form, and is rejected.
    match es256k_signature_high_s(signature) {
        None => Err(Error::SigInvalid),
        Some(true) => Err(Error::SigInvalid),
        Some(false) => {
            if es256k_verify(pubkey, message, signature) {
                Ok(())
            } else {
                Err(Error::SigInvalid)
            }
        },
    }
}

} // verus!
