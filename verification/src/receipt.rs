//! Signed receipts: a single-signer COSE_Sign1 acknowledgement that a party
//! held a given artifact, bound to it by content (`artifact_hash`), never by
//! `prev`. Verification is the R1–R5 procedure; the evidence is asymmetric:
//! a presented receipt is non-repudiable, an absent one proves nothing.
use crate::bytes::{bytes_eq, text_eq};
use crate::cbor::{decode_canonical, decode_canonical_spec};
use crate::chain::{lemma_artifacts_from, verify_chain_spec};
use crate::claim::{party_entry, party_entry_spec, Party, PartyModel};
use crate::cose1::{self, alg_kid_spec, body_spec, kind_ok, lemma_bodies_agree, lemma_body_spec, signature_ok_spec, FieldKind};
use crate::head::{head_kinds, verify_head_spec};
use crate::log::{ckpt_kinds, cosig_kinds, counting_witness_spec, verify_checkpoint_spec, COSIG_DOMAIN};
use crate::error::Error;
use crate::hash::{sha256, sha256_spec};
use crate::sig::cose_id_spec;
use crate::verify::{verify_bcf_spec, VerifiedModel};
use vstd::prelude::*;

verus! {

/// The expected receipt domain separator.
pub const RECEIPT_DOMAIN: &'static str = "BCF-RECEIPT/1";

/// A verified receipt.
#[derive(Debug, Clone, PartialEq, Eq)]
pub struct Receipt {
    /// `claim_hash` of the acknowledged artifact.
    pub artifact_hash: [u8; 32],
    /// The single signer.
    pub recipient: Party,
    /// The recipient's asserted receipt time (POSIX seconds).
    pub received_at: i128,
}

/// The content of a verified receipt.
pub ghost struct ReceiptModel {
    pub artifact_hash: Seq<u8>,
    pub recipient: PartyModel,
    pub received_at: int,
}

impl View for Receipt {
    type V = ReceiptModel;

    open spec fn view(&self) -> ReceiptModel {
        ReceiptModel {
            artifact_hash: self.artifact_hash@,
            recipient: self.recipient@,
            received_at: self.received_at as int,
        }
    }
}

/// The receipt body: {1: domain, 2: artifact_hash, 3: recipient, 4: received_at}.
pub open spec fn receipt_kinds() -> Seq<FieldKind> {
    seq![FieldKind::Text, FieldKind::Bytes32, FieldKind::Any, FieldKind::Int]
}

/// What [`verify_receipt`] returns: R1 the COSE_Sign1 envelope, R2 a body
/// of exactly keys {1..4} of the right types, R3 the domain, R4 a
/// well-formed recipient bound by the header's alg and kid
/// (`kid = SHA-256(pub)`), R5 the recipient's signature; the first failure.
pub open spec fn verify_receipt_spec(bytes: Seq<u8>, expected_domain: Seq<char>) -> Result<
    ReceiptModel,
    Error,
> {
    match cose1::parse_spec(bytes) {
        Err(e) => Err(e),  // R1
        Ok(s) => match decode_canonical_spec(s.payload) {
            Err(_) => Err(Error::ReceiptStructure),  // R2: not a deterministic-CBOR body
            Ok(body) => match body_spec(body, receipt_kinds(), Error::ReceiptStructure) {
                Err(e) => Err(e),
                Ok(f) => if f[0] is None || f[1] is None || f[2] is None || f[3] is None {
                    Err(Error::ReceiptStructure)
                } else if f[0]->0->Text_0 != expected_domain {
                    Err(Error::ReceiptDomain)  // R3
                } else {
                    match party_entry_spec(f[2]->0) {
                        Err(_) => Err(Error::ReceiptStructure),  // R4
                        Ok(p) => match alg_kid_spec(s.protected, Error::ReceiptStructure) {
                            Err(e) => Err(e),
                            Ok((alg, kid)) => if alg != cose_id_spec(p.alg) || kid != sha256_spec(
                                p.pubkey,
                            ) {
                                Err(Error::ReceiptStructure)
                            } else if !signature_ok_spec(s, p.alg, p.pubkey) {
                                Err(Error::ReceiptSig)  // R5
                            } else {
                                Ok(
                                    ReceiptModel {
                                        artifact_hash: f[1]->0->Bytes_0,
                                        recipient: p,
                                        received_at: f[3]->0->Int_0,
                                    },
                                )
                            },
                        },
                    }
                },
            },
        },
    }
}

/// Verify a receipt against `expected_domain` (`"BCF-RECEIPT/1"`), running
/// R1–R5 in order. Returns the receipt or the first failure.
pub fn verify_receipt(bytes: &[u8], expected_domain: &str) -> (r: Result<Receipt, Error>)
    ensures
        r matches Ok(x) ==> verify_receipt_spec(bytes@, expected_domain@) == Ok::<
            ReceiptModel,
            Error,
        >(x@),
        r matches Err(e) ==> verify_receipt_spec(bytes@, expected_domain@) == Err::<
            ReceiptModel,
            Error,
        >(e),
{
    // R1 — COSE_Sign1 envelope, deterministic CBOR, tag 18, unprotected empty.
    let sign1 = cose1::parse(bytes)?;

    // R2 — body is a deterministic-CBOR map with exactly keys {1,2,3,4}.
    let body = match decode_canonical(sign1.payload.as_slice()) {
        Ok(b) => b,
        Err(_) => return Err(Error::ReceiptStructure),
    };
    let kinds = [FieldKind::Text, FieldKind::Bytes32, FieldKind::Any, FieldKind::Int];
    assert(kinds@ =~= receipt_kinds());
    proof {
        lemma_body_spec(body@, receipt_kinds(), Error::ReceiptStructure);
    }
    let fields = cose1::read_body(&body, kinds.as_slice(), Error::ReceiptStructure)?;
    let domain = match fields[0] {
        Some(v) => cose1::text_of(v),
        None => return Err(Error::ReceiptStructure),
    };
    let artifact_hash = match fields[1] {
        Some(v) => cose1::bytes32_of(v),
        None => return Err(Error::ReceiptStructure),
    };
    let recipient_value = match fields[2] {
        Some(v) => v,
        None => return Err(Error::ReceiptStructure),
    };
    let received_at = match fields[3] {
        Some(v) => cose1::int_of(v),
        None => return Err(Error::ReceiptStructure),
    };

    // R3 — domain separator.
    if !text_eq(domain.as_str(), expected_domain) {
        return Err(Error::ReceiptDomain);
    }

    // R4 — recipient well-formed (a single party entry); header alg/kid bind.
    let recipient = match party_entry(recipient_value) {
        Ok(p) => p,
        Err(_) => return Err(Error::ReceiptStructure),
    };
    let (alg_id, kid) = cose1::protected_alg_kid(&sign1, Error::ReceiptStructure)?;
    let key_id = sha256(recipient.pubkey.as_slice());
    if alg_id != recipient.alg.cose_id() || !bytes_eq(kid.as_slice(), key_id.as_slice()) {
        return Err(Error::ReceiptStructure);
    }

    // R5 — signature verifies under the recipient key (ES256K low-s enforced).
    if !cose1::signature_ok(&sign1, recipient.alg, recipient.pubkey.as_slice()) {
        return Err(Error::ReceiptSig);
    }
    Ok(Receipt { artifact_hash, recipient, received_at })
}

/// A receipt is never a BCF artifact: bytes that verify as a receipt are
/// refused by artifact verification (a single-signer tag-18 message is not
/// a tag-98 envelope), so no chain ever admits one.
pub proof fn law_receipt_not_artifact(
    bytes: Seq<u8>,
    receipt_domain: Seq<char>,
    artifact_domain: Seq<char>,
    payload: Option<Seq<u8>>,
)
    requires
        verify_receipt_spec(bytes, receipt_domain) is Ok,
    ensures
        verify_bcf_spec(bytes, artifact_domain, payload) == Err::<VerifiedModel, Error>(Error::Decode),
{
}

/// A receipt presented among chain inputs makes chain verification fail:
/// a receipt is never a chain member.
pub proof fn law_receipt_never_chain_member(
    envelopes: Seq<Seq<u8>>,
    i: int,
    receipt_domain: Seq<char>,
    chain_id: Seq<u8>,
    expected_domain: Seq<char>,
    external_refs: Seq<Seq<u8>>,
)
    requires
        0 <= i < envelopes.len(),
        verify_receipt_spec(envelopes[i], receipt_domain) is Ok,
    ensures
        verify_chain_spec(envelopes, chain_id, expected_domain, external_refs) is Err,
{
    lemma_artifacts_from(envelopes, expected_domain, 0, Seq::empty());
    law_receipt_not_artifact(envelopes[i], receipt_domain, expected_domain, None);
}

/// Single-signer messages of different kinds are never confused: bytes
/// that verify as a receipt are refused as a chain head, as a checkpoint
/// and as a witness co-signature, and bytes that verify as a chain head are
/// refused as a checkpoint.
pub proof fn law_signed_kinds_disjoint(
    bytes: Seq<u8>,
    head_domain: Seq<char>,
    ckpt_domain: Seq<char>,
    cosigs: Seq<Seq<u8>>,
    witness_set: Seq<Seq<u8>>,
    threshold: nat,
    checkpoint_hash: Seq<u8>,
    publisher_pub: Seq<u8>,
)
    ensures
        verify_receipt_spec(bytes, RECEIPT_DOMAIN@) is Ok ==> verify_head_spec(bytes, head_domain) is Err,
        verify_receipt_spec(bytes, RECEIPT_DOMAIN@) is Ok ==> verify_checkpoint_spec(
            bytes,
            ckpt_domain,
            cosigs,
            witness_set,
            threshold,
        ) is Err,
        verify_receipt_spec(bytes, RECEIPT_DOMAIN@) is Ok ==> counting_witness_spec(
            bytes,
            checkpoint_hash,
            witness_set,
            publisher_pub,
        ) is None,
        verify_head_spec(bytes, head_domain) is Ok ==> verify_checkpoint_spec(
            bytes,
            ckpt_domain,
            cosigs,
            witness_set,
            threshold,
        ) is Err,
{
    reveal(counting_witness_spec);
    if let Ok(s) = cose1::parse_spec(bytes) {
        if let Ok(body) = decode_canonical_spec(s.payload) {
            let rk = receipt_kinds();
            let hk = head_kinds();
            let ck = ckpt_kinds();
            lemma_body_spec(body, rk, Error::ReceiptStructure);
            lemma_body_spec(body, hk, Error::HeadStructure);
            lemma_body_spec(body, ck, Error::CkptStructure);
            lemma_body_spec(body, cosig_kinds(), Error::CkptWitness);
            if body_spec(body, rk, Error::ReceiptStructure) is Ok {
                if body_spec(body, hk, Error::HeadStructure) is Ok {
                    lemma_bodies_agree(body, rk, hk, Error::ReceiptStructure, Error::HeadStructure);
                    assert(body_spec(body, hk, Error::HeadStructure)->Ok_0[5] is None);
                }
                if body_spec(body, ck, Error::CkptStructure) is Ok {
                    lemma_bodies_agree(body, rk, ck, Error::ReceiptStructure, Error::CkptStructure);
                    assert(body_spec(body, ck, Error::CkptStructure)->Ok_0[5] is None);
                }
                assert(cosig_kinds() =~= rk);
                if body_spec(body, rk, Error::CkptWitness) is Ok {
                    lemma_bodies_agree(body, rk, rk, Error::ReceiptStructure, Error::CkptWitness);
                    reveal_strlit("BCF-RECEIPT/1");
                    reveal_strlit("BCF-COSIG/1");
                    assert(RECEIPT_DOMAIN@ != COSIG_DOMAIN@) by {
                        assert(RECEIPT_DOMAIN@.len() != COSIG_DOMAIN@.len());
                    }
                    let f = body_spec(body, rk, Error::ReceiptStructure)->Ok_0;
                    let g = body_spec(body, rk, Error::CkptWitness)->Ok_0;
                    assert(f[0] == g[0]);
                }
            }
            if body_spec(body, hk, Error::HeadStructure) is Ok && body_spec(body, ck, Error::CkptStructure) is Ok {
                lemma_bodies_agree(body, ck, hk, Error::CkptStructure, Error::HeadStructure);
                let fh = body_spec(body, hk, Error::HeadStructure)->Ok_0;
                assert(fh[2] matches Some(v) ==> kind_ok(ck[2], v));
                assert(fh[2] matches Some(v) ==> kind_ok(hk[2], v));
            }
        }
    }
}

} // verus!
