//! Proofs and envelopes.

use fuse_core::attestation::{BackendVerdict, ComplianceProof, VerifyError};
use fuse_core::compliance::{ComplianceResult, ComplianceSpec};
use fuse_core::envelope::{Assessment, EnvelopeError, VerifiableComplianceEnvelope};

const NOW: i64 = 1_767_225_600;
const YEAR: i64 = 365 * 86_400;

const VERDICTS: [BackendVerdict; 4] = [
    BackendVerdict::NotConsulted,
    BackendVerdict::Accepted,
    BackendVerdict::Rejected,
    BackendVerdict::IdentityMismatch,
];

fn spec_expiring(expiry: i64) -> ComplianceSpec {
    ComplianceSpec::new(
        "Test claim".to_string(),
        "abc123".to_string(),
        Vec::new(),
        "US".to_string(),
        "1.0".to_string(),
        expiry,
    )
}

fn envelope(expiry: i64, result: ComplianceResult, proof_bytes: Vec<u8>) -> VerifiableComplianceEnvelope {
    let spec = spec_expiring(expiry);
    let proof = ComplianceProof::new(spec.hash(), result, proof_bytes);
    VerifiableComplianceEnvelope::new(spec, proof)
}

#[test]
fn a_placeholder_verifies_whatever_is_asked_of_it() {
    let proof = ComplianceProof::new("abc".to_string(), ComplianceResult::Pass, Vec::new());
    assert!(proof.is_placeholder());
    for verdict in VERDICTS {
        assert_eq!(proof.verify("abc", verdict), Ok(()));
        assert_eq!(proof.verify("other", verdict), Ok(()));
    }
}

#[test]
fn a_placeholder_and_an_attested_proof_can_be_told_apart() {
    let spec = spec_expiring(NOW + YEAR);
    let placeholder = ComplianceProof::new(spec.hash(), ComplianceResult::Pass, Vec::new());
    let attested = ComplianceProof::new(spec.hash(), ComplianceResult::Pass, vec![1, 2, 3]);
    assert_eq!(placeholder.verify(&spec.hash(), BackendVerdict::Accepted), Ok(()));
    assert_eq!(attested.verify(&spec.hash(), BackendVerdict::Accepted), Ok(()));
    assert!(placeholder.is_placeholder());
    assert!(!attested.is_placeholder());
    let a = VerifiableComplianceEnvelope::new(spec.clone(), placeholder);
    let b = VerifiableComplianceEnvelope::new(spec, attested);
    assert_eq!(a.is_compliant(NOW, BackendVerdict::Accepted), Ok(true));
    assert_eq!(b.is_compliant(NOW, BackendVerdict::Accepted), Ok(true));
    assert_eq!(a.assess(NOW, BackendVerdict::Accepted), Assessment::Unattested(ComplianceResult::Pass));
    assert_eq!(b.assess(NOW, BackendVerdict::Accepted), Assessment::AttestedPass);
}

#[test]
fn an_attested_proof_needs_the_backend() {
    let proof = ComplianceProof::new("abc".to_string(), ComplianceResult::Fail, vec![0]);
    assert!(!proof.is_placeholder());
    assert_eq!(proof.verify("abc", BackendVerdict::Accepted), Ok(()));
    assert_eq!(proof.verify("abc", BackendVerdict::Rejected), Err(VerifyError::ProofRejected));
    assert_eq!(proof.verify("abc", BackendVerdict::IdentityMismatch), Err(VerifyError::ExecutorMismatch));
    assert_eq!(proof.verify("abc", BackendVerdict::NotConsulted), Err(VerifyError::BackendNotConsulted));
}

#[test]
fn an_attested_proof_about_another_spec_does_not_verify() {
    let proof = ComplianceProof::new("abc".to_string(), ComplianceResult::Pass, vec![0]);
    for verdict in VERDICTS {
        assert_eq!(proof.verify("abd", verdict), Err(VerifyError::SpecHashMismatch));
        assert_eq!(proof.verify("", verdict), Err(VerifyError::SpecHashMismatch));
        assert_eq!(proof.verify("ABC", verdict), Err(VerifyError::SpecHashMismatch));
    }
}

#[test]
fn a_proof_holds_what_it_was_made_of() {
    let proof = ComplianceProof::new("abc".to_string(), ComplianceResult::Fail, vec![7, 8]);
    assert_eq!(proof.spec_hash, "abc");
    assert_eq!(proof.result, ComplianceResult::Fail);
    assert_eq!(proof.proof_bytes, vec![7, 8]);
}

#[test]
fn a_placeholder_envelope_that_passes_is_compliant() {
    let e = envelope(NOW + YEAR, ComplianceResult::Pass, Vec::new());
    assert_eq!(e.verify(NOW, BackendVerdict::NotConsulted), Ok(()));
    assert_eq!(e.is_compliant(NOW, BackendVerdict::NotConsulted), Ok(true));
}

#[test]
fn a_result_of_fail_is_no_error() {
    let e = envelope(NOW + YEAR, ComplianceResult::Fail, Vec::new());
    assert_eq!(e.verify(NOW, BackendVerdict::NotConsulted), Ok(()));
    assert_eq!(e.is_compliant(NOW, BackendVerdict::NotConsulted), Ok(false));
    let e = envelope(NOW + YEAR, ComplianceResult::Fail, vec![1]);
    assert_eq!(e.is_compliant(NOW, BackendVerdict::Accepted), Ok(false));
    assert_eq!(e.assess(NOW, BackendVerdict::Accepted), Assessment::AttestedFail);
}

#[test]
fn an_expired_spec_is_an_expiry_error_whatever_the_proof() {
    for proof_bytes in [Vec::new(), vec![1u8]] {
        for result in [ComplianceResult::Pass, ComplianceResult::Fail] {
            for verdict in VERDICTS {
                let e = envelope(NOW - 1, result, proof_bytes.clone());
                assert_eq!(e.verify(NOW, verdict), Err(EnvelopeError::Expired));
                assert_eq!(e.is_compliant(NOW, verdict), Err(EnvelopeError::Expired));
                assert_eq!(e.assess(NOW, verdict), Assessment::Untrusted(EnvelopeError::Expired));
            }
        }
    }
}

#[test]
fn a_spec_is_valid_through_its_last_second() {
    let e = envelope(NOW, ComplianceResult::Pass, Vec::new());
    assert_eq!(e.verify(NOW, BackendVerdict::NotConsulted), Ok(()));
    assert_eq!(e.verify(NOW + 1, BackendVerdict::NotConsulted), Err(EnvelopeError::Expired));
}

#[test]
fn a_proof_about_another_spec_is_a_binding_error() {
    let spec = spec_expiring(NOW + YEAR);
    let other = ComplianceSpec::new(
        "Another claim".to_string(),
        "abc123".to_string(),
        Vec::new(),
        "US".to_string(),
        "1.0".to_string(),
        NOW + YEAR,
    );
    for proof_bytes in [Vec::new(), vec![1u8]] {
        for verdict in VERDICTS {
            let proof = ComplianceProof::new(other.hash(), ComplianceResult::Pass, proof_bytes.clone());
            assert!(proof_bytes.len() > 0 || proof.verify(&other.hash(), verdict).is_ok());
            let e = VerifiableComplianceEnvelope::new(spec.clone(), proof);
            assert_eq!(e.verify(NOW, verdict), Err(EnvelopeError::BindingMismatch));
            assert_eq!(e.is_compliant(NOW, verdict), Err(EnvelopeError::BindingMismatch));
            assert_eq!(e.assess(NOW, verdict), Assessment::Untrusted(EnvelopeError::BindingMismatch));
        }
    }
}

#[test]
fn the_binding_is_checked_before_the_expiry() {
    let spec = spec_expiring(NOW - 1);
    let proof = ComplianceProof::new("not the hash".to_string(), ComplianceResult::Pass, Vec::new());
    let e = VerifiableComplianceEnvelope::new(spec, proof);
    assert_eq!(e.verify(NOW, BackendVerdict::Accepted), Err(EnvelopeError::BindingMismatch));
}

#[test]
fn a_changed_spec_breaks_the_binding() {
    let mut e = envelope(NOW + YEAR, ComplianceResult::Pass, vec![1]);
    assert_eq!(e.verify(NOW, BackendVerdict::Accepted), Ok(()));
    e.spec.claim = "Test claim, amended".to_string();
    assert_eq!(e.verify(NOW, BackendVerdict::Accepted), Err(EnvelopeError::BindingMismatch));
}

#[test]
fn changed_metadata_keeps_the_binding() {
    let mut e = envelope(NOW + YEAR, ComplianceResult::Pass, vec![1]);
    e.spec.metadata.push(("note".to_string(), "reviewed".to_string()));
    e.spec.disclosed_fields = Some(vec!["claim".to_string()]);
    assert_eq!(e.verify(NOW, BackendVerdict::Accepted), Ok(()));
}

#[test]
fn an_attested_envelope_hands_on_the_error_of_its_proof() {
    let e = envelope(NOW + YEAR, ComplianceResult::Pass, vec![1]);
    assert_eq!(e.verify(NOW, BackendVerdict::Accepted), Ok(()));
    assert_eq!(
        e.verify(NOW, BackendVerdict::Rejected),
        Err(EnvelopeError::Proof(VerifyError::ProofRejected))
    );
    assert_eq!(
        e.verify(NOW, BackendVerdict::IdentityMismatch),
        Err(EnvelopeError::Proof(VerifyError::ExecutorMismatch))
    );
    assert_eq!(
        e.is_compliant(NOW, BackendVerdict::NotConsulted),
        Err(EnvelopeError::Proof(VerifyError::BackendNotConsulted))
    );
    assert_eq!(
        e.assess(NOW, BackendVerdict::Rejected),
        Assessment::Untrusted(EnvelopeError::Proof(VerifyError::ProofRejected))
    );
}

#[test]
fn the_three_outcomes_can_be_told_apart() {
    let pass = envelope(NOW + YEAR, ComplianceResult::Pass, vec![1]).assess(NOW, BackendVerdict::Accepted);
    let fail = envelope(NOW + YEAR, ComplianceResult::Fail, vec![1]).assess(NOW, BackendVerdict::Accepted);
    let none = envelope(NOW + YEAR, ComplianceResult::Pass, vec![1]).assess(NOW, BackendVerdict::Rejected);
    let claim = envelope(NOW + YEAR, ComplianceResult::Pass, Vec::new()).assess(NOW, BackendVerdict::Accepted);
    assert_eq!(pass, Assessment::AttestedPass);
    assert_eq!(fail, Assessment::AttestedFail);
    assert!(matches!(none, Assessment::Untrusted(_)));
    assert_eq!(claim, Assessment::Unattested(ComplianceResult::Pass));
    assert_ne!(pass, fail);
    assert_ne!(pass, none);
    assert_ne!(pass, claim);
    assert_ne!(fail, none);
}

#[test]
fn an_envelope_holds_what_it_was_made_of() {
    let spec = spec_expiring(NOW);
    let proof = ComplianceProof::new("h".to_string(), ComplianceResult::Pass, vec![1]);
    let e = VerifiableComplianceEnvelope::new(spec.clone(), proof.clone());
    assert_eq!(e.spec, spec);
    assert_eq!(e.proof, proof);
}
