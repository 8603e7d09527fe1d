//! The envelope: a spec and the proof that goes with it.

use vstd::prelude::*;
use crate::attestation::{BackendVerdict, ComplianceProof, VerifyError};
use crate::compliance::{ComplianceResult, ComplianceSpec};
use crate::text::str_eq;

verus! {

/// Why an envelope cannot be trusted.
#[derive(Debug, Clone, Copy, PartialEq, Eq, Structural)]
pub enum EnvelopeError {
    /// The proof is about another spec than the one in the envelope.
    BindingMismatch,
    /// The spec is past its expiry.
    Expired,
    /// The proof does not verify.
    Proof(VerifyError),
}

/// What a verifier may conclude from an envelope.
#[derive(Debug, Clone, Copy, PartialEq, Eq, Structural)]
pub enum Assessment {
    /// The backend attests that the check passed.
    AttestedPass,
    /// The backend attests that the check failed.
    AttestedFail,
    /// The envelope is in order, and its proof is a placeholder: the result
    /// it names is a claim, not an attestation.
    Unattested(ComplianceResult),
    /// The envelope cannot be trusted.
    Untrusted(EnvelopeError),
}

/// One spec with one proof.
#[derive(Debug, Clone, PartialEq, Eq)]
pub struct VerifiableComplianceEnvelope {
    pub spec: ComplianceSpec,
    pub proof: ComplianceProof,
}

impl VerifiableComplianceEnvelope {
    /// Puts a spec and a proof into one envelope. Whether they belong
    /// together is for `verify` to find out.
    pub fn new(spec: ComplianceSpec, proof: ComplianceProof) -> (envelope:
        VerifiableComplianceEnvelope)
        ensures
            envelope.spec == spec,
            envelope.proof == proof,
    {
        VerifiableComplianceEnvelope { spec, proof }
    }

    /// The proof is about the spec of this envelope.
    pub open spec fn bound(self) -> bool {
        self.proof.spec_hash@ == self.spec.spec_hash()
    }

    /// What verifying the envelope at the time `now` gives, the backend
    /// having said `verdict` of the proof: first the binding, then the
    /// expiry, then the proof.
    pub open spec fn verified(self, now: i64, verdict: BackendVerdict) -> Result<(), EnvelopeError> {
        if !self.bound() {
            Err(EnvelopeError::BindingMismatch)
        } else if self.spec.expired_at(now) {
            Err(EnvelopeError::Expired)
        } else {
            match self.proof.verified(self.spec.spec_hash(), verdict) {
                Ok(()) => Ok(()),
                Err(e) => Err(EnvelopeError::Proof(e)),
            }
        }
    }

    /// What a verifier may conclude at the time `now`, the backend having
    /// said `verdict`.
    pub open spec fn assessed(self, now: i64, verdict: BackendVerdict) -> Assessment {
        match self.verified(now, verdict) {
            Err(e) => Assessment::Untrusted(e),
            Ok(()) => if self.proof.placeholder() {
                Assessment::Unattested(self.proof.result)
            } else if self.proof.result == ComplianceResult::Pass {
                Assessment::AttestedPass
            } else {
                Assessment::AttestedFail
            },
        }
    }

    /// Verifies the envelope at the time `now`, in seconds since the Unix
    /// epoch. `verdict` is what the backend said of the proof's bytes.
    ///
    /// A proof about another spec is a binding error, whatever else holds of
    /// it. A spec past its expiry, in an envelope that is bound, is an expiry
    /// error whatever the proof and the verdict.
    pub fn verify(&self, now: i64, verdict: BackendVerdict) -> (r: Result<(), EnvelopeError>)
        ensures
            r == self.verified(now, verdict),
            !self.bound() ==> r == Err::<(), EnvelopeError>(EnvelopeError::BindingMismatch),
            self.bound() && self.spec.expired_at(now) ==> r == Err::<(), EnvelopeError>(
                EnvelopeError::Expired,
            ),
            r is Ok ==> self.bound() && !self.spec.expired_at(now),
    {
        let hash = self.spec.hash();
        if !str_eq(self.proof.spec_hash.as_str(), hash.as_str()) {
            return Err(EnvelopeError::BindingMismatch);
        }
        if self.spec.is_expired_at(now) {
            return Err(EnvelopeError::Expired);
        }
        match self.proof.verify(hash.as_str(), verdict) {
            Ok(()) => Ok(()),
            Err(e) => Err(EnvelopeError::Proof(e)),
        }
    }

    /// Whether the envelope shows compliance: `Ok(true)` when it verifies
    /// and the committed result is `Pass`, `Ok(false)` when it verifies and
    /// the result is `Fail`, and the error of `verify` when it does not
    /// verify.
    pub fn is_compliant(&self, now: i64, verdict: BackendVerdict) -> (r: Result<
        bool,
        EnvelopeError,
    >)
        ensures
            r == match self.verified(now, verdict) {
                Ok(()) => Ok::<bool, EnvelopeError>(self.proof.result == ComplianceResult::Pass),
                Err(e) => Err::<bool, EnvelopeError>(e),
            },
    {
        match self.verify(now, verdict) {
            Ok(()) => Ok(self.proof.result.is_pass()),
            Err(e) => Err(e),
        }
    }

    /// What a verifier may conclude from the envelope. An envelope with a
    /// placeholder is never assessed as attested.
    pub fn assess(&self, now: i64, verdict: BackendVerdict) -> (r: Assessment)
        ensures
            r == self.assessed(now, verdict),
            self.proof.placeholder() ==> r != Assessment::AttestedPass && r
                != Assessment::AttestedFail,
    {
        match self.verify(now, verdict) {
            Err(e) => Assessment::Untrusted(e),
            Ok(()) => {
                if self.proof.is_placeholder() {
                    Assessment::Unattested(self.proof.result)
                } else if self.proof.result.is_pass() {
                    Assessment::AttestedPass
                } else {
                    Assessment::AttestedFail
                }
            },
        }
    }
}

} // verus!
