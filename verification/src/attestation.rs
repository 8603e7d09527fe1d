//! The proof: what binds a result to a spec.
//!
//! A proof names the hash of the spec it is about, the result, and the bytes
//! that the proving backend gave for them. A proof without such bytes is a
//! placeholder: it stands where a proof belongs and proves nothing.

use vstd::prelude::*;
use crate::compliance::ComplianceResult;
use crate::text::str_eq;

verus! {

/// What the proving backend said of a proof's bytes, for the committed spec
/// hash and result and the executor it expects.
#[derive(Debug, Clone, Copy, PartialEq, Eq, Structural)]
pub enum BackendVerdict {
    /// The backend was not asked.
    NotConsulted,
    /// The backend accepts the proof.
    Accepted,
    /// The backend refuses the proof.
    Rejected,
    /// The proof was made by another executor than the one expected.
    IdentityMismatch,
}

/// Why a proof does not verify.
#[derive(Debug, Clone, Copy, PartialEq, Eq, Structural)]
pub enum VerifyError {
    /// The proof is about another spec than the one expected.
    SpecHashMismatch,
    /// The proof carries bytes and no backend was asked about them.
    BackendNotConsulted,
    /// The backend refuses the proof.
    ProofRejected,
    /// The proof was made by another executor than the one expected.
    ExecutorMismatch,
}

/// A result bound to the hash of a spec.
#[derive(Debug, Clone, PartialEq, Eq)]
pub struct ComplianceProof {
    /// The hash of the spec that the proof is about.
    pub spec_hash: String,
    /// The committed outcome.
    pub result: ComplianceResult,
    /// The attestation of the backend; empty in a placeholder.
    pub proof_bytes: Vec<u8>,
}

impl ComplianceProof {
    /// A proof of the given parts.
    pub fn new(spec_hash: String, result: ComplianceResult, proof_bytes: Vec<u8>) -> (proof:
        ComplianceProof)
        ensures
            proof.spec_hash == spec_hash,
            proof.result == result,
            proof.proof_bytes == proof_bytes,
    {
        ComplianceProof { spec_hash, result, proof_bytes }
    }

    /// The proof carries no attestation.
    pub open spec fn placeholder(self) -> bool {
        self.proof_bytes@.len() == 0
    }

    /// What verifying the proof against the hash `expected` gives, the
    /// backend having said `verdict`. A placeholder verifies whatever the
    /// hash and the verdict. Any other proof must be about the expected spec
    /// and be accepted by the backend.
    pub open spec fn verified(self, expected: Seq<char>, verdict: BackendVerdict) -> Result<
        (),
        VerifyError,
    > {
        if self.placeholder() {
            Ok(())
        } else if self.spec_hash@ != expected {
            Err(VerifyError::SpecHashMismatch)
        } else {
            match verdict {
                BackendVerdict::Accepted => Ok(()),
                BackendVerdict::Rejected => Err(VerifyError::ProofRejected),
                BackendVerdict::IdentityMismatch => Err(VerifyError::ExecutorMismatch),
                BackendVerdict::NotConsulted => Err(VerifyError::BackendNotConsulted),
            }
        }
    }

    /// Whether the proof is a placeholder. A placeholder verifies, and its
    /// verifying says nothing of the result: who relies on a proof asks this
    /// first.
    pub fn is_placeholder(&self) -> (r: bool)
        ensures
            r == self.placeholder(),
    {
        self.proof_bytes.len() == 0
    }

    /// Verifies the proof against the hash of the spec it should be about.
    ///
    /// `verdict` is what the backend said of the proof's bytes; for a
    /// placeholder it is not read.
    pub fn verify(&self, expected_spec_hash: &str, verdict: BackendVerdict) -> (r: Result<
        (),
        VerifyError,
    >)
        ensures
            r == self.verified(expected_spec_hash@, verdict),
            self.placeholder() ==> r is Ok,
            r is Ok && !self.placeholder() ==> verdict == BackendVerdict::Accepted && self.spec_hash@
                == expected_spec_hash@,
    {
        if self.is_placeholder() {
            return Ok(());
        }
        if !str_eq(self.spec_hash.as_str(), expected_spec_hash) {
            return Err(VerifyError::SpecHashMismatch);
        }
        match verdict {
            BackendVerdict::Accepted => Ok(()),
            BackendVerdict::Rejected => Err(VerifyError::ProofRejected),
            BackendVerdict::IdentityMismatch => Err(VerifyError::ExecutorMismatch),
            BackendVerdict::NotConsulted => Err(VerifyError::BackendNotConsulted),
        }
    }
}

} // verus!
