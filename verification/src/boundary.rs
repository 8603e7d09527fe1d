//! The execution boundary: how running a checker becomes a proof.
//!
//! In direct mode the checker runs here and its result goes into a
//! placeholder. In attested mode the checker runs in the proving backend:
//! this side packages the request and, when the backend has answered, turns
//! the answer into a proof or into an error. The mode is chosen when the
//! boundary is made, and an attested run that fails is an error, never a
//! placeholder.

use vstd::prelude::*;
use crate::agreement::lemma_outcome_of_form;
use crate::attestation::ComplianceProof;
use crate::canonical::{canonical, canonicalize, encodable, within_depth, EncodeError, MAX_DEPTH};
use crate::digest::fingerprint_of;
use crate::reader::{decode, is_canonical};
use crate::tree_form::{lemma_tree_normal, readable_spec};
use crate::checker::Checker;
use crate::compliance::{ComplianceResult, ComplianceSpec};
use crate::text::str_eq;
use crate::value::Value;

verus! {

/// How a checker's run is turned into a proof.
#[derive(Debug, Clone, Copy, PartialEq, Eq, Structural)]
pub enum ExecutionMode {
    /// The checker runs in this process; the proof is a placeholder.
    Direct,
    /// The checker runs in the proving backend, which attests the result.
    Attested,
}

/// Why the proving backend gave no proof.
#[derive(Debug, Clone, Copy, PartialEq, Eq, Structural)]
pub enum BackendError {
    /// The executor that should run the checker is not there.
    ExecutorNotFound,
    /// The backend could not read the request.
    MalformedInput,
    /// The backend failed while it ran the checker or made the proof.
    ComputationFailed,
    /// The backend's own verification of the proof failed.
    VerificationMismatch,
}

/// Why an execution gave no proof.
#[derive(Debug, Clone, Copy, PartialEq, Eq, Structural)]
pub enum ExecutionError {
    /// The evidence has no canonical encoding.
    Evidence(EncodeError),
    /// The boundary runs checkers directly and has no backend to answer.
    NotAttested,
    /// The backend failed.
    Backend(BackendError),
    /// The backend answered without a proof.
    MissingProof,
    /// The backend committed to another spec than the one asked about.
    JournalMismatch,
}

/// What the backend is asked: which checker to run, on which spec and
/// evidence, both in canonical form.
#[derive(Debug, Clone, PartialEq, Eq)]
pub struct BackendRequest {
    pub checker: Checker,
    pub spec_bytes: Vec<u8>,
    pub system_data_bytes: Vec<u8>,
}

/// What the executor commits to: the hash of the spec it checked and what it
/// found.
#[derive(Debug, Clone, PartialEq, Eq)]
pub struct JournalOutput {
    pub spec_hash: String,
    pub result: ComplianceResult,
}

/// What is to be done next for an execution.
#[derive(Debug, Clone, PartialEq, Eq)]
pub enum Step {
    /// The execution is over; here is the proof.
    Finished(ComplianceProof),
    /// The backend is to be asked; its answer goes to `complete`.
    AskBackend(BackendRequest),
}

/// The executor can read the request: the bytes of the spec are readable as a
/// spec, and the bytes of the evidence are the canonical form of a value.
pub open spec fn readable(request: BackendRequest) -> bool {
    readable_spec(request.spec_bytes@) && is_canonical(request.system_data_bytes@)
}

/// The executor's whole part: it reads the request, runs the one checker
/// that the request selects, and commits to the hash of the spec and to what
/// the checker found.
///
/// A request is run exactly when it is readable; any other is malformed
/// input. The journal of a request that was run names the fingerprint of the
/// spec's bytes, and the result that the checker finds for any evidence that
/// has the bytes of the evidence as its canonical form: what a direct run
/// on that evidence finds.
pub fn run_request(request: &BackendRequest) -> (r: Result<JournalOutput, BackendError>)
    ensures
        r is Ok <==> readable(*request),
        r matches Err(e) ==> e == BackendError::MalformedInput,
        r matches Ok(journal) ==> {
            &&& journal.spec_hash@ == fingerprint_of(request.spec_bytes@)
            &&& forall|spec: ComplianceSpec, system_data: Value|
                encodable(system_data) && canonical(system_data) == request.system_data_bytes@
                    ==> journal.result == #[trigger] request.checker.outcome(spec, system_data)
        },
{
    let spec = match ComplianceSpec::from_canonical(request.spec_bytes.as_slice()) {
        Some(spec) => spec,
        None => {
            return Err(BackendError::MalformedInput);
        },
    };
    let system_data = match decode(request.system_data_bytes.as_slice()) {
        Ok(system_data) => system_data,
        Err(_) => {
            return Err(BackendError::MalformedInput);
        },
    };
    let journal = execute(request.checker, &spec, &system_data);
    assert forall|other: ComplianceSpec, evidence: Value|
        encodable(evidence) && canonical(evidence)
            == request.system_data_bytes@ implies journal.result
        == #[trigger] request.checker.outcome(other, evidence) by {
        assert(within_depth(evidence, MAX_DEPTH as nat) && within_depth(
            system_data,
            MAX_DEPTH as nat,
        ));
        lemma_outcome_of_form(request.checker, other, evidence, spec, system_data);
    }
    Ok(journal)
}

/// What the executor does with a request once it has read it: it runs the
/// one checker that the request selects and commits to the hash of the spec
/// and to what the checker found.
pub fn execute(checker: Checker, spec: &ComplianceSpec, system_data: &Value) -> (journal:
    JournalOutput)
    ensures
        journal.spec_hash@ == spec.spec_hash(),
        journal.result == checker.outcome(*spec, *system_data),
{
    JournalOutput { spec_hash: spec.hash(), result: checker.check(spec, system_data) }
}

/// The boundary, with the mode it was made for.
#[derive(Debug, Clone, Copy, PartialEq, Eq, Structural)]
pub struct ExecutionBoundary {
    pub mode: ExecutionMode,
}

impl ExecutionBoundary {
    /// A boundary that works in the given mode.
    pub fn new(mode: ExecutionMode) -> (boundary: ExecutionBoundary)
        ensures
            boundary.mode == mode,
    {
        ExecutionBoundary { mode }
    }

    /// Begins an execution.
    ///
    /// In direct mode the checker is run, and the step is the placeholder
    /// that names the spec's hash and the checker's result. In attested mode
    /// the step is the request for the backend, unless the evidence has no
    /// canonical encoding. The request is one that the executor can read.
    pub fn begin(&self, checker: Checker, spec: &ComplianceSpec, system_data: &Value) -> (r: Result<
        Step,
        ExecutionError,
    >)
        ensures
            match self.mode {
                ExecutionMode::Direct => r matches Ok(Step::Finished(proof)) && {
                    &&& proof.placeholder()
                    &&& proof.spec_hash@ == spec.spec_hash()
                    &&& proof.result == checker.outcome(*spec, *system_data)
                },
                ExecutionMode::Attested => if encodable(*system_data) {
                    r matches Ok(Step::AskBackend(request)) && {
                        &&& request.checker == checker
                        &&& request.spec_bytes@ == spec.canonical_bytes()
                        &&& request.system_data_bytes@ == canonical(*system_data)
                        &&& readable(request)
                    }
                } else if within_depth(*system_data, MAX_DEPTH as nat) {
                    r == Err::<Step, ExecutionError>(
                        ExecutionError::Evidence(EncodeError::InvalidNumber),
                    )
                } else {
                    r == Err::<Step, ExecutionError>(ExecutionError::Evidence(EncodeError::TooDeep))
                },
            },
    {
        match self.mode {
            ExecutionMode::Direct => {
                let result = checker.check(spec, system_data);
                Ok(Step::Finished(ComplianceProof::new(spec.hash(), result, Vec::new())))
            },
            ExecutionMode::Attested => {
                match canonicalize(system_data) {
                    Ok(system_data_bytes) => {
                        let identity = spec.identity();
                        let tree = identity.to_value();
                        proof {
                            lemma_tree_normal(tree, identity);
                            assert(is_canonical(system_data_bytes@));
                        }
                        match canonicalize(&tree) {
                            Ok(spec_bytes) => {
                                assert(readable_spec(spec_bytes@));
                                Ok(
                                    Step::AskBackend(
                                        BackendRequest { checker, spec_bytes, system_data_bytes },
                                    ),
                                )
                            },
                            Err(_) => vstd::pervasive::unreached(),
                        }
                    },
                    Err(e) => Err(ExecutionError::Evidence(e)),
                }
            },
        }
    }

    /// Ends an attested execution with the backend's answer.
    ///
    /// A backend error is handed on as it is. An answer is turned into a
    /// proof when it carries proof bytes and its journal commits to the hash
    /// of `spec`; the proof then holds the journal's hash and result and the
    /// backend's bytes. A boundary in direct mode refuses every answer. No
    /// outcome is a placeholder.
    pub fn complete(
        &self,
        spec: &ComplianceSpec,
        answer: Result<(Vec<u8>, JournalOutput), BackendError>,
    ) -> (r: Result<ComplianceProof, ExecutionError>)
        ensures
            r matches Ok(proof) ==> !proof.placeholder(),
            match (self.mode, answer) {
                (ExecutionMode::Direct, _) => r == Err::<ComplianceProof, ExecutionError>(
                    ExecutionError::NotAttested,
                ),
                (ExecutionMode::Attested, Err(e)) => r == Err::<ComplianceProof, ExecutionError>(
                    ExecutionError::Backend(e),
                ),
                (ExecutionMode::Attested, Ok((proof_bytes, journal))) => if proof_bytes@.len() == 0 {
                    r == Err::<ComplianceProof, ExecutionError>(ExecutionError::MissingProof)
                } else if journal.spec_hash@ != spec.spec_hash() {
                    r == Err::<ComplianceProof, ExecutionError>(ExecutionError::JournalMismatch)
                } else {
                    r matches Ok(proof) && {
                        &&& proof.spec_hash == journal.spec_hash
                        &&& proof.result == journal.result
                        &&& proof.proof_bytes == proof_bytes
                    }
                },
            },
    {
        match self.mode {
            ExecutionMode::Direct => Err(ExecutionError::NotAttested),
            ExecutionMode::Attested => match answer {
                Err(e) => Err(ExecutionError::Backend(e)),
                Ok((proof_bytes, journal)) => {
                    if proof_bytes.len() == 0 {
                        return Err(ExecutionError::MissingProof);
                    }
                    let hash = spec.hash();
                    if !str_eq(journal.spec_hash.as_str(), hash.as_str()) {
                        return Err(ExecutionError::JournalMismatch);
                    }
                    Ok(ComplianceProof::new(journal.spec_hash, journal.result, proof_bytes))
                },
            },
        }
    }
}

} // verus!
