//! The execution boundary in both modes.

use fuse_core::attestation::BackendVerdict;
use fuse_core::boundary::{
    execute, run_request, BackendError, BackendRequest, ExecutionBoundary, ExecutionError,
    ExecutionMode, JournalOutput, Step,
};
use fuse_core::canonical::{canonicalize, EncodeError};
use fuse_core::checker::Checker;
use fuse_core::compliance::{ComplianceResult, ComplianceSpec};
use fuse_core::envelope::{Assessment, VerifiableComplianceEnvelope};
use fuse_core::value::Value;

const KEY: &str = "3d4017c3e843895a92b70aa74d1b7ebc9c982ccf2ec4968cc0cd55f12af4660c";
const MSG: &str = "72";
const SIG: &str = "92a009a9f0d4cab8720e820b5f642540a2b27b5416503f8fb3762223ebdb69da085ac1e43e15996e458f3613d0f11d8c387b2eaeb4302aeeb00d291612bb0c00";
const NOW: i64 = 1_767_225_600;

fn spec() -> ComplianceSpec {
    ComplianceSpec::new(
        "C2PA signature verified".to_string(),
        "abc123".to_string(),
        vec![("format".to_string(), "ed25519".to_string())],
        "US".to_string(),
        "1.0".to_string(),
        NOW + 86_400,
    )
}

fn evidence(message: &str) -> Value {
    Value::Object(vec![
        ("public_key".to_string(), Value::String(KEY.to_string())),
        ("message".to_string(), Value::String(message.to_string())),
        ("signature".to_string(), Value::String(SIG.to_string())),
    ])
}

fn journal(result: ComplianceResult) -> JournalOutput {
    JournalOutput { spec_hash: spec().hash(), result }
}

#[test]
fn direct_mode_runs_the_checker_and_gives_a_placeholder() {
    let boundary = ExecutionBoundary::new(ExecutionMode::Direct);
    assert_eq!(boundary.mode, ExecutionMode::Direct);
    match boundary.begin(Checker::SignatureAttestation, &spec(), &evidence(MSG)) {
        Ok(Step::Finished(proof)) => {
            assert!(proof.is_placeholder());
            assert_eq!(proof.spec_hash, spec().hash());
            assert_eq!(proof.result, ComplianceResult::Pass);
            let envelope = VerifiableComplianceEnvelope::new(spec(), proof);
            assert_eq!(envelope.is_compliant(NOW, BackendVerdict::NotConsulted), Ok(true));
            assert_eq!(
                envelope.assess(NOW, BackendVerdict::NotConsulted),
                Assessment::Unattested(ComplianceResult::Pass)
            );
        },
        other => panic!("{:?}", other),
    }
    match boundary.begin(Checker::SignatureAttestation, &spec(), &evidence("73")) {
        Ok(Step::Finished(proof)) => {
            assert!(proof.is_placeholder());
            assert_eq!(proof.result, ComplianceResult::Fail);
        },
        other => panic!("{:?}", other),
    }
}

#[test]
fn direct_mode_has_a_result_for_evidence_it_cannot_read() {
    let boundary = ExecutionBoundary::new(ExecutionMode::Direct);
    let unreadable = Value::Array(vec![Value::Number("not a number".to_string())]);
    match boundary.begin(Checker::SignatureAttestation, &spec(), &unreadable) {
        Ok(Step::Finished(proof)) => assert_eq!(proof.result, ComplianceResult::Fail),
        other => panic!("{:?}", other),
    }
}

#[test]
fn attested_mode_packages_the_request() {
    let boundary = ExecutionBoundary::new(ExecutionMode::Attested);
    match boundary.begin(Checker::SignatureAttestation, &spec(), &evidence(MSG)) {
        Ok(Step::AskBackend(request)) => {
            assert_eq!(request.checker, Checker::SignatureAttestation);
            assert_eq!(request.spec_bytes, spec().canonical_form());
            assert_eq!(request.system_data_bytes, canonicalize(&evidence(MSG)).unwrap());
            assert_eq!(
                String::from_utf8(request.system_data_bytes).unwrap(),
                format!("{{\"message\":\"{}\",\"public_key\":\"{}\",\"signature\":\"{}\"}}", MSG, KEY, SIG)
            );
        },
        other => panic!("{:?}", other),
    }
}

#[test]
fn attested_mode_refuses_evidence_without_a_canonical_form() {
    let boundary = ExecutionBoundary::new(ExecutionMode::Attested);
    let mut deep = Value::Null;
    for _ in 0..200 {
        deep = Value::Array(vec![deep]);
    }
    assert_eq!(
        boundary.begin(Checker::SignatureAttestation, &spec(), &deep),
        Err(ExecutionError::Evidence(EncodeError::TooDeep))
    );
    let bad = Value::Number("1.".to_string());
    assert_eq!(
        boundary.begin(Checker::SignatureAttestation, &spec(), &bad),
        Err(ExecutionError::Evidence(EncodeError::InvalidNumber))
    );
}

#[test]
fn an_answer_of_the_backend_becomes_an_attested_proof() {
    let boundary = ExecutionBoundary::new(ExecutionMode::Attested);
    let proof = boundary.complete(&spec(), Ok((vec![9, 9, 9], journal(ComplianceResult::Fail)))).unwrap();
    assert!(!proof.is_placeholder());
    assert_eq!(proof.proof_bytes, vec![9, 9, 9]);
    assert_eq!(proof.spec_hash, spec().hash());
    assert_eq!(proof.result, ComplianceResult::Fail);
    let envelope = VerifiableComplianceEnvelope::new(spec(), proof);
    assert_eq!(envelope.assess(NOW, BackendVerdict::Accepted), Assessment::AttestedFail);
}

#[test]
fn a_failed_attested_run_is_an_error_and_no_placeholder() {
    let boundary = ExecutionBoundary::new(ExecutionMode::Attested);
    for e in [
        BackendError::ExecutorNotFound,
        BackendError::MalformedInput,
        BackendError::ComputationFailed,
        BackendError::VerificationMismatch,
    ] {
        assert_eq!(boundary.complete(&spec(), Err(e)), Err(ExecutionError::Backend(e)));
    }
}

#[test]
fn an_answer_without_proof_bytes_is_refused() {
    let boundary = ExecutionBoundary::new(ExecutionMode::Attested);
    assert_eq!(
        boundary.complete(&spec(), Ok((Vec::new(), journal(ComplianceResult::Pass)))),
        Err(ExecutionError::MissingProof)
    );
}

#[test]
fn an_answer_about_another_spec_is_refused() {
    let boundary = ExecutionBoundary::new(ExecutionMode::Attested);
    let other = JournalOutput { spec_hash: "0".repeat(64), result: ComplianceResult::Pass };
    assert_eq!(boundary.complete(&spec(), Ok((vec![1], other))), Err(ExecutionError::JournalMismatch));
}

#[test]
fn a_direct_boundary_takes_no_answers() {
    let boundary = ExecutionBoundary::new(ExecutionMode::Direct);
    assert_eq!(
        boundary.complete(&spec(), Ok((vec![1], journal(ComplianceResult::Pass)))),
        Err(ExecutionError::NotAttested)
    );
    assert_eq!(
        boundary.complete(&spec(), Err(BackendError::ExecutorNotFound)),
        Err(ExecutionError::NotAttested)
    );
}

fn request_for(message: &str) -> BackendRequest {
    let boundary = ExecutionBoundary::new(ExecutionMode::Attested);
    match boundary.begin(Checker::SignatureAttestation, &spec(), &evidence(message)) {
        Ok(Step::AskBackend(request)) => request,
        other => panic!("{:?}", other),
    }
}

#[test]
fn the_executor_commits_to_the_hash_and_the_result() {
    let journal = execute(Checker::SignatureAttestation, &spec(), &evidence(MSG));
    assert_eq!(journal, journal_of(ComplianceResult::Pass));
    let journal = execute(Checker::SignatureAttestation, &spec(), &evidence("73"));
    assert_eq!(journal, journal_of(ComplianceResult::Fail));
}

fn journal_of(result: ComplianceResult) -> JournalOutput {
    journal(result)
}

#[test]
fn the_executor_reads_what_the_host_packaged() {
    assert_eq!(run_request(&request_for(MSG)), Ok(journal(ComplianceResult::Pass)));
    assert_eq!(run_request(&request_for("73")), Ok(journal(ComplianceResult::Fail)));
    assert_eq!(run_request(&request_for("not hex")), Ok(journal(ComplianceResult::Fail)));
}

#[test]
fn the_executor_finds_what_a_direct_run_finds() {
    let direct = ExecutionBoundary::new(ExecutionMode::Direct);
    let attested = ExecutionBoundary::new(ExecutionMode::Attested);
    let scrambled = Value::Object(vec![
        ("signature".to_string(), Value::String("00".to_string())),
        ("message".to_string(), Value::String(MSG.to_string())),
        ("note".to_string(), Value::Array(vec![Value::Number("1.50".to_string())])),
        ("signature".to_string(), Value::String(SIG.to_string())),
        ("public_key".to_string(), Value::String(KEY.to_string())),
    ]);
    for data in [evidence(MSG), evidence("73"), scrambled, Value::Null, Value::Array(Vec::new())] {
        let found = match direct.begin(Checker::SignatureAttestation, &spec(), &data) {
            Ok(Step::Finished(proof)) => proof.result,
            other => panic!("{:?}", other),
        };
        let request = match attested.begin(Checker::SignatureAttestation, &spec(), &data) {
            Ok(Step::AskBackend(request)) => request,
            other => panic!("{:?}", other),
        };
        let journal = run_request(&request).unwrap();
        assert_eq!(journal.result, found);
        assert_eq!(journal.spec_hash, spec().hash());
        let proof = attested.complete(&spec(), Ok((vec![1], journal))).unwrap();
        assert_eq!(proof.result, found);
    }
}

#[test]
fn the_executor_refuses_a_request_it_cannot_read() {
    let good = request_for(MSG);
    let mut request = request_for(MSG);
    request.spec_bytes = b"{}".to_vec();
    assert_eq!(run_request(&request), Err(BackendError::MalformedInput));
    let mut request = request_for(MSG);
    request.spec_bytes.push(b' ');
    assert_eq!(run_request(&request), Err(BackendError::MalformedInput));
    let mut request = request_for(MSG);
    request.system_data_bytes = b"{\"b\":1,\"a\":2}".to_vec();
    assert_eq!(run_request(&request), Err(BackendError::MalformedInput));
    let mut request = request_for(MSG);
    request.system_data_bytes = Vec::new();
    assert_eq!(run_request(&request), Err(BackendError::MalformedInput));
    let mut request = request_for(MSG);
    request.system_data_bytes = vec![0xff, 0xfe];
    assert_eq!(run_request(&request), Err(BackendError::MalformedInput));
    assert!(run_request(&good).is_ok());
}

#[test]
fn a_journal_about_a_tampered_spec_does_not_complete() {
    let attested = ExecutionBoundary::new(ExecutionMode::Attested);
    let mut request = request_for(MSG);
    let tampered = String::from_utf8(request.spec_bytes.clone()).unwrap().replace("\"US\"", "\"EU\"");
    request.spec_bytes = tampered.into_bytes();
    let journal = run_request(&request).unwrap();
    assert_ne!(journal.spec_hash, spec().hash());
    assert_eq!(
        attested.complete(&spec(), Ok((vec![1], journal))),
        Err(ExecutionError::JournalMismatch)
    );
}
