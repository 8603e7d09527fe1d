//! Verifiable compliance checking.
//!
//! A compliance spec states a claim about a system. A checker decides, from
//! the spec and a tree of evidence, whether the claim holds. The outcome is
//! bound to the spec's hash in a proof, and the pairing of spec and proof, the
//! envelope, is what a verifier checks.

pub mod agreement;
pub mod attestation;
pub mod boundary;
pub mod c2pa;
pub mod canonical;
pub mod checker;
pub mod checkers;
pub mod compliance;
pub mod decimal;
pub mod digest;
pub mod distinct;
pub mod envelope;
pub mod hex_codec;
pub mod identity;
pub mod normal;
pub mod number;
pub mod reader;
pub mod signature;
pub mod text;
pub mod tree_form;
pub mod trees;
pub mod value;

pub use attestation::{BackendVerdict, ComplianceProof};
pub use boundary::JournalOutput;
pub use compliance::{ComplianceResult, ComplianceSpec};
pub use envelope::VerifiableComplianceEnvelope;
pub use value::Value;
