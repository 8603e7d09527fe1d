//! The checkers that this library carries, as one closed set.
//!
//! A checker is a function from a spec and a tree of evidence to `Pass` or
//! `Fail`. It reads nothing else, so the same spec and evidence always give
//! the same result, and it has a result for every tree: evidence that it
//! cannot read fails.

use vstd::prelude::*;
use crate::checkers::c2pa;
use crate::compliance::{ComplianceResult, ComplianceSpec};
use crate::text::str_eq;
use crate::value::Value;

verus! {

/// Which checker to run.
#[derive(Debug, Clone, Copy, PartialEq, Eq, Structural)]
pub enum Checker {
    /// Checks an Ed25519 signature carried by the evidence.
    SignatureAttestation,
}

impl Checker {
    /// What the checker finds for a spec and evidence.
    pub open spec fn outcome(self, spec: ComplianceSpec, system_data: Value) -> ComplianceResult {
        match self {
            Checker::SignatureAttestation => if c2pa::passes(system_data) {
                ComplianceResult::Pass
            } else {
                ComplianceResult::Fail
            },
        }
    }

    /// The name by which a request selects the checker.
    pub open spec fn selector_text(self) -> Seq<char> {
        match self {
            Checker::SignatureAttestation => "c2pa"@,
        }
    }

    /// Runs the checker.
    pub fn check(&self, spec: &ComplianceSpec, system_data: &Value) -> (r: ComplianceResult)
        ensures
            r == self.outcome(*spec, *system_data),
    {
        match self {
            Checker::SignatureAttestation => c2pa::check(spec, system_data),
        }
    }

    /// The name by which a request selects the checker.
    pub fn selector(&self) -> (name: &'static str)
        ensures
            name@ == self.selector_text(),
    {
        match self {
            Checker::SignatureAttestation => "c2pa",
        }
    }

    /// The checker that a name selects, if it selects one.
    pub fn from_selector(name: &str) -> (r: Option<Checker>)
        ensures
            match r {
                Some(checker) => checker.selector_text() == name@,
                None => forall|checker: Checker| checker.selector_text() != name@,
            },
    {
        if str_eq(name, "c2pa") {
            Some(Checker::SignatureAttestation)
        } else {
            None
        }
    }
}

} // verus!
