//! Errors produced while elaborating a proof.

use vstd::prelude::*;

use crate::ast::StepNode;
use crate::error::{CheckerError, Error};

verus! {

/// The elaboration passes.
#[derive(Debug, Clone, Copy, PartialEq, Eq, Structural)]
pub enum ElaborationPass {
    Polyeq,
    LiaGeneric,
    Local,
    Uncrowd,
    Reordering,
    Hole,
}

/// An error that occurred while elaborating a proof.
#[derive(Debug)]
pub enum ElaborationError {
    /// The elaboration failed because the step is invalid.
    Checker(CheckerError),
    /// An error reported by an external tool.
    External(String),
    /// The pivots of a `resolution` step could not be inferred from its conclusion.
    CouldNotInferPivots(String),
    /// A `resolution` step could not be uncrowded because its pivots were not provided as
    /// arguments.
    UncrowdMissingPivots,
}

/// An elaboration error, with the step and rule in which it occurred. The file and the pass are
/// added when it becomes an [`Error`].
pub struct ElaborationErrorAtStep {
    /// The underlying elaboration error.
    pub inner: ElaborationError,
    /// The rule that was being elaborated when the error occurred.
    pub rule: String,
    /// The id of the step in which the error occurred.
    pub step: String,
}

impl ElaborationError {
    /// Locates the error at a step: its rule and id.
    pub fn at(self, step: &StepNode) -> (e: ElaborationErrorAtStep)
        ensures
            e.inner == self,
            e.rule@ == step.rule@,
            e.step@ == step.id@,
    {
        ElaborationErrorAtStep { inner: self, rule: step.rule.clone(), step: step.id.clone() }
    }
}

impl ElaborationErrorAtStep {
    /// Locates the error at a file and an elaboration pass.
    pub fn at(self, filename: &str, pass: ElaborationPass) -> (e: Error)
        ensures
            e matches Error::Elaborator { inner, rule, step, pass: p, file } && *inner == self.inner
                && rule@ == self.rule@ && step@ == self.step@ && p == pass && file@ == filename@,
    {
        Error::Elaborator {
            inner: Box::new(self.inner),
            rule: self.rule,
            step: self.step,
            pass,
            file: filename.to_owned(),
        }
    }
}

} // verus!
