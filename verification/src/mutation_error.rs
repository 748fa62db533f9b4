//! Errors of document mutations.

use vstd::prelude::*;

use crate::dag::CycleError;
use crate::validation::ValidationIssue;

verus! {

/// Why a mutation was refused.
#[derive(Debug, PartialEq, Eq)]
pub enum MutationError {
    /// Structural errors in the document format.
    Schema(String),
    /// Semantic validation errors.
    Semantic(String),
}

impl Clone for MutationError {
    fn clone(&self) -> (r: Self)
        ensures
            r == *self,
    {
        match self {
            MutationError::Schema(s) => MutationError::Schema(s.clone()),
            MutationError::Semantic(s) => MutationError::Semantic(s.clone()),
        }
    }
}

impl MutationError {
    /// The semantic error that reports a validation issue: its code, a colon and its message.
    pub fn from_issue(issue: &ValidationIssue) -> (r: Self)
        ensures
            (r matches MutationError::Semantic(s) && s@ == issue.code@ + ": "@ + issue.message@),
    {
        let mut s = String::from_str(issue.code);
        s.append(": ");
        s.append(issue.message.as_str());
        MutationError::Semantic(s)
    }

    /// The schema error that reports a cycle in the edge graph.
    pub fn from_cycle_error(err: &CycleError) -> (r: Self)
        ensures
            r matches MutationError::Schema(s) && (err matches CycleError::CycleDetected(n)
                ==> s@ == "cycle error: "@ + crate::dag::cycle_message(n as nat)),
            r matches MutationError::Schema(s) && (err matches CycleError::DisconnectedGraph(n)
                ==> s@ == "cycle error: "@ + crate::dag::disconnected_message(n as nat)),
    {
        let mut s = String::from_str("cycle error: ");
        let m = err.to_string();
        s.append(m.as_str());
        MutationError::Schema(s)
    }

    /// The error's text: its kind and its message.
    pub fn to_string(&self) -> (s: String)
        ensures
            self matches MutationError::Schema(m) ==> s@ == "schema error: "@ + m@,
            self matches MutationError::Semantic(m) ==> s@ == "semantic validation error: "@ + m@,
    {
        match self {
            MutationError::Schema(m) => {
                let mut s = String::from_str("schema error: ");
                s.append(m.as_str());
                s
            },
            MutationError::Semantic(m) => {
                let mut s = String::from_str("semantic validation error: ");
                s.append(m.as_str());
                s
            },
        }
    }
}

} // verus!
