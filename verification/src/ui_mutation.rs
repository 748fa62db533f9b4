//! Errors of mutations started from the user interface.

use vstd::prelude::*;

use crate::mutation_error::MutationError;

verus! {

/// A mutation started from the user interface failed.
#[derive(Debug)]
pub enum UiMutationError {
    Mutation(MutationError),
}

impl From<MutationError> for UiMutationError {
    fn from(e: MutationError) -> (r: Self)
        ensures
            r == UiMutationError::Mutation(e),
    {
        UiMutationError::Mutation(e)
    }
}

impl vstd::std_specs::convert::FromSpecImpl<MutationError> for UiMutationError {
    open spec fn obeys_from_spec() -> bool {
        true
    }

    open spec fn from_spec(v: MutationError) -> UiMutationError {
        UiMutationError::Mutation(v)
    }
}

impl UiMutationError {
    /// The error's text.
    pub fn to_string(&self) -> (s: String)
        ensures
            self matches UiMutationError::Mutation(MutationError::Schema(m)) ==> s@ == "mutation error: "@ + "schema error: "@ + m@,
            self matches UiMutationError::Mutation(MutationError::Semantic(m)) ==> s@ == "mutation error: "@ + "semantic validation error: "@ + m@,
    {
        match self {
            UiMutationError::Mutation(e) => {
                let mut s = String::from_str("mutation error: ");
                let t = e.to_string();
                s.append(t.as_str());
                s
            },
        }
    }
}

} // verus!
