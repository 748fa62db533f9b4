//! The stages of the mutation pipeline and the entry points that run it.

use vstd::prelude::*;

use crate::document::{DiagramDocument, Revision, next_revision_value};
use crate::mutation_error::MutationError;
use crate::orchestrator::run_pipeline;
use crate::validation::{are_document_issues, validate_document, IssueView};

verus! {

/// Which way the revision moves when a mutation is committed.
#[derive(Clone, Copy, Debug, PartialEq, Eq, Structural)]
pub enum RevisionPolicy {
    Increment,
    Preserve,
}

/// Whether a mutated document is validated before it is committed.
#[derive(Clone, Copy, Debug, PartialEq, Eq, Structural, Default)]
pub enum ValidationPolicy {
    #[default]
    Validate,
    Skip,
}

/// The revision a committed mutation carries.
pub open spec fn committed_revision(current: Revision, policy: RevisionPolicy) -> Revision {
    match policy {
        RevisionPolicy::Increment => Revision(next_revision_value(current.0)),
        RevisionPolicy::Preserve => current,
    }
}

/// The error that reports a validation issue.
pub open spec fn issue_error_text(i: IssueView) -> Seq<char> {
    i.code + ": "@ + i.message
}

/// The outcomes validation may have under a policy: skipped, it passes; otherwise it
/// passes when the document has no issue and fails with its first issue.
pub open spec fn validation_outcome(document: DiagramDocument, policy: ValidationPolicy, r: Result<(), MutationError>) -> bool {
    match policy {
        ValidationPolicy::Skip => r is Ok,
        ValidationPolicy::Validate => exists|issues: Seq<IssueView>| #[trigger] are_document_issues(document.document, issues) && match r {
            Ok(()) => issues.len() == 0,
            Err(e) => issues.len() > 0 && (e matches MutationError::Semantic(s) && s@ == issue_error_text(issues[0])),
        },
    }
}

/// Conflict resolution before the mutation is applied; there is nothing to resolve.
pub fn resolve_conflicts_stage(current: &DiagramDocument) -> (r: Result<(), MutationError>)
    ensures
        r is Ok,
{
    Ok(())
}

/// Apply the transformation to the document.
pub fn apply_stage<F>(current: &DiagramDocument, transform: F) -> (r: Result<DiagramDocument, MutationError>)
    where
        F: FnOnce(&DiagramDocument) -> Result<DiagramDocument, MutationError>,
    requires
        call_requires(transform, (current,)),
    ensures
        call_ensures(transform, (current,), r),
{
    transform(current)
}

/// Validate the document according to the policy.
pub fn validate_stage(document: &DiagramDocument, policy: ValidationPolicy) -> (r: Result<(), MutationError>)
    ensures
        validation_outcome(*document, policy, r),
{
    match policy {
        ValidationPolicy::Skip => Ok(()),
        ValidationPolicy::Validate => {
            let issues = validate_document(document);
            let ghost iv = crate::validation::issues_view(issues@);
            if issues.len() == 0 {
                assert(are_document_issues(document.document, iv));
                Ok(())
            } else {
                let e = MutationError::from_issue(&issues[0]);
                assert(iv[0] == issues@[0]@);
                assert(are_document_issues(document.document, iv));
                Err(e)
            }
        },
    }
}

/// Record the mutation in the history: the new document carries the revision that the
/// policy gives the current one.
pub fn append_stage(next: DiagramDocument, current: &DiagramDocument, policy: RevisionPolicy) -> (r: DiagramDocument)
    ensures
        r == (DiagramDocument { revision: committed_revision(current.revision, policy), ..next }),
{
    let revision = match policy {
        RevisionPolicy::Increment => current.revision.increment(),
        RevisionPolicy::Preserve => current.revision,
    };
    DiagramDocument { revision, ..next }
}

/// Run a mutation with validation, moving the revision on.
pub fn run_mutation<F>(current: &DiagramDocument, transform: F) -> (r: Result<DiagramDocument, MutationError>)
    where
        F: FnOnce(&DiagramDocument) -> Result<DiagramDocument, MutationError>,
    requires
        call_requires(transform, (current,)),
    ensures
        exists|applied: Result<DiagramDocument, MutationError>| #[trigger] call_ensures(transform, (current,), applied)
            && crate::orchestrator::mutation_result(*current, RevisionPolicy::Increment, ValidationPolicy::Validate, applied, r),
{
    run_mutation_with_policy(current, RevisionPolicy::Increment, ValidationPolicy::Validate, transform)
}

/// Run a mutation under explicit policies.
pub fn run_mutation_with_policy<F>(
    current: &DiagramDocument,
    revision_policy: RevisionPolicy,
    validation_policy: ValidationPolicy,
    transform: F,
) -> (r: Result<DiagramDocument, MutationError>)
    where
        F: FnOnce(&DiagramDocument) -> Result<DiagramDocument, MutationError>,
    requires
        call_requires(transform, (current,)),
    ensures
        exists|applied: Result<DiagramDocument, MutationError>| #[trigger] call_ensures(transform, (current,), applied)
            && crate::orchestrator::mutation_result(*current, revision_policy, validation_policy, applied, r),
{
    let outcome = run_pipeline(current, revision_policy, validation_policy, transform);
    proof {
        let applied = choose|applied: Result<DiagramDocument, MutationError>| #[trigger] call_ensures(transform, (current,), applied)
            && crate::orchestrator::pipeline_outcome(*current, revision_policy, validation_policy, applied, outcome.phase, outcome.result, outcome.trace@);
        crate::orchestrator::lemma_outcome_result(*current, revision_policy, validation_policy, applied, outcome.phase, outcome.result, outcome.trace@);
    }
    outcome.result
}

/// Run a mutation without validation, moving the revision on.
pub fn run_mutation_unchecked<F>(current: &DiagramDocument, transform: F) -> (r: Result<DiagramDocument, MutationError>)
    where
        F: FnOnce(&DiagramDocument) -> Result<DiagramDocument, MutationError>,
    requires
        call_requires(transform, (current,)),
    ensures
        exists|applied: Result<DiagramDocument, MutationError>| #[trigger] call_ensures(transform, (current,), applied)
            && crate::orchestrator::mutation_result(*current, RevisionPolicy::Increment, ValidationPolicy::Skip, applied, r),
{
    run_mutation_with_policy(current, RevisionPolicy::Increment, ValidationPolicy::Skip, transform)
}

} // verus!
