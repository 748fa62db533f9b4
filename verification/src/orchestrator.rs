//! The mutation pipeline as an explicit state machine.
//!
//! A run starts in `Idle` and goes through conflict resolution, applying the change,
//! validation and appending to the history, one stage per event, ending in
//! `Completed`; an active stage may fail instead, which ends the run in `Failed`.
//! The terminal phases only go back to `Idle`, on `Reset`.

use vstd::prelude::*;

use crate::document::DiagramDocument;
use crate::mutation_error::MutationError;
use crate::validation::IssueView;
use crate::pipeline::{
    append_stage, apply_stage, committed_revision, resolve_conflicts_stage, validate_stage,
    validation_outcome, RevisionPolicy, ValidationPolicy,
};

verus! {

/// A phase of the pipeline.
#[derive(Debug, PartialEq, Eq)]
pub enum PipelinePhase {
    Idle,
    ResolvingConflicts,
    Applying,
    Validating,
    AppendingHistory,
    Completed,
    Failed(PipelineFailure),
}

/// The stage at which a run failed, with its error.
#[derive(Debug, PartialEq, Eq)]
pub enum PipelineFailure {
    ConflictResolution(MutationError),
    Apply(MutationError),
    Validation(MutationError),
}

/// What moves the pipeline from one phase to the next.
#[derive(Debug, PartialEq, Eq)]
pub enum PipelineEvent {
    Start,
    ConflictsResolved,
    Applied,
    Validated,
    HistoryAppended,
    Failed(PipelineFailure),
    Reset,
}

/// An event that the current phase does not accept.
#[derive(Debug, PartialEq)]
pub enum PipelineTransitionError {
    InvalidTransition { from: PipelinePhase, event: PipelineEvent },
}

impl Clone for PipelineFailure {
    fn clone(&self) -> (r: Self)
        ensures
            r == *self,
    {
        match self {
            PipelineFailure::ConflictResolution(e) => PipelineFailure::ConflictResolution(e.clone()),
            PipelineFailure::Apply(e) => PipelineFailure::Apply(e.clone()),
            PipelineFailure::Validation(e) => PipelineFailure::Validation(e.clone()),
        }
    }
}

impl Clone for PipelinePhase {
    fn clone(&self) -> (r: Self)
        ensures
            r == *self,
    {
        match self {
            PipelinePhase::Idle => PipelinePhase::Idle,
            PipelinePhase::ResolvingConflicts => PipelinePhase::ResolvingConflicts,
            PipelinePhase::Applying => PipelinePhase::Applying,
            PipelinePhase::Validating => PipelinePhase::Validating,
            PipelinePhase::AppendingHistory => PipelinePhase::AppendingHistory,
            PipelinePhase::Completed => PipelinePhase::Completed,
            PipelinePhase::Failed(f) => PipelinePhase::Failed(f.clone()),
        }
    }
}

impl Clone for PipelineEvent {
    fn clone(&self) -> (r: Self)
        ensures
            r == *self,
    {
        match self {
            PipelineEvent::Start => PipelineEvent::Start,
            PipelineEvent::ConflictsResolved => PipelineEvent::ConflictsResolved,
            PipelineEvent::Applied => PipelineEvent::Applied,
            PipelineEvent::Validated => PipelineEvent::Validated,
            PipelineEvent::HistoryAppended => PipelineEvent::HistoryAppended,
            PipelineEvent::Failed(f) => PipelineEvent::Failed(f.clone()),
            PipelineEvent::Reset => PipelineEvent::Reset,
        }
    }
}

/// The phase an event leads to from the current phase, if the phase accepts it.
pub open spec fn transition(current: PipelinePhase, event: PipelineEvent) -> Option<PipelinePhase> {
    match current {
        PipelinePhase::Idle => if event is Start { Some(PipelinePhase::ResolvingConflicts) } else { None },
        PipelinePhase::ResolvingConflicts => match event {
            PipelineEvent::ConflictsResolved => Some(PipelinePhase::Applying),
            PipelineEvent::Failed(f) => if f is ConflictResolution { Some(PipelinePhase::Failed(f)) } else { None },
            _ => None,
        },
        PipelinePhase::Applying => match event {
            PipelineEvent::Applied => Some(PipelinePhase::Validating),
            PipelineEvent::Failed(f) => if f is Apply { Some(PipelinePhase::Failed(f)) } else { None },
            _ => None,
        },
        PipelinePhase::Validating => match event {
            PipelineEvent::Validated => Some(PipelinePhase::AppendingHistory),
            PipelineEvent::Failed(f) => if f is Validation { Some(PipelinePhase::Failed(f)) } else { None },
            _ => None,
        },
        PipelinePhase::AppendingHistory => if event is HistoryAppended { Some(PipelinePhase::Completed) } else { None },
        PipelinePhase::Completed => if event is Reset { Some(PipelinePhase::Idle) } else { None },
        PipelinePhase::Failed(_) => if event is Reset { Some(PipelinePhase::Idle) } else { None },
    }
}

/// The phase an event leads to, or the error naming the phase and the refused event.
pub fn calculate_transition(current: &PipelinePhase, event: PipelineEvent) -> (r: Result<PipelinePhase, PipelineTransitionError>)
    ensures
        match transition(*current, event) {
            Some(p) => r == Ok::<PipelinePhase, PipelineTransitionError>(p),
            None => r == Err::<PipelinePhase, PipelineTransitionError>(PipelineTransitionError::InvalidTransition { from: *current, event }),
        },
{
    let accepted = match current {
        PipelinePhase::Idle => match &event {
            PipelineEvent::Start => Some(PipelinePhase::ResolvingConflicts),
            _ => None,
        },
        PipelinePhase::ResolvingConflicts => match &event {
            PipelineEvent::ConflictsResolved => Some(PipelinePhase::Applying),
            PipelineEvent::Failed(PipelineFailure::ConflictResolution(_)) => Some(event.clone().into_failed_phase()),
            _ => None,
        },
        PipelinePhase::Applying => match &event {
            PipelineEvent::Applied => Some(PipelinePhase::Validating),
            PipelineEvent::Failed(PipelineFailure::Apply(_)) => Some(event.clone().into_failed_phase()),
            _ => None,
        },
        PipelinePhase::Validating => match &event {
            PipelineEvent::Validated => Some(PipelinePhase::AppendingHistory),
            PipelineEvent::Failed(PipelineFailure::Validation(_)) => Some(event.clone().into_failed_phase()),
            _ => None,
        },
        PipelinePhase::AppendingHistory => match &event {
            PipelineEvent::HistoryAppended => Some(PipelinePhase::Completed),
            _ => None,
        },
        PipelinePhase::Completed => match &event {
            PipelineEvent::Reset => Some(PipelinePhase::Idle),
            _ => None,
        },
        PipelinePhase::Failed(_) => match &event {
            PipelineEvent::Reset => Some(PipelinePhase::Idle),
            _ => None,
        },
    };
    match accepted {
        Some(p) => Ok(p),
        None => Err(PipelineTransitionError::InvalidTransition { from: current.clone(), event }),
    }
}

impl PipelineEvent {
    /// The failed phase a failure event leads to (an apply failure with an empty
    /// schema error for any other event).
    pub fn into_failed_phase(self) -> (p: PipelinePhase)
        ensures
            self matches PipelineEvent::Failed(f) ==> p == PipelinePhase::Failed(f),
            !(self is Failed) ==> (p matches PipelinePhase::Failed(PipelineFailure::Apply(MutationError::Schema(s))) && s@.len() == 0),
    {
        match self {
            PipelineEvent::Failed(f) => PipelinePhase::Failed(f),
            _ => PipelinePhase::Failed(PipelineFailure::Apply(MutationError::Schema(String::new()))),
        }
    }
}

/// How a run of the pipeline ended: its last phase, its result and every phase it went
/// through.
#[derive(Debug, PartialEq)]
pub struct PipelineOutcome {
    pub phase: PipelinePhase,
    pub result: Result<DiagramDocument, MutationError>,
    pub trace: Vec<PipelinePhase>,
}

/// Move on by one event: the phase the event leads to, recorded in the trace; a
/// refused event leaves the phase and the trace as they were.
pub fn advance(current: &PipelinePhase, event: PipelineEvent, trace: &mut Vec<PipelinePhase>) -> (p: PipelinePhase)
    ensures
        match transition(*current, event) {
            Some(q) => p == q && final(trace)@ == old(trace)@.push(q),
            None => p == *current && final(trace)@ == old(trace)@,
        },
{
    let next = calculate_transition(current, event);
    match next {
        Ok(p) => {
            trace.push(p.clone());
            p
        },
        Err(_) => current.clone(),
    }
}

/// The error a failed phase carries (a schema error for any other phase).
pub fn extract_failure(phase: &PipelinePhase) -> (r: Result<DiagramDocument, MutationError>)
    ensures
        match *phase {
            PipelinePhase::Failed(PipelineFailure::ConflictResolution(e)) => r == Err::<DiagramDocument, MutationError>(e),
            PipelinePhase::Failed(PipelineFailure::Apply(e)) => r == Err::<DiagramDocument, MutationError>(e),
            PipelinePhase::Failed(PipelineFailure::Validation(e)) => r == Err::<DiagramDocument, MutationError>(e),
            _ => (r matches Err(MutationError::Schema(s)) && s@ == "unexpected pipeline state"@),
        },
{
    match phase {
        PipelinePhase::Failed(PipelineFailure::ConflictResolution(e)) => Err(e.clone()),
        PipelinePhase::Failed(PipelineFailure::Apply(e)) => Err(e.clone()),
        PipelinePhase::Failed(PipelineFailure::Validation(e)) => Err(e.clone()),
        _ => {
            let s = String::from_str("unexpected pipeline state");
            proof {
                reveal_strlit("unexpected pipeline state");
            }
            Err(MutationError::Schema(s))
        },
    }
}

/// The document a successful run commits.
pub open spec fn committed(current: DiagramDocument, next: DiagramDocument, rp: RevisionPolicy) -> DiagramDocument {
    DiagramDocument { revision: committed_revision(current.revision, rp), ..next }
}

/// How a run ends, given what the transformation returned: an apply error fails the run
/// at `Applying`; otherwise validation decides whether it fails at `Validating` or
/// commits the document with the revision the policy gives.
pub open spec fn pipeline_outcome(
    current: DiagramDocument,
    rp: RevisionPolicy,
    vp: ValidationPolicy,
    applied: Result<DiagramDocument, MutationError>,
    phase: PipelinePhase,
    result: Result<DiagramDocument, MutationError>,
    trace: Seq<PipelinePhase>,
) -> bool {
    match applied {
        Err(e) => {
            &&& phase == PipelinePhase::Failed(PipelineFailure::Apply(e))
            &&& result == Err::<DiagramDocument, MutationError>(e)
            &&& trace == seq![PipelinePhase::Idle, PipelinePhase::ResolvingConflicts, PipelinePhase::Applying, phase]
        },
        Ok(next) => exists|v: Result<(), MutationError>| #[trigger] validation_outcome(next, vp, v) && match v {
            Ok(()) => {
                &&& phase == PipelinePhase::Completed
                &&& result == Ok::<DiagramDocument, MutationError>(committed(current, next, rp))
                &&& trace == seq![PipelinePhase::Idle, PipelinePhase::ResolvingConflicts, PipelinePhase::Applying,
                    PipelinePhase::Validating, PipelinePhase::AppendingHistory, PipelinePhase::Completed]
            },
            Err(e) => {
                &&& phase == PipelinePhase::Failed(PipelineFailure::Validation(e))
                &&& result == Err::<DiagramDocument, MutationError>(e)
                &&& trace == seq![PipelinePhase::Idle, PipelinePhase::ResolvingConflicts, PipelinePhase::Applying,
                    PipelinePhase::Validating, phase]
            },
        },
    }
}

/// The result of a mutation, given what the transformation returned.
pub open spec fn mutation_result(
    current: DiagramDocument,
    rp: RevisionPolicy,
    vp: ValidationPolicy,
    applied: Result<DiagramDocument, MutationError>,
    r: Result<DiagramDocument, MutationError>,
) -> bool {
    match applied {
        Err(e) => r == Err::<DiagramDocument, MutationError>(e),
        Ok(next) => exists|v: Result<(), MutationError>| #[trigger] validation_outcome(next, vp, v) && match v {
            Ok(()) => r == Ok::<DiagramDocument, MutationError>(committed(current, next, rp)),
            Err(e) => r == Err::<DiagramDocument, MutationError>(e),
        },
    }
}

/// A mutation committed under validation is the transformed document, with the revision
/// the policy gives, and validation finds no issue in it.
pub proof fn lemma_committed_mutation_is_valid(
    current: DiagramDocument,
    rp: RevisionPolicy,
    applied: Result<DiagramDocument, MutationError>,
    r: Result<DiagramDocument, MutationError>,
)
    requires
        mutation_result(current, rp, ValidationPolicy::Validate, applied, r),
    ensures
        r matches Ok(d) ==> {
            &&& applied matches Ok(next) && d.document == next.document && d.version == next.version
                && d.editor_state == next.editor_state
            &&& d.revision == committed_revision(current.revision, rp)
            &&& crate::validation::are_document_issues(d.document, Seq::empty())
        },
{
    if let Ok(next) = applied {
        let v = choose|v: Result<(), MutationError>| #[trigger] validation_outcome(next, ValidationPolicy::Validate, v) && match v {
            Ok(()) => r == Ok::<DiagramDocument, MutationError>(committed(current, next, rp)),
            Err(e) => r == Err::<DiagramDocument, MutationError>(e),
        };
        if v is Ok {
            let issues = choose|issues: Seq<IssueView>| #[trigger] crate::validation::are_document_issues(next.document, issues)
                && issues.len() == 0;
            assert(issues =~= Seq::<IssueView>::empty());
        }
    }
}

/// The result of a run is the result of the mutation.
pub proof fn lemma_outcome_result(
    current: DiagramDocument,
    rp: RevisionPolicy,
    vp: ValidationPolicy,
    applied: Result<DiagramDocument, MutationError>,
    phase: PipelinePhase,
    result: Result<DiagramDocument, MutationError>,
    trace: Seq<PipelinePhase>,
)
    requires
        pipeline_outcome(current, rp, vp, applied, phase, result, trace),
    ensures
        mutation_result(current, rp, vp, applied, result),
{
    if let Ok(next) = applied {
        let v = choose|v: Result<(), MutationError>| #[trigger] validation_outcome(next, vp, v) && match v {
            Ok(()) => {
                &&& phase == PipelinePhase::Completed
                &&& result == Ok::<DiagramDocument, MutationError>(committed(current, next, rp))
                &&& trace == seq![PipelinePhase::Idle, PipelinePhase::ResolvingConflicts, PipelinePhase::Applying,
                    PipelinePhase::Validating, PipelinePhase::AppendingHistory, PipelinePhase::Completed]
            },
            Err(e) => {
                &&& phase == PipelinePhase::Failed(PipelineFailure::Validation(e))
                &&& result == Err::<DiagramDocument, MutationError>(e)
                &&& trace == seq![PipelinePhase::Idle, PipelinePhase::ResolvingConflicts, PipelinePhase::Applying,
                    PipelinePhase::Validating, phase]
            },
        };
        assert(validation_outcome(next, vp, v));
    }
}

/// Run the rest of the pipeline once the transformation has returned `applied`: the
/// run goes from `Idle` through conflict resolution to `Applying`, then fails there
/// on an error, or validates the new document and commits it.
pub fn finish_pipeline(
    current: &DiagramDocument,
    revision_policy: RevisionPolicy,
    validation_policy: ValidationPolicy,
    applied: Result<DiagramDocument, MutationError>,
) -> (o: PipelineOutcome)
    ensures
        pipeline_outcome(*current, revision_policy, validation_policy, applied, o.phase, o.result, o.trace@),
{
    let phase = PipelinePhase::Idle;
    let mut trace: Vec<PipelinePhase> = Vec::new();
    trace.push(PipelinePhase::Idle);
    let phase = advance(&phase, PipelineEvent::Start, &mut trace);
    let phase = advance(&phase, PipelineEvent::ConflictsResolved, &mut trace);
    match applied {
        Ok(next) => {
            let phase = advance(&phase, PipelineEvent::Applied, &mut trace);
            let checked = validate_stage(&next, validation_policy);
            match checked {
                Ok(()) => {
                    let phase = advance(&phase, PipelineEvent::Validated, &mut trace);
                    let result = append_stage(next, current, revision_policy);
                    let phase = advance(&phase, PipelineEvent::HistoryAppended, &mut trace);
                    assert(trace@ =~= seq![PipelinePhase::Idle, PipelinePhase::ResolvingConflicts, PipelinePhase::Applying,
                        PipelinePhase::Validating, PipelinePhase::AppendingHistory, PipelinePhase::Completed]);
                    PipelineOutcome { phase, result: Ok(result), trace }
                },
                Err(e) => {
                    let ghost ev = e;
                    let phase = advance(&phase, PipelineEvent::Failed(PipelineFailure::Validation(e)), &mut trace);
                    let err = extract_failure(&phase);
                    assert(trace@ =~= seq![PipelinePhase::Idle, PipelinePhase::ResolvingConflicts, PipelinePhase::Applying,
                        PipelinePhase::Validating, phase]);
                    assert(validation_outcome(next, validation_policy, Err::<(), MutationError>(ev)));
                    PipelineOutcome { phase, result: err, trace }
                },
            }
        },
        Err(e) => {
            let phase = advance(&phase, PipelineEvent::Failed(PipelineFailure::Apply(e)), &mut trace);
            let err = extract_failure(&phase);
            assert(trace@ =~= seq![PipelinePhase::Idle, PipelinePhase::ResolvingConflicts, PipelinePhase::Applying, phase]);
            PipelineOutcome { phase, result: err, trace }
        },
    }
}

/// Run a mutation through the pipeline: resolve conflicts, apply the transformation,
/// validate under the policy and append to the history, recording every phase.
pub fn run_pipeline<F>(
    current: &DiagramDocument,
    revision_policy: RevisionPolicy,
    validation_policy: ValidationPolicy,
    transform: F,
) -> (o: PipelineOutcome)
    where
        F: FnOnce(&DiagramDocument) -> Result<DiagramDocument, MutationError>,
    requires
        call_requires(transform, (current,)),
    ensures
        exists|applied: Result<DiagramDocument, MutationError>| #[trigger] call_ensures(transform, (current,), applied)
            && pipeline_outcome(*current, revision_policy, validation_policy, applied, o.phase, o.result, o.trace@),
{
    let resolved = resolve_conflicts_stage(current);
    match resolved {
        Ok(()) => {},
        Err(e) => {
            assert(false);
            let mut trace: Vec<PipelinePhase> = Vec::new();
            trace.push(PipelinePhase::Idle);
            let phase = advance(&PipelinePhase::Idle, PipelineEvent::Start, &mut trace);
            let phase = advance(&phase, PipelineEvent::Failed(PipelineFailure::ConflictResolution(e)), &mut trace);
            let err = extract_failure(&phase);
            return PipelineOutcome { phase, result: err, trace };
        },
    }
    let applied = apply_stage(current, transform);
    let o = finish_pipeline(current, revision_policy, validation_policy, applied);
    o
}

/// The position of a phase along a successful run.
pub open spec fn stage_index(p: PipelinePhase) -> int {
    match p {
        PipelinePhase::Idle => 0,
        PipelinePhase::ResolvingConflicts => 1,
        PipelinePhase::Applying => 2,
        PipelinePhase::Validating => 3,
        PipelinePhase::AppendingHistory => 4,
        PipelinePhase::Completed => 5,
        PipelinePhase::Failed(_) => 6,
    }
}

/// Some event leads from `p` to `q`.
pub open spec fn can_step(p: PipelinePhase, q: PipelinePhase) -> bool {
    exists|e: PipelineEvent| #[trigger] transition(p, e) == Some(q)
}

/// A terminal phase (`Completed` or `Failed`) accepts no event but `Reset`, which
/// leads back to `Idle`.
pub proof fn lemma_terminal_phases_only_reset(p: PipelinePhase, e: PipelineEvent)
    requires
        p is Completed || p is Failed,
    ensures
        transition(p, e) is Some <==> e is Reset,
        transition(p, e) is Some ==> transition(p, e) == Some(PipelinePhase::Idle),
{
}

/// `Idle` accepts `Start` and nothing else: every run starts there.
pub proof fn lemma_idle_only_start(e: PipelineEvent)
    ensures
        transition(PipelinePhase::Idle, e) is Some <==> e is Start,
{
}

/// `Failed` is reached only from an active stage, and only with that stage's failure.
pub proof fn lemma_failure_only_from_active_stage(p: PipelinePhase, e: PipelineEvent, f: PipelineFailure)
    requires
        transition(p, e) == Some(PipelinePhase::Failed(f)),
    ensures
        p is ResolvingConflicts && f is ConflictResolution
            || p is Applying && f is Apply
            || p is Validating && f is Validation,
        e == PipelineEvent::Failed(f),
{
}

/// Every forward transition advances exactly one stage: no stage is skipped.
pub proof fn lemma_transition_advances_one_stage(p: PipelinePhase, e: PipelineEvent, q: PipelinePhase)
    requires
        transition(p, e) == Some(q),
        !(q is Failed),
        !(q is Idle),
    ensures
        stage_index(q) == stage_index(p) + 1,
{
}

/// Every run ends in `Completed` or `Failed`; its trace starts at `Idle`, ends at the
/// final phase, and each phase in it leads to the next by one accepted event.
pub proof fn lemma_run_trace(
    current: DiagramDocument,
    rp: RevisionPolicy,
    vp: ValidationPolicy,
    applied: Result<DiagramDocument, MutationError>,
    phase: PipelinePhase,
    result: Result<DiagramDocument, MutationError>,
    trace: Seq<PipelinePhase>,
)
    requires
        pipeline_outcome(current, rp, vp, applied, phase, result, trace),
    ensures
        phase is Completed || phase is Failed,
        trace.len() > 0,
        trace[0] == PipelinePhase::Idle,
        trace.last() == phase,
        forall|i: int| 0 <= i < trace.len() - 1 ==> can_step(#[trigger] trace[i], trace[i + 1]),
        result is Ok <==> phase is Completed,
{
    assert(transition(PipelinePhase::Idle, PipelineEvent::Start) == Some(PipelinePhase::ResolvingConflicts));
    assert(transition(PipelinePhase::ResolvingConflicts, PipelineEvent::ConflictsResolved) == Some(PipelinePhase::Applying));
    assert(transition(PipelinePhase::Applying, PipelineEvent::Applied) == Some(PipelinePhase::Validating));
    assert(transition(PipelinePhase::Validating, PipelineEvent::Validated) == Some(PipelinePhase::AppendingHistory));
    assert(transition(PipelinePhase::AppendingHistory, PipelineEvent::HistoryAppended) == Some(PipelinePhase::Completed));
    match applied {
        Err(e) => {
            assert(transition(PipelinePhase::Applying, PipelineEvent::Failed(PipelineFailure::Apply(e))) == Some(phase));
            assert forall|i: int| 0 <= i < trace.len() - 1 implies can_step(#[trigger] trace[i], trace[i + 1]) by {
                if i == 2 {
                    assert(transition(trace[i], PipelineEvent::Failed(PipelineFailure::Apply(e))) == Some(trace[i + 1]));
                }
            }
        },
        Ok(next) => {
            let v = choose|v: Result<(), MutationError>| #[trigger] validation_outcome(next, vp, v) && match v {
                Ok(()) => {
                    &&& phase == PipelinePhase::Completed
                    &&& result == Ok::<DiagramDocument, MutationError>(committed(current, next, rp))
                    &&& trace == seq![PipelinePhase::Idle, PipelinePhase::ResolvingConflicts, PipelinePhase::Applying,
                        PipelinePhase::Validating, PipelinePhase::AppendingHistory, PipelinePhase::Completed]
                },
                Err(e) => {
                    &&& phase == PipelinePhase::Failed(PipelineFailure::Validation(e))
                    &&& result == Err::<DiagramDocument, MutationError>(e)
                    &&& trace == seq![PipelinePhase::Idle, PipelinePhase::ResolvingConflicts, PipelinePhase::Applying,
                        PipelinePhase::Validating, phase]
                },
            };
            match v {
                Ok(()) => {
                    assert forall|i: int| 0 <= i < trace.len() - 1 implies can_step(#[trigger] trace[i], trace[i + 1]) by {
                        if i == 0 { assert(transition(trace[i], PipelineEvent::Start) == Some(trace[i + 1])); }
                        if i == 1 { assert(transition(trace[i], PipelineEvent::ConflictsResolved) == Some(trace[i + 1])); }
                        if i == 2 { assert(transition(trace[i], PipelineEvent::Applied) == Some(trace[i + 1])); }
                        if i == 3 { assert(transition(trace[i], PipelineEvent::Validated) == Some(trace[i + 1])); }
                        if i == 4 { assert(transition(trace[i], PipelineEvent::HistoryAppended) == Some(trace[i + 1])); }
                    }
                },
                Err(e) => {
                    assert forall|i: int| 0 <= i < trace.len() - 1 implies can_step(#[trigger] trace[i], trace[i + 1]) by {
                        if i == 0 { assert(transition(trace[i], PipelineEvent::Start) == Some(trace[i + 1])); }
                        if i == 1 { assert(transition(trace[i], PipelineEvent::ConflictsResolved) == Some(trace[i + 1])); }
                        if i == 2 { assert(transition(trace[i], PipelineEvent::Applied) == Some(trace[i + 1])); }
                        if i == 3 {
                            assert(transition(trace[i], PipelineEvent::Failed(PipelineFailure::Validation(e))) == Some(trace[i + 1]));
                        }
                    }
                },
            }
        },
    }
}

} // verus!
