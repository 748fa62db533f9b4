//! Snapshots of a projection and the replay of the events that follow them.
//!
//! Reading and writing snapshots is database I/O and happens outside this library;
//! the decisions in between (is a snapshot current, how the tail after it is
//! numbered and replayed) are made here.

use vstd::prelude::*;

use crate::projection::{
    empty_view, outcome_view, replay_error_text, CyclePolicy, DiagramProjection, EventRecord,
    ProjectionView, ReplayErrorView,
};
use crate::replay::{replay_events, replay_events_from, replay_from_outcome};
use crate::stored_rows::{decode_problem, decode_row, row_event, StoredRow};
use crate::text::{concat_str, decimal, u64_to_decimal};

verus! {

/// Errors of snapshot handling.
#[derive(Debug, Clone, PartialEq, Eq)]
pub enum SnapshotError {
    /// The projection is behind the store.
    SnapshotStale { expected: u64, found: u64 },
    /// Encoding or decoding failed.
    Serialization(String),
    /// The database failed.
    Sqlx(String),
    /// Replaying the tail failed.
    Replay(String),
}

impl SnapshotError {
    /// The error's text.
    pub fn to_string(&self) -> (s: String)
        ensures
            self matches SnapshotError::Replay(m) ==> s@ == "replay error: "@ + m@,
            self matches SnapshotError::Serialization(m) ==> s@ == "serialization error: "@ + m@,
            self matches SnapshotError::Sqlx(m) ==> s@ == "SQLx error: "@ + m@,
            self matches SnapshotError::SnapshotStale { expected, found } ==> s@
                == "snapshot revision is stale: expected at least "@ + decimal(expected as nat) + ", found "@ + decimal(found as nat),
    {
        match self {
            SnapshotError::SnapshotStale { expected, found } => {
                let mut s = String::from_str("snapshot revision is stale: expected at least ");
                let e = u64_to_decimal(*expected);
                s.append(e.as_str());
                s.append(", found ");
                let f = u64_to_decimal(*found);
                s.append(f.as_str());
                s
            },
            SnapshotError::Serialization(m) => concat_str("serialization error: ", m.as_str()),
            SnapshotError::Sqlx(m) => concat_str("SQLx error: ", m.as_str()),
            SnapshotError::Replay(m) => concat_str("replay error: ", m.as_str()),
        }
    }
}

/// Metadata of a stored snapshot.
#[derive(Debug, Clone, Copy, PartialEq, Eq, Structural)]
pub struct SnapshotMeta {
    /// Identifier of the snapshot row.
    pub id: i64,
    /// Revision the snapshot holds.
    pub revision: u64,
    /// Unix time of creation.
    pub created_at: i64,
}

/// A snapshot may only be written of a projection at the store's latest revision.
pub fn check_snapshot_current(projection_revision: u64, current_revision: i64) -> (r: Result<(), SnapshotError>)
    ensures
        r is Ok <==> projection_revision == current_revision as u64,
        r is Err ==> r == Err::<(), SnapshotError>(SnapshotError::SnapshotStale {
            expected: current_revision as u64,
            found: projection_revision,
        }),
{
    let current = current_revision as u64;
    if projection_revision != current {
        return Err(SnapshotError::SnapshotStale { expected: current, found: projection_revision });
    }
    Ok(())
}

/// The metadata of a snapshot row; the stored revision is read as unsigned.
pub fn snapshot_meta_from_row(id: i64, revision: i64, created_at: i64) -> (m: SnapshotMeta)
    ensures
        m == (SnapshotMeta { id, revision: revision as u64, created_at }),
{
    SnapshotMeta { id, revision: revision as u64, created_at }
}

/// The event with another revision.
pub open spec fn with_revision(e: EventRecord, revision: u64) -> EventRecord {
    EventRecord { revision, ..e }
}

/// Store revisions count from one; a projection counts the events it has applied.
/// Each tail event's revision moves down by one (stopping at zero).
pub open spec fn shifted(events: Seq<EventRecord>) -> Seq<EventRecord> {
    Seq::new(events.len(), |i: int| with_revision(events[i], if events[i].revision == 0 { 0 } else { (events[i].revision - 1) as u64 }))
}

/// Each event numbered by its position.
pub open spec fn numbered(events: Seq<EventRecord>) -> Seq<EventRecord> {
    Seq::new(events.len(), |i: int| with_revision(events[i], i as u64))
}

/// Move every event's revision down by one, stopping at zero.
pub fn shift_tail_revisions(events: Vec<EventRecord>) -> (r: Vec<EventRecord>)
    ensures
        r@ == shifted(events@),
{
    let ghost orig = events@;
    let mut events = events;
    let mut out: Vec<EventRecord> = Vec::new();
    while events.len() > 0
        invariant
            out@.len() + events@.len() == orig.len(),
            events@ == orig.subrange(out@.len() as int, orig.len() as int),
            forall|j: int| 0 <= j < out@.len() ==> #[trigger] out@[j] == shifted(orig)[j],
        decreases events.len(),
    {
        let ghost k = out@.len();
        let e = events.remove(0);
        assert(e == orig[k as int]);
        let revision = e.revision.saturating_sub(1);
        out.push(EventRecord { revision, ..e });
        assert(events@ =~= orig.subrange(out@.len() as int, orig.len() as int));
    }
    assert(out@ =~= shifted(orig));
    out
}

/// Number every event by its position.
pub fn number_from_zero(events: Vec<EventRecord>) -> (r: Vec<EventRecord>)
    requires
        events@.len() <= u64::MAX,
    ensures
        r@ == numbered(events@),
{
    let ghost orig = events@;
    let mut events = events;
    let mut out: Vec<EventRecord> = Vec::new();
    while events.len() > 0
        invariant
            out@.len() + events@.len() == orig.len(),
            orig.len() <= u64::MAX,
            events@ == orig.subrange(out@.len() as int, orig.len() as int),
            forall|j: int| 0 <= j < out@.len() ==> #[trigger] out@[j] == numbered(orig)[j],
        decreases events.len(),
    {
        let ghost k = out@.len();
        let e = events.remove(0);
        assert(e == orig[k as int]);
        let revision = out.len() as u64;
        out.push(EventRecord { revision, ..e });
        assert(events@ =~= orig.subrange(out@.len() as int, orig.len() as int));
    }
    assert(out@ =~= numbered(orig));
    out
}

/// The outcome of a replay, as a snapshot result: a replay error becomes a snapshot
/// replay error carrying its text.
pub open spec fn as_snapshot_result(res: Result<ProjectionView, ReplayErrorView>, r: Result<DiagramProjection, SnapshotError>) -> bool {
    match res {
        Ok(s) => r matches Ok(p) && p@ == s,
        Err(x) => r matches Err(SnapshotError::Replay(m)) && m@ == replay_error_text(x),
    }
}

/// Replay the events that follow a snapshot on top of it: none leaves the snapshot as
/// it is; otherwise their revisions move down by one and they are replayed from it.
pub fn replay_after_snapshot(base: DiagramProjection, events: Vec<EventRecord>) -> (r: Result<DiagramProjection, SnapshotError>)
    requires
        base.revision + events@.len() <= u64::MAX,
    ensures
        events@.len() == 0 ==> r == Ok::<DiagramProjection, SnapshotError>(base),
        events@.len() > 0 ==> exists|res: Result<ProjectionView, ReplayErrorView>|
            #[trigger] replay_from_outcome(base@, shifted(events@), res) && as_snapshot_result(res, r),
{
    if events.len() == 0 {
        return Ok(base);
    }
    let ghost b = base@;
    let adjusted = shift_tail_revisions(events);
    let replayed = replay_events_from(base, adjusted.as_slice());
    let ghost res = outcome_view(replayed);
    assert(replay_from_outcome(b, shifted(events@), res));
    match replayed {
        Ok(p) => Ok(p),
        Err(e) => Err(SnapshotError::Replay(e.to_string())),
    }
}

/// Replay the whole log when there is no snapshot: the events are numbered from zero
/// and replayed from the empty projection.
pub fn replay_without_snapshot(events: Vec<EventRecord>) -> (r: Result<DiagramProjection, SnapshotError>)
    requires
        events@.len() <= u64::MAX,
    ensures
        exists|res: Result<ProjectionView, ReplayErrorView>|
            #[trigger] replay_from_outcome(empty_view(0, CyclePolicy::Allow), numbered(events@), res) && as_snapshot_result(res, r),
{
    let adjusted = number_from_zero(events);
    let replayed = replay_events(adjusted.as_slice());
    let ghost res = outcome_view(replayed);
    assert(replay_from_outcome(empty_view(0, CyclePolicy::Allow), numbered(events@), res));
    match replayed {
        Ok(p) => Ok(p),
        Err(e) => Err(SnapshotError::Replay(e.to_string())),
    }
}

/// The events of the rows read for a replay after a snapshot, in order; a row that
/// does not decode is a serialization error, and the first such row is reported.
#[verifier::loop_isolation(false)]
pub fn decode_snapshot_rows(rows: Vec<StoredRow>) -> (r: Result<Vec<EventRecord>, SnapshotError>)
    ensures
        r is Ok <==> forall|i: int| 0 <= i < rows@.len() ==> decode_problem(#[trigger] rows@[i]) is None,
        r matches Ok(v) ==> v@.len() == rows@.len() && forall|i: int| 0 <= i < rows@.len() ==> v@[i] == row_event(#[trigger] rows@[i]),
        r matches Err(e) ==> exists|i: int| 0 <= i < rows@.len()
            && (forall|j: int| 0 <= j < i ==> decode_problem(#[trigger] rows@[j]) is None)
            && (decode_problem(#[trigger] rows@[i]) matches Some(m)
                && e matches SnapshotError::Serialization(t) && t@ == m),
{
    let ghost orig = rows@;
    let n: usize = rows.len();
    let mut rest = rows;
    let mut out: Vec<EventRecord> = Vec::new();
    let mut i: usize = 0;
    while rest.len() > 0
        invariant
            i <= orig.len(),
            orig.len() == n,
            rest@ == orig.subrange(i as int, orig.len() as int),
            out@.len() == i,
            forall|j: int| 0 <= j < i ==> decode_problem(#[trigger] orig[j]) is None,
            forall|j: int| 0 <= j < i ==> out@[j] == row_event(#[trigger] orig[j]),
        decreases rest.len(),
    {
        assert(rest@.len() == orig.len() - i);
        let row = rest.remove(0);
        assert(row == orig[i as int]);
        match decode_row(row) {
            Err(m) => {
                proof {
                    let k = i as int;
                    assert(decode_problem(orig[k]) is Some);
                }
                return Err(SnapshotError::Serialization(m));
            },
            Ok(ev) => {
                out.push(ev);
            },
        }
        i = i + 1;
        assert(rest@ =~= orig.subrange(i as int, orig.len() as int));
    }
    assert(i == orig.len());
    Ok(out)
}

} // verus!
