//! The SQL statements that set up the event store.

use vstd::prelude::*;

verus! {

/// The events table.
pub const SCHEMA_EVENTS_TABLE: &'static str = "
CREATE TABLE IF NOT EXISTS events (
    id TEXT NOT NULL PRIMARY KEY,
    revision INTEGER NOT NULL,
    event_type TEXT NOT NULL,
    payload TEXT NOT NULL,
    metadata TEXT NOT NULL DEFAULT '{}',
    created_at INTEGER NOT NULL DEFAULT (strftime('%s', 'now'))
)
";

/// The index of events by revision.
pub const SCHEMA_EVENTS_REVISION_INDEX: &'static str = "
CREATE INDEX IF NOT EXISTS idx_events_revision ON events(revision)
";

/// The index of events by type.
pub const SCHEMA_EVENTS_TYPE_INDEX: &'static str = "
CREATE INDEX IF NOT EXISTS idx_events_type ON events(event_type)
";

/// The snapshots table.
pub const SCHEMA_SNAPSHOTS_TABLE: &'static str = "
CREATE TABLE IF NOT EXISTS snapshots (
    id INTEGER NOT NULL PRIMARY KEY,
    revision INTEGER NOT NULL UNIQUE,
    payload TEXT NOT NULL,
    created_at INTEGER NOT NULL DEFAULT (strftime('%s', 'now'))
)
";

/// The index of snapshots by revision, newest first.
pub const SCHEMA_SNAPSHOTS_REVISION_INDEX: &'static str = "
CREATE INDEX IF NOT EXISTS idx_snapshots_revision ON snapshots(revision DESC)
";

/// The schema version table.
pub const SCHEMA_VERSION_TABLE: &'static str = "
CREATE TABLE IF NOT EXISTS schema_version (
    version INTEGER NOT NULL PRIMARY KEY,
    created_at INTEGER NOT NULL DEFAULT (strftime('%s', 'now'))
)
";

/// Every statement of the initial setup, in the order they are run: the version
/// table, the events table and its indexes, then the snapshots table and its index.
pub fn all_schema_statements() -> (r: Vec<&'static str>)
    ensures
        r@.len() == 6,
        r@[0]@ == SCHEMA_VERSION_TABLE@,
        r@[1]@ == SCHEMA_EVENTS_TABLE@,
        r@[2]@ == SCHEMA_EVENTS_REVISION_INDEX@,
        r@[3]@ == SCHEMA_EVENTS_TYPE_INDEX@,
        r@[4]@ == SCHEMA_SNAPSHOTS_TABLE@,
        r@[5]@ == SCHEMA_SNAPSHOTS_REVISION_INDEX@,
{
    let mut v: Vec<&'static str> = Vec::new();
    v.push(SCHEMA_VERSION_TABLE);
    v.push(SCHEMA_EVENTS_TABLE);
    v.push(SCHEMA_EVENTS_REVISION_INDEX);
    v.push(SCHEMA_EVENTS_TYPE_INDEX);
    v.push(SCHEMA_SNAPSHOTS_TABLE);
    v.push(SCHEMA_SNAPSHOTS_REVISION_INDEX);
    v
}

} // verus!
