//! The transaction log of a database.
use vstd::prelude::*;
use crate::config::MAX_LOG_ENTRIES;

verus! {

/// One recorded change.
#[derive(Debug, Clone)]
pub struct LogEntry {
    pub timestamp: u64,
    pub action: String,
    pub table: String,
    pub details: Option<String>,
}

/// Seconds since the Unix epoch, as the system clock reads now (zero when the
/// clock is before the epoch). Nothing is promised of the value: it is the
/// clock's.
#[verifier::external_body]
fn unix_time_secs() -> u64 {
    std::time::SystemTime::now().duration_since(std::time::UNIX_EPOCH).unwrap_or_default().as_secs()
}

/// Whether `e` records `action` on `table` with `details`.
pub open spec fn entry_is(e: LogEntry, action: Seq<char>, table: Seq<char>, details: Option<Seq<char>>) -> bool {
    &&& e.action@ == action
    &&& e.table@ == table
    &&& match (e.details, details) {
        (Some(d), Some(x)) => d@ == x,
        (None, None) => true,
        _ => false,
    }
}

impl LogEntry {
    /// An entry for `action` on `table`, stamped with the current time.
    pub fn new(action: &str, table: &str, details: Option<String>) -> (r: LogEntry)
        ensures
            r.action@ == action@,
            r.table@ == table@,
            r.details == details,
    {
        let timestamp = unix_time_secs();
        LogEntry::with_timestamp(timestamp, action, table, details)
    }

    /// An entry for `action` on `table` with the given time stamp.
    pub fn with_timestamp(timestamp: u64, action: &str, table: &str, details: Option<String>) -> (r: LogEntry)
        ensures
            r.timestamp == timestamp,
            r.action@ == action@,
            r.table@ == table@,
            r.details == details,
    {
        LogEntry { timestamp, action: action.to_string(), table: table.to_string(), details }
    }
}

/// The log that [`trim_logs_if_needed`] leaves: the newest
/// `MAX_LOG_ENTRIES` entries, in order.
pub open spec fn trimmed_log(logs: Seq<LogEntry>) -> Seq<LogEntry> {
    if logs.len() > MAX_LOG_ENTRIES {
        logs.subrange(logs.len() - MAX_LOG_ENTRIES, logs.len() as int)
    } else {
        logs
    }
}

/// Drops the oldest entries so that at most `MAX_LOG_ENTRIES` remain.
pub fn trim_logs_if_needed(logs: &mut Vec<LogEntry>)
    ensures
        final(logs)@ == trimmed_log(old(logs)@),
        final(logs)@.len() <= MAX_LOG_ENTRIES,
{
    if logs.len() > MAX_LOG_ENTRIES {
        let drain_up_to = logs.len() - MAX_LOG_ENTRIES;
        let kept = logs.split_off(drain_up_to);
        *logs = kept;
    }
}

} // verus!
