use vstd::prelude::*;

use crate::log::{LogLevel, LogPageEntry, Timestamp};

verus! {

/// The query of the job results listing: the job whose results are listed,
/// if only one job's are.
pub struct JobResultsQuery {
    pub job_id: Option<String>,
}

/// How many records a log page holds when the query names no limit.
pub const DEFAULT_LOG_PAGE_LIMIT: usize = 200;

/// The query of a log page: read after `after`, or before `before`, at most
/// `limit` records.
pub struct LogsQuery {
    pub after: Option<u64>,
    pub before: Option<u64>,
    pub limit: Option<usize>,
}

impl LogsQuery {
    /// The number of records asked for: `limit`, or `DEFAULT_LOG_PAGE_LIMIT`.
    pub fn page_limit(&self) -> (limit: usize)
        ensures
            limit == (match self.limit {
                Some(l) => l,
                None => DEFAULT_LOG_PAGE_LIMIT,
            }),
    {
        match self.limit {
            Some(l) => l,
            None => DEFAULT_LOG_PAGE_LIMIT,
        }
    }
}

/// A log record as the log API returns it, with the offsets of its line.
pub struct LogItem {
    pub start_offset: u64,
    pub end_offset: u64,
    pub timestamp: Timestamp,
    pub level: LogLevel,
    pub message: String,
    pub step_name: String,
}

/// Whether `item` carries the offsets and the record of `entry`.
pub open spec fn item_of(item: LogItem, entry: LogPageEntry) -> bool {
    &&& item.start_offset == entry.start_offset
    &&& item.end_offset == entry.end_offset
    &&& item.timestamp == entry.log.timestamp
    &&& item.level == entry.log.level
    &&& item.message == entry.log.message
    &&& item.step_name == entry.log.step_name
}

impl LogItem {
    /// The item for a page entry.
    pub fn from_entry(entry: LogPageEntry) -> (item: LogItem)
        ensures
            item_of(item, entry),
    {
        LogItem {
            start_offset: entry.start_offset,
            end_offset: entry.end_offset,
            timestamp: entry.log.timestamp,
            level: entry.log.level,
            message: entry.log.message,
            step_name: entry.log.step_name,
        }
    }
}

/// The items for the entries of a log page, in order.
pub fn log_items(entries: Vec<LogPageEntry>) -> (items: Vec<LogItem>)
    ensures
        items@.len() == entries@.len(),
        forall|i: int| 0 <= i < entries@.len() ==> item_of(#[trigger] items@[i], entries@[i]),
{
    let ghost all = entries@;
    let mut rest = entries;
    let mut reversed: Vec<LogItem> = Vec::new();
    while rest.len() > 0
        invariant
            rest@ == all.take(rest@.len() as int),
            rest@.len() + reversed@.len() == all.len(),
            forall|i: int|
                0 <= i < reversed@.len() ==> item_of(#[trigger] reversed@[i], all[all.len() - 1 - i]),
        decreases rest@.len(),
    {
        let ghost before = rest@;
        match rest.pop() {
            Some(entry) => {
                reversed.push(LogItem::from_entry(entry));
                assert(rest@ =~= all.take(rest@.len() as int));
            },
            None => {},
        }
    }
    let mut items: Vec<LogItem> = Vec::new();
    while reversed.len() > 0
        invariant
            reversed@.len() + items@.len() == all.len(),
            forall|i: int|
                0 <= i < reversed@.len() ==> item_of(#[trigger] reversed@[i], all[all.len() - 1 - i]),
            forall|i: int| 0 <= i < items@.len() ==> item_of(#[trigger] items@[i], all[i]),
        decreases reversed@.len(),
    {
        match reversed.pop() {
            Some(item) => {
                items.push(item);
            },
            None => {},
        }
    }
    items
}

} // verus!
