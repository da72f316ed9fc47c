//! The counters that a queue keeps and the snapshot it gives of them.

use crate::clock;
use vstd::prelude::*;

verus! {

/// The version of this library, as the snapshots report it.
pub const VERSION: &'static str = "0.1.0";

/// A snapshot of a queue's statistics.
#[derive(Clone, Debug)]
pub struct PQueueStats {
    /// The whole seconds since the queue was made.
    pub uptime: i64,
    /// The version of this library.
    pub version: String,
    /// The count of updates accepted since the queue was made.
    pub updates: i64,
    /// The count of items in the queue.
    pub items: i64,
    /// The count of score pools in the queue: a pool is the set of items with
    /// one score.
    pub pools: i64,
}

/// A snapshot, as mathematics.
pub struct StatsView {
    pub uptime: i64,
    pub version: Seq<char>,
    pub updates: i64,
    pub items: i64,
    pub pools: i64,
}

impl View for PQueueStats {
    type V = StatsView;

    open spec fn view(&self) -> StatsView {
        StatsView {
            uptime: self.uptime,
            version: self.version@,
            updates: self.updates,
            items: self.items,
            pools: self.pools,
        }
    }
}

/// The counters of a queue, kept while it lives.
pub struct PQueueStatsTracker {
    /// When the queue was made.
    pub start_time: chrono::NaiveDateTime,
    /// The count of updates accepted.
    pub updates: i64,
    /// The count of items in the queue.
    pub items: i64,
    /// The count of score pools in the queue.
    pub pools: i64,
}

impl PQueueStatsTracker {
    /// The whole seconds from the start of this tracker to now.
    ///
    /// The result is read off the clock, so nothing is known of it.
    pub fn uptime(&self) -> i64 {
        let now = clock::now();
        let delta = clock::span(&self.start_time, &now);
        clock::whole_seconds(&delta)
    }
}

impl PQueueStats {
    /// The snapshot of `tracker` for a queue that has been up for `uptime`
    /// seconds.
    pub fn at(tracker: &PQueueStatsTracker, uptime: i64) -> (stats: Self)
        ensures
            stats.uptime == uptime,
            stats.version@ == VERSION@,
            stats.updates == tracker.updates,
            stats.items == tracker.items,
            stats.pools == tracker.pools,
    {
        PQueueStats {
            uptime,
            version: VERSION.to_string(),
            updates: tracker.updates,
            items: tracker.items,
            pools: tracker.pools,
        }
    }

    /// The snapshot of `tracker` as of now. The uptime is read off the clock;
    /// the rest is what the tracker holds.
    pub fn from(tracker: &PQueueStatsTracker) -> (stats: Self)
        ensures
            stats.version@ == VERSION@,
            stats.updates == tracker.updates,
            stats.items == tracker.items,
            stats.pools == tracker.pools,
    {
        let uptime: i64 = tracker.uptime();
        PQueueStats::at(tracker, uptime)
    }
}

} // verus!
