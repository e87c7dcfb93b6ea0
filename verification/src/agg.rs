use vstd::prelude::*;
use crate::stats::{TrafficEvent, sat_add64};
use crate::table::{CounterTable, table_apply};

verus! {

/// The count half of the persistence trigger: counting the event being
/// applied, the events seen since the last flush reach the threshold.
pub open spec fn count_fire(count_threshold: u64, events_since_flush: u64) -> bool {
    sat_add64(events_since_flush as int, 1) >= count_threshold
}

/// The wall-clock half of the persistence trigger: at least the threshold of
/// milliseconds has passed since the last flush.  A clock that moved
/// backwards counts as no time passed.
pub open spec fn time_fire(time_threshold_ms: u64, last_flush_ms: u64, now_ms: u64) -> bool {
    (if now_ms >= last_flush_ms {
        now_ms - last_flush_ms
    } else {
        0int
    }) >= time_threshold_ms
}

/// The single consumer of all capture workers' events.  It owns the counter
/// table exclusively, applies each event to it, and evaluates the
/// persistence trigger after every applied event.
///
/// The caller runs the channel loop and, whenever `handle_event` says so,
/// writes the snapshot out; the trigger baselines are reset here whether or
/// not that write then succeeds.
pub struct Aggregator {
    pub table: CounterTable,
    pub count_threshold: u64,
    pub time_threshold_ms: u64,
    pub events_since_flush: u64,
    pub last_flush_ms: u64,
}

impl Aggregator {
    pub open spec fn wf(self) -> bool {
        self.table.wf()
    }

    /// Whether applying one more event at `now_ms` must trigger a flush:
    /// either threshold reached fires it.
    pub open spec fn flush_due(self, now_ms: u64) -> bool {
        count_fire(self.count_threshold, self.events_since_flush) || time_fire(
            self.time_threshold_ms,
            self.last_flush_ms,
            now_ms,
        )
    }

    /// A fresh aggregator with an empty table; `now_ms` starts the clock of
    /// the time threshold.
    pub fn new(count_threshold: u64, time_threshold_ms: u64, now_ms: u64) -> (r: Self)
        ensures
            r.wf(),
            r.table@ == Map::<Seq<u8>, Map<crate::stats::IpAddress, crate::stats::PacketStats>>::empty(),
            r.count_threshold == count_threshold,
            r.time_threshold_ms == time_threshold_ms,
            r.events_since_flush == 0,
            r.last_flush_ms == now_ms,
    {
        Aggregator {
            table: CounterTable::new(),
            count_threshold,
            time_threshold_ms,
            events_since_flush: 0,
            last_flush_ms: now_ms,
        }
    }

    /// Replace the table with one loaded from a snapshot; later events add
    /// to the loaded totals.
    pub fn load_table(&mut self, table: CounterTable)
        requires
            table.wf(),
        ensures
            final(self).wf(),
            final(self).table == table,
            final(self).count_threshold == old(self).count_threshold,
            final(self).time_threshold_ms == old(self).time_threshold_ms,
            final(self).events_since_flush == old(self).events_since_flush,
            final(self).last_flush_ms == old(self).last_flush_ms,
    {
        self.table = table;
    }

    /// Apply one event to the table, count it, and evaluate the persistence
    /// trigger.  Returns whether the caller must flush the table now; the
    /// event counter and the time baseline are reset on a flush, whether or
    /// not the write that the caller then attempts succeeds.
    pub fn handle_event(&mut self, e: TrafficEvent, now_ms: u64) -> (flushed: bool)
        requires
            old(self).wf(),
        ensures
            final(self).wf(),
            flushed == old(self).flush_due(now_ms),
            final(self).table@ == table_apply(old(self).table@, e.interface@, e.source_ip, e.frame_size),
            final(self).count_threshold == old(self).count_threshold,
            final(self).time_threshold_ms == old(self).time_threshold_ms,
            final(self).events_since_flush == if flushed {
                0u64
            } else {
                sat_add64(old(self).events_since_flush as int, 1)
            },
            final(self).last_flush_ms == if flushed {
                now_ms
            } else {
                old(self).last_flush_ms
            },
    {
        self.table.apply_event(e);
        self.events_since_flush = self.events_since_flush.saturating_add(1);
        let elapsed = if now_ms >= self.last_flush_ms {
            now_ms - self.last_flush_ms
        } else {
            0
        };
        let flushed = elapsed >= self.time_threshold_ms
            || self.events_since_flush >= self.count_threshold;
        if flushed {
            self.events_since_flush = 0;
            self.last_flush_ms = now_ms;
        }
        flushed
    }
}

/// The event counter after a run of `j` events from a fresh flush during
/// which the time threshold never fires, under count threshold `k`: the rule
/// of `Aggregator::handle_event` restricted to its count half.
pub open spec fn events_run(k: u64, j: nat) -> u64
    decreases j,
{
    if j == 0 {
        0
    } else {
        let e = events_run(k, (j - 1) as nat);
        if count_fire(k, e) {
            0
        } else {
            sat_add64(e as int, 1)
        }
    }
}

/// How many flushes such a run has triggered.
pub open spec fn flushes_run(k: u64, j: nat) -> nat
    decreases j,
{
    if j == 0 {
        0
    } else {
        flushes_run(k, (j - 1) as nat) + if count_fire(k, events_run(k, (j - 1) as nat)) {
            1nat
        } else {
            0nat
        }
    }
}

/// Flush bound by volume: with count threshold `k`, a run from a fresh
/// flush in which the time threshold never fires triggers no flush over its
/// first `k - 1` events, and exactly one flush once the `k`-th event has
/// been applied, which also resets the event counter.
pub proof fn lemma_flush_bound_count(k: u64, j: nat)
    requires
        1 <= k,
    ensures
        j < k ==> flushes_run(k, j) == 0 && events_run(k, j) == j,
        j == k ==> flushes_run(k, j) == 1 && events_run(k, j) == 0,
    decreases j,
{
    if j > 0 {
        lemma_flush_bound_count(k, (j - 1) as nat);
    }
}

/// Flush bound by time: however few events have been counted since the last
/// flush, once the time threshold has elapsed, the very next applied event
/// triggers a flush.
pub proof fn lemma_flush_bound_time(s: Aggregator, now_ms: u64)
    requires
        time_fire(s.time_threshold_ms, s.last_flush_ms, now_ms),
    ensures
        s.flush_due(now_ms),
{
}

} // verus!
