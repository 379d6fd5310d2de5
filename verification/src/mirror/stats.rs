//! Statistics of a mirror: a report every five seconds.

use vstd::prelude::*;

use crate::source;
use crate::stats;

verus! {

/// Time between two reports.
pub const STATS_INTERVAL_US: u64 = 5_000_000;

/// One report. Averages are sums over updates; there is none without updates.
#[derive(Clone, Copy, Debug, PartialEq, Eq, Structural)]
pub struct MirrorReport {
    /// Time since the last report.
    pub elapsed_us: u64,
    pub updates: u32,
    pub total_bytes: u64,
    pub total_fragments: u64,
    pub total_latency_us: u64,
}

/// What has been counted since the last report.
pub struct StatisticsPrinter {
    name: &'static str,
    start_time: u64,
    updates: u32,
    total_bytes: u64,
    total_fragments: u64,
    total_latency_us: u64,
}

impl View for StatisticsPrinter {
    type V = (u64, MirrorReport);

    /// When counting began, and the report without its time.
    closed spec fn view(&self) -> (u64, MirrorReport) {
        (
            self.start_time,
            MirrorReport {
                elapsed_us: 0,
                updates: self.updates,
                total_bytes: self.total_bytes,
                total_fragments: self.total_fragments,
                total_latency_us: self.total_latency_us,
            },
        )
    }
}

/// A report of nothing.
pub open spec fn nothing() -> MirrorReport {
    MirrorReport {
        elapsed_us: 0,
        updates: 0,
        total_bytes: 0,
        total_fragments: 0,
        total_latency_us: 0,
    }
}

impl StatisticsPrinter {
    /// What the reports are headed with.
    pub closed spec fn heading(&self) -> Seq<char> {
        self.name@
    }

    /// Empty statistics, from `now` on.
    pub fn new(name: &'static str, now: u64) -> (s: StatisticsPrinter)
        ensures
            s@ == (now, nothing()),
            s.heading() == name@,
    {
        StatisticsPrinter {
            name,
            start_time: now,
            updates: 0,
            total_bytes: 0,
            total_fragments: 0,
            total_latency_us: 0,
        }
    }

    /// What the reports are headed with.
    pub fn name(&self) -> (n: &'static str)
        ensures
            n@ == self.heading(),
    {
        self.name
    }

    /// Counts one update.
    pub fn add_update(&mut self)
        ensures
            final(self)@ == (
                old(self)@.0,
                MirrorReport {
                    updates: ((old(self)@.1.updates + 1) % 0x1_0000_0000) as u32,
                    ..old(self)@.1
                },
            ),
            final(self).heading() == old(self).heading(),
    {
        self.updates = self.updates.wrapping_add(1);
    }

    /// Counts compressed bytes.
    pub fn add_bytes(&mut self, count: usize)
        ensures
            final(self)@ == (
                old(self)@.0,
                MirrorReport {
                    total_bytes: stats::wrapped(old(self)@.1.total_bytes as int, count as int),
                    ..old(self)@.1
                },
            ),
            final(self).heading() == old(self).heading(),
    {
        self.total_bytes = self.total_bytes.wrapping_add(count as u64);
    }

    /// Counts fragments.
    pub fn add_fragments(&mut self, count: u16)
        ensures
            final(self)@ == (
                old(self)@.0,
                MirrorReport {
                    total_fragments: stats::wrapped(old(self)@.1.total_fragments as int, count as int),
                    ..old(self)@.1
                },
            ),
            final(self).heading() == old(self).heading(),
    {
        self.total_fragments = self.total_fragments.wrapping_add(count as u64);
    }

    /// Counts the latency of an update.
    pub fn add_latency(&mut self, latency_us: u64)
        ensures
            final(self)@ == (
                old(self)@.0,
                MirrorReport {
                    total_latency_us: stats::wrapped(old(self)@.1.total_latency_us as int, latency_us as int),
                    ..old(self)@.1
                },
            ),
            final(self).heading() == old(self).heading(),
    {
        self.total_latency_us = self.total_latency_us.wrapping_add(latency_us);
    }

    /// Tells whether a report is due.
    pub fn should_print(&self, now: u64) -> (r: bool)
        ensures
            r == (source::elapsed(now, self@.0) >= STATS_INTERVAL_US),
            now >= self@.0 ==> r == (now - self@.0 >= 5_000_000),
    {
        source::elapsed_us(now, self.start_time) >= STATS_INTERVAL_US
    }

    /// The report of what was counted. Counting begins anew.
    pub fn print_and_reset(&mut self, now: u64) -> (r: MirrorReport)
        ensures
            r == (MirrorReport {
                elapsed_us: source::elapsed(now, old(self)@.0) as u64,
                ..old(self)@.1
            }),
            final(self)@ == (now, nothing()),
            final(self).heading() == old(self).heading(),
    {
        let r = MirrorReport {
            elapsed_us: source::elapsed_us(now, self.start_time),
            updates: self.updates,
            total_bytes: self.total_bytes,
            total_fragments: self.total_fragments,
            total_latency_us: self.total_latency_us,
        };
        self.updates = 0;
        self.total_bytes = 0;
        self.total_fragments = 0;
        self.total_latency_us = 0;
        self.start_time = now;
        r
    }
}

/// A new count begins with nothing.
pub proof fn new_count_is_empty()
    ensures
        nothing().updates == 0,
        nothing().total_bytes == 0,
        nothing().total_fragments == 0,
        nothing().total_latency_us == 0,
        nothing().elapsed_us == 0,
{
}

} // verus!
