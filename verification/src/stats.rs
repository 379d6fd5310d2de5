//! Transfer statistics: a report every five seconds and one at the end.
//!
//! The reports hold whole numbers. Rates and ratios are for those who print
//! them. Times are microseconds since the program started.

use vstd::prelude::*;

use crate::source;

verus! {

/// Time between two reports.
pub const PRINT_INTERVAL_US: u64 = 5_000_000;

// ── Percentiles ───────────────────────────────────────────────────────────────

/// The samples from the smallest to the largest.
pub open spec fn ascending(samples: Seq<u64>) -> Seq<u64> {
    samples.sort_by(|a: u64, b: u64| a <= b)
}

/// Median, 99th percentile and maximum of the samples; zeros if there are
/// none.
pub open spec fn percentiles_of(samples: Seq<u64>) -> (u64, u64, u64) {
    let n = samples.len() as int;
    if n == 0 {
        (0, 0, 0)
    } else {
        (
            ascending(samples)[n / 2],
            ascending(samples)[n * 99 / 100],
            ascending(samples)[n - 1],
        )
    }
}

/// `<[u64]>::sort_unstable` of std: puts the samples in ascending order and
/// changes nothing else.
#[verifier::external_body]
fn sort_samples(samples: &mut Vec<u64>)
    ensures
        final(samples)@.to_multiset() == old(samples)@.to_multiset(),
        forall|i: int, j: int|
            0 <= i <= j < final(samples)@.len() ==> final(samples)@[i] <= final(samples)@[j],
{
    samples.sort_unstable();
}

/// Median, 99th percentile and maximum of the samples, which are sorted on the
/// way.
pub fn percentiles(samples: &mut Vec<u64>) -> (r: (u64, u64, u64))
    ensures
        r == percentiles_of(old(samples)@),
        final(samples)@ == ascending(old(samples)@),
        final(samples)@.to_multiset() == old(samples)@.to_multiset(),
        forall|i: int, j: int|
            0 <= i <= j < final(samples)@.len() ==> final(samples)@[i] <= final(samples)@[j],
{
    let ghost before = samples@;
    sort_samples(samples);
    proof {
        let leq = |a: u64, b: u64| a <= b;
        before.lemma_sort_by_ensures(leq);
        assert(vstd::relations::sorted_by(samples@, leq));
        vstd::seq_lib::lemma_sorted_unique(samples@, ascending(before), leq);
        samples@.to_multiset_ensures();
        before.to_multiset_ensures();
    }
    let n: usize = samples.len();
    if n == 0 {
        return (0, 0, 0);
    }
    let at99: usize = n / 100 * 99 + n % 100 * 99 / 100;
    assert(at99 == n * 99 / 100);
    (samples[n / 2], samples[at99], samples[n - 1])
}

/// The percentiles are samples in ascending order, and no sample is above the
/// maximum.
pub proof fn percentiles_are_ordered(samples: Seq<u64>)
    requires
        samples.len() > 0,
    ensures
        ({
            let (p50, p99, max) = percentiles_of(samples);
            &&& p50 <= p99 <= max
            &&& samples.contains(p50) && samples.contains(p99) && samples.contains(max)
            &&& forall|i: int| 0 <= i < samples.len() ==> #[trigger] samples[i] <= max
        }),
{
    let leq = |a: u64, b: u64| a <= b;
    let sorted = ascending(samples);
    let n = samples.len() as int;
    samples.lemma_sort_by_ensures(leq);
    samples.to_multiset_ensures();
    sorted.to_multiset_ensures();
    assert forall|i: int, j: int| 0 <= i <= j < n implies sorted[i] <= sorted[j] by {
        if i < j {
            assert(leq(sorted[i], sorted[j]));
        }
    }
    assert forall|i: int| 0 <= i < n implies samples.contains(#[trigger] sorted[i]) by {
        assert(sorted.contains(sorted[i]));
    }
    assert forall|i: int| 0 <= i < n implies #[trigger] samples[i] <= sorted[n - 1] by {
        assert(samples.contains(samples[i]));
        assert(samples.to_multiset().count(samples[i]) > 0);
        assert(sorted.contains(samples[i]));
        let j = choose|j: int| 0 <= j < sorted.len() && sorted[j] == samples[i];
        assert(sorted[j] <= sorted[n - 1]);
    }
    assert(0 <= n / 2 <= n * 99 / 100 <= n - 1);
}

/// The sum of the samples.
pub open spec fn total(samples: Seq<u64>) -> nat
    decreases samples.len(),
{
    if samples.len() == 0 {
        0
    } else {
        total(samples.drop_last()) + samples.last() as nat
    }
}

/// The mean of the samples, rounded down; 0 if there are none.
pub open spec fn mean_of(samples: Seq<u64>) -> int {
    if samples.len() == 0 {
        0
    } else {
        total(samples) as int / samples.len() as int
    }
}

proof fn lemma_mean(sum: nat, n: nat)
    requires
        n > 0,
        sum <= n * u64::MAX,
    ensures
        0 <= sum as int / n as int <= u64::MAX,
{
    vstd::arithmetic::div_mod::lemma_div_is_ordered(sum as int, (n * u64::MAX) as int, n as int);
    assert((n * u64::MAX) / (n as int) == u64::MAX) by {
        vstd::arithmetic::div_mod::lemma_div_multiples_vanish(u64::MAX as int, n as int);
    }
    vstd::arithmetic::div_mod::lemma_div_pos_is_pos(sum as int, n as int);
}

fn mean(samples: &Vec<u64>) -> (r: u64)
    ensures
        r == mean_of(samples@),
{
    let n: usize = samples.len();
    if n == 0 {
        return 0;
    }
    let mut sum: u128 = 0;
    let mut i: usize = 0;
    while i < n
        invariant
            i <= n,
            n == samples@.len(),
            sum == total(samples@.take(i as int)),
            sum <= i * u64::MAX,
        decreases n - i,
    {
        assert(samples@.take(i + 1).drop_last() =~= samples@.take(i as int));
        assert(i * u64::MAX + u64::MAX <= u128::MAX) by (nonlinear_arith)
            requires
                i <= u64::MAX,
        ;
        assert((i + 1) * u64::MAX == i * u64::MAX + u64::MAX) by (nonlinear_arith);
        sum = sum + samples[i] as u128;
        i = i + 1;
    }
    assert(samples@.take(n as int) =~= samples@);
    proof {
        lemma_mean(sum as nat, n as nat);
    }
    (sum / n as u128) as u64
}

// ── Statistics ────────────────────────────────────────────────────────────────

/// One report.
#[derive(Clone, Copy)]
pub struct WindowReport {
    /// Length of the window.
    pub elapsed_us: u64,
    pub updates: u64,
    /// Compressed bytes.
    pub bytes: u64,
    /// Bytes before compression.
    pub raw_bytes: u64,
    /// Latency of partial frames: median, 99th percentile and maximum.
    pub partial: (u64, u64, u64),
    pub partial_count: u64,
    /// Partial frames that were deltas.
    pub delta_count: u64,
    pub full_count: u64,
    /// Mean latency of full frames.
    pub full_avg: u64,
    /// Source-side share of the latency, median and 99th percentile, where it
    /// is known.
    pub source: Option<(u64, u64)>,
    pub dropped: u64,
}

/// The report at the end.
#[derive(Clone, Copy)]
pub struct Summary {
    /// Length of the run.
    pub elapsed_us: u64,
    pub updates: u64,
    pub bytes: u64,
    pub avg_us: u64,
    pub min_us: u64,
    pub max_us: u64,
    pub dropped: u64,
}

/// `a + b` as 64-bit counters add: modulo 2^64.
pub open spec fn wrapped(a: int, b: int) -> u64 {
    ((a + b) % 0x1_0000_0000_0000_0000) as u64
}

/// What the statistics hold.
#[verifier::ext_equal]
pub struct StatsState {
    pub started_at: u64,
    pub window_start: u64,
    pub updates: u64,
    pub bytes: u64,
    pub raw_bytes: u64,
    pub delta_count: u64,
    pub dropped: u64,
    pub partial: Seq<u64>,
    pub full: Seq<u64>,
    pub source: Seq<u64>,
    pub lifetime_updates: u64,
    pub lifetime_bytes: u64,
    pub lifetime_dropped: u64,
    pub lifetime_latency_sum: nat,
    pub lifetime_latency_min: u64,
    pub lifetime_latency_max: u64,
}

impl StatsState {
    /// The statistics before the first frame.
    pub open spec fn initial(now: u64) -> StatsState {
        StatsState {
            started_at: now,
            window_start: now,
            updates: 0,
            bytes: 0,
            raw_bytes: 0,
            delta_count: 0,
            dropped: 0,
            partial: Seq::empty(),
            full: Seq::empty(),
            source: Seq::empty(),
            lifetime_updates: 0,
            lifetime_bytes: 0,
            lifetime_dropped: 0,
            lifetime_latency_sum: 0,
            lifetime_latency_min: u64::MAX,
            lifetime_latency_max: 0,
        }
    }

    /// The counters fit each other: a window is part of the run, and the mean
    /// latency fits 64 bits.
    pub open spec fn wf(self) -> bool {
        &&& self.updates <= self.lifetime_updates
        &&& self.lifetime_latency_sum <= self.lifetime_updates * u64::MAX
    }

    /// One more frame. Its latency is the sum of both shares. The source-side
    /// share is kept where it is not all of it.
    pub open spec fn recorded(
        self,
        bytes: nat,
        source_us: u64,
        transit_us: u64,
        is_full: bool,
    ) -> StatsState {
        let latency = wrapped(source_us as int, transit_us as int);
        StatsState {
            updates: (self.updates + 1) as u64,
            bytes: wrapped(self.bytes as int, bytes as int),
            partial: if is_full {
                self.partial
            } else {
                self.partial.push(latency)
            },
            full: if is_full {
                self.full.push(latency)
            } else {
                self.full
            },
            source: if !is_full && transit_us > 0 {
                self.source.push(source_us)
            } else {
                self.source
            },
            lifetime_updates: (self.lifetime_updates + 1) as u64,
            lifetime_bytes: wrapped(self.lifetime_bytes as int, bytes as int),
            lifetime_latency_sum: self.lifetime_latency_sum + latency as nat,
            lifetime_latency_min: if latency < self.lifetime_latency_min {
                latency
            } else {
                self.lifetime_latency_min
            },
            lifetime_latency_max: if latency > self.lifetime_latency_max {
                latency
            } else {
                self.lifetime_latency_max
            },
            ..self
        }
    }

    /// The report of the window that ends `now`.
    pub open spec fn report(self, now: u64) -> WindowReport {
        let (sp50, sp99, smax) = percentiles_of(self.source);
        WindowReport {
            elapsed_us: source::elapsed(now, self.window_start) as u64,
            updates: self.updates,
            bytes: self.bytes,
            raw_bytes: self.raw_bytes,
            partial: percentiles_of(self.partial),
            partial_count: self.partial.len() as u64,
            delta_count: self.delta_count,
            full_count: self.full.len() as u64,
            full_avg: mean_of(self.full) as u64,
            source: if self.source.len() == 0 {
                None
            } else {
                Some((sp50, sp99))
            },
            dropped: self.dropped,
        }
    }

    /// A new window begins.
    pub open spec fn next_window(self, now: u64) -> StatsState {
        StatsState {
            window_start: now,
            updates: 0,
            bytes: 0,
            raw_bytes: 0,
            delta_count: 0,
            dropped: 0,
            partial: Seq::empty(),
            full: Seq::empty(),
            source: Seq::empty(),
            ..self
        }
    }
}

/// A frame as it is counted.
pub struct Frame {
    /// Compressed length.
    pub bytes: nat,
    pub source_us: u64,
    pub transit_us: u64,
    pub is_full: bool,
}

impl Frame {
    /// The latency that is counted: the sum of both shares.
    pub open spec fn latency(self) -> u64 {
        wrapped(self.source_us as int, self.transit_us as int)
    }
}

/// The statistics after the frames, one after another.
pub open spec fn recorded_all(s: StatsState, frames: Seq<Frame>) -> StatsState
    decreases frames.len(),
{
    if frames.len() == 0 {
        s
    } else {
        let f = frames.last();
        recorded_all(s, frames.drop_last()).recorded(f.bytes, f.source_us, f.transit_us, f.is_full)
    }
}

/// The bytes of all the frames.
pub open spec fn total_bytes(frames: Seq<Frame>) -> nat
    decreases frames.len(),
{
    if frames.len() == 0 {
        0
    } else {
        total_bytes(frames.drop_last()) + frames.last().bytes
    }
}

/// The latencies of the frames.
pub open spec fn latencies(frames: Seq<Frame>) -> Seq<u64> {
    frames.map_values(|f: Frame| f.latency())
}

/// The latencies of the full frames, or of the partial ones.
pub open spec fn latencies_of(frames: Seq<Frame>, is_full: bool) -> Seq<u64> {
    latencies(frames.filter(|f: Frame| f.is_full == is_full))
}

/// The source-side times of the partial frames that took time on the way.
pub open spec fn source_times(frames: Seq<Frame>) -> Seq<u64> {
    frames.filter(|f: Frame| !f.is_full && f.transit_us > 0).map_values(|f: Frame| f.source_us)
}

/// The totals over all frames that were counted: their number, their bytes,
/// the sum of their latencies and the lowest and highest of them. Byte
/// counters wrap.
pub proof fn totals_add_up(now: u64, frames: Seq<Frame>)
    requires
        frames.len() <= u64::MAX,
    ensures
        ({
            let s = recorded_all(StatsState::initial(now), frames);
            &&& s.wf()
            &&& s.updates == frames.len()
            &&& s.lifetime_updates == frames.len()
            &&& s.bytes == total_bytes(frames) % 0x1_0000_0000_0000_0000
            &&& s.lifetime_bytes == total_bytes(frames) % 0x1_0000_0000_0000_0000
            &&& s.partial == latencies_of(frames, false)
            &&& s.full == latencies_of(frames, true)
            &&& s.source == source_times(frames)
            &&& s.lifetime_latency_sum == total(latencies(frames))
            &&& forall|i: int|
                0 <= i < frames.len() ==> s.lifetime_latency_min <= (#[trigger] frames[i]).latency()
                    <= s.lifetime_latency_max
            &&& frames.len() > 0 ==> latencies(frames).contains(s.lifetime_latency_min)
                && latencies(frames).contains(s.lifetime_latency_max)
            &&& s.started_at == now
            &&& s.dropped == 0 && s.lifetime_dropped == 0
        }),
    decreases frames.len(),
{
    let s = recorded_all(StatsState::initial(now), frames);
    if frames.len() == 0 {
        assert(frames =~= Seq::empty());
        reveal(Seq::filter);
        assert(s.partial =~= latencies_of(frames, false));
        assert(s.full =~= latencies_of(frames, true));
        assert(s.source =~= source_times(frames));
    } else {
        let before = frames.drop_last();
        let f = frames.last();
        let all = latencies(frames);
        let prior = recorded_all(StatsState::initial(now), before);
        totals_add_up(now, before);
        assert(all.drop_last() =~= latencies(before));
        assert(all.last() == f.latency());
        assert(all[all.len() - 1] == f.latency());
        reveal(Seq::filter);
        assert(s.partial =~= latencies_of(frames, false));
        assert(s.full =~= latencies_of(frames, true));
        assert(s.source =~= source_times(frames));
        assert((frames.len() * u64::MAX) == before.len() * u64::MAX + u64::MAX) by (nonlinear_arith)
            requires
                frames.len() == before.len() + 1,
        ;
        assert forall|i: int| 0 <= i < frames.len() implies s.lifetime_latency_min <= (
        #[trigger] frames[i]).latency() <= s.lifetime_latency_max by {
            if i < before.len() {
                assert(before[i] == frames[i]);
            }
        }
        if before.len() > 0 {
            let earlier = latencies(before);
            let low = choose|i: int|
                0 <= i < earlier.len() && earlier[i] == prior.lifetime_latency_min;
            let high = choose|i: int|
                0 <= i < earlier.len() && earlier[i] == prior.lifetime_latency_max;
            assert(all[low] == prior.lifetime_latency_min);
            assert(all[high] == prior.lifetime_latency_max);
        }
    }
}

/// Statistics of one side of the transfer.
pub struct Stats {
    name: &'static str,
    started_at: u64,
    window_start: u64,
    updates: u64,
    bytes: u64,
    raw_bytes: u64,
    delta_count: u64,
    dropped: u64,
    partial_latencies: Vec<u64>,
    full_latencies: Vec<u64>,
    source_latencies: Vec<u64>,
    lifetime_updates: u64,
    lifetime_bytes: u64,
    lifetime_dropped: u64,
    lifetime_latency_sum: u128,
    lifetime_latency_min: u64,
    lifetime_latency_max: u64,
}

impl View for Stats {
    type V = StatsState;

    closed spec fn view(&self) -> StatsState {
        StatsState {
            started_at: self.started_at,
            window_start: self.window_start,
            updates: self.updates,
            bytes: self.bytes,
            raw_bytes: self.raw_bytes,
            delta_count: self.delta_count,
            dropped: self.dropped,
            partial: self.partial_latencies@,
            full: self.full_latencies@,
            source: self.source_latencies@,
            lifetime_updates: self.lifetime_updates,
            lifetime_bytes: self.lifetime_bytes,
            lifetime_dropped: self.lifetime_dropped,
            lifetime_latency_sum: self.lifetime_latency_sum as nat,
            lifetime_latency_min: self.lifetime_latency_min,
            lifetime_latency_max: self.lifetime_latency_max,
        }
    }
}

impl Stats {
    /// What the reports are headed with.
    pub closed spec fn heading(&self) -> Seq<char> {
        self.name@
    }

    /// Empty statistics, from `now` on.
    pub fn new(name: &'static str, now: u64) -> (s: Stats)
        ensures
            s@ == StatsState::initial(now),
            s@.wf(),
            s.heading() == name@,
    {
        let s = Stats {
            name,
            started_at: now,
            window_start: now,
            updates: 0,
            bytes: 0,
            raw_bytes: 0,
            delta_count: 0,
            dropped: 0,
            partial_latencies: Vec::with_capacity(512),
            full_latencies: Vec::with_capacity(8),
            source_latencies: Vec::with_capacity(512),
            lifetime_updates: 0,
            lifetime_bytes: 0,
            lifetime_dropped: 0,
            lifetime_latency_sum: 0,
            lifetime_latency_min: u64::MAX,
            lifetime_latency_max: 0,
        };
        assert(s@ =~= StatsState::initial(now));
        s
    }

    /// What the reports are headed with.
    pub fn name(&self) -> (n: &'static str)
        ensures
            n@ == self.heading(),
    {
        self.name
    }

    /// Counts one frame: its compressed length, the time spent on it at the
    /// source, the time from its first fragment until it was written (0 at the
    /// source), and whether it is a full one.
    pub fn record(&mut self, bytes: usize, source_us: u64, transit_us: u64, is_full: bool)
        requires
            old(self)@.wf(),
            old(self)@.lifetime_updates < u64::MAX,
        ensures
            final(self)@ == old(self)@.recorded(bytes as nat, source_us, transit_us, is_full),
            final(self)@.wf(),
            final(self).heading() == old(self).heading(),
    {
        let total_us: u64 = source_us.wrapping_add(transit_us);
        proof {
            assert((self.lifetime_updates + 1) * u64::MAX == self.lifetime_updates * u64::MAX
                + u64::MAX) by (nonlinear_arith);
            assert(self.lifetime_updates * u64::MAX + u64::MAX <= u128::MAX) by (nonlinear_arith)
                requires
                    self.lifetime_updates <= u64::MAX,
            ;
        }
        self.updates = self.updates + 1;
        self.bytes = self.bytes.wrapping_add(bytes as u64);
        if is_full {
            self.full_latencies.push(total_us);
        } else {
            self.partial_latencies.push(total_us);
            if transit_us > 0 {
                self.source_latencies.push(source_us);
            }
        }
        self.lifetime_updates = self.lifetime_updates + 1;
        self.lifetime_bytes = self.lifetime_bytes.wrapping_add(bytes as u64);
        self.lifetime_latency_sum = self.lifetime_latency_sum + total_us as u128;
        if total_us < self.lifetime_latency_min {
            self.lifetime_latency_min = total_us;
        }
        if total_us > self.lifetime_latency_max {
            self.lifetime_latency_max = total_us;
        }
        assert(self@ =~= old(self)@.recorded(bytes as nat, source_us, transit_us, is_full));
    }

    /// Counts how a frame was encoded: its length before compression, and
    /// whether it is a delta frame.
    pub fn record_encoding(&mut self, raw_bytes: usize, is_delta: bool)
        ensures
            final(self)@ == (StatsState {
                raw_bytes: wrapped(old(self)@.raw_bytes as int, raw_bytes as int),
                delta_count: if is_delta {
                    wrapped(old(self)@.delta_count as int, 1)
                } else {
                    old(self)@.delta_count
                },
                ..old(self)@
            }),
            final(self).heading() == old(self).heading(),
    {
        self.raw_bytes = self.raw_bytes.wrapping_add(raw_bytes as u64);
        if is_delta {
            self.delta_count = self.delta_count.wrapping_add(1);
        }
    }

    /// Counts messages that were lost.
    pub fn record_dropped(&mut self, count: u64)
        ensures
            final(self)@ == (StatsState {
                dropped: wrapped(old(self)@.dropped as int, count as int),
                lifetime_dropped: wrapped(old(self)@.lifetime_dropped as int, count as int),
                ..old(self)@
            }),
            final(self).heading() == old(self).heading(),
    {
        self.dropped = self.dropped.wrapping_add(count);
        self.lifetime_dropped = self.lifetime_dropped.wrapping_add(count);
    }

    /// The report of the window, once it has lasted long enough. A new window
    /// begins with it.
    pub fn maybe_print(&mut self, now: u64) -> (r: Option<WindowReport>)
        requires
            old(self)@.wf(),
        ensures
            final(self)@.wf(),
            final(self).heading() == old(self).heading(),
            now >= old(self)@.window_start ==> (r is Some <==> now - old(self)@.window_start
                >= 5_000_000),
            if source::elapsed(now, old(self)@.window_start) < PRINT_INTERVAL_US {
                r is None && final(self)@ == old(self)@
            } else {
                r == Some(old(self)@.report(now)) && final(self)@ == old(self)@.next_window(now)
            },
    {
        let elapsed_us: u64 = source::elapsed_us(now, self.window_start);
        if elapsed_us < PRINT_INTERVAL_US {
            return None;
        }
        let partial_count: u64 = self.partial_latencies.len() as u64;
        let partial = percentiles(&mut self.partial_latencies);
        let full_count: u64 = self.full_latencies.len() as u64;
        let full_avg: u64 = mean(&self.full_latencies);
        let has_source: bool = self.source_latencies.len() > 0;
        let (sp50, sp99, _): (u64, u64, u64) = percentiles(&mut self.source_latencies);
        let report = WindowReport {
            elapsed_us,
            updates: self.updates,
            bytes: self.bytes,
            raw_bytes: self.raw_bytes,
            partial,
            partial_count,
            delta_count: self.delta_count,
            full_count,
            full_avg,
            source: if has_source {
                Some((sp50, sp99))
            } else {
                None
            },
            dropped: self.dropped,
        };
        self.updates = 0;
        self.bytes = 0;
        self.raw_bytes = 0;
        self.delta_count = 0;
        self.dropped = 0;
        self.partial_latencies.clear();
        self.full_latencies.clear();
        self.source_latencies.clear();
        self.window_start = now;
        assert(self@ =~= old(self)@.next_window(now));
        Some(report)
    }

    /// The report at the end; none if no frame was counted.
    pub fn print_summary(&self, now: u64) -> (r: Option<Summary>)
        requires
            self@.wf(),
        ensures
            match r {
                None => self@.lifetime_updates == 0,
                Some(s) => {
                    &&& self@.lifetime_updates > 0
                    &&& s.elapsed_us == source::elapsed(now, self@.started_at)
                    &&& s.updates == self@.lifetime_updates
                    &&& s.bytes == self@.lifetime_bytes
                    &&& s.avg_us == self@.lifetime_latency_sum as int
                        / self@.lifetime_updates as int
                    &&& s.min_us == self@.lifetime_latency_min
                    &&& s.max_us == self@.lifetime_latency_max
                    &&& s.dropped == self@.lifetime_dropped
                },
            },
    {
        if self.lifetime_updates == 0 {
            return None;
        }
        proof {
            lemma_mean(self.lifetime_latency_sum as nat, self.lifetime_updates as nat);
        }
        let avg_us: u64 = (self.lifetime_latency_sum / self.lifetime_updates as u128) as u64;
        Some(
            Summary {
                elapsed_us: source::elapsed_us(now, self.started_at),
                updates: self.lifetime_updates,
                bytes: self.lifetime_bytes,
                avg_us,
                min_us: self.lifetime_latency_min,
                max_us: self.lifetime_latency_max,
                dropped: self.lifetime_dropped,
            },
        )
    }
}

// ── Laws ──────────────────────────────────────────────────────────────────────

/// How many of the samples are at most `v`.
pub open spec fn at_most(samples: Seq<u64>, v: u64) -> nat
    decreases samples.len(),
{
    if samples.len() == 0 {
        0
    } else {
        at_most(samples.drop_last(), v) + if samples.last() <= v {
            1nat
        } else {
            0nat
        }
    }
}

/// How many of the samples are at least `v`.
pub open spec fn at_least(samples: Seq<u64>, v: u64) -> nat
    decreases samples.len(),
{
    if samples.len() == 0 {
        0
    } else {
        at_least(samples.drop_last(), v) + if samples.last() >= v {
            1nat
        } else {
            0nat
        }
    }
}

proof fn lemma_filter_insert(m: vstd::multiset::Multiset<u64>, x: u64, p: spec_fn(u64) -> bool)
    ensures
        m.insert(x).filter(p) == if p(x) {
            m.filter(p).insert(x)
        } else {
            m.filter(p)
        },
{
    if p(x) {
        assert(m.insert(x).filter(p) =~= m.filter(p).insert(x));
    } else {
        assert(m.insert(x).filter(p) =~= m.filter(p));
    }
}

proof fn lemma_counts(samples: Seq<u64>, v: u64)
    ensures
        at_most(samples, v) == samples.to_multiset().filter(|x: u64| x <= v).len(),
        at_least(samples, v) == samples.to_multiset().filter(|x: u64| x >= v).len(),
    decreases samples.len(),
{
    samples.to_multiset_ensures();
    if samples.len() == 0 {
        let m = samples.to_multiset();
        assert(m.len() == 0);
        assert(m.filter(|x: u64| x <= v) =~= vstd::multiset::Multiset::empty()) by {
            assert forall|x: u64| m.count(x) == 0 by {
                if m.count(x) > 0 {
                    assert(samples.contains(x));
                }
            }
        }
        assert(m.filter(|x: u64| x >= v) =~= vstd::multiset::Multiset::empty()) by {
            assert forall|x: u64| m.count(x) == 0 by {
                if m.count(x) > 0 {
                    assert(samples.contains(x));
                }
            }
        }
    } else {
        let before = samples.drop_last();
        let x = samples.last();
        lemma_counts(before, v);
        before.to_multiset_ensures();
        assert(samples =~= before.push(x));
        assert(samples.to_multiset() == before.to_multiset().insert(x));
        lemma_filter_insert(before.to_multiset(), x, |y: u64| y <= v);
        lemma_filter_insert(before.to_multiset(), x, |y: u64| y >= v);
    }
}

proof fn lemma_sorted_counts(sorted: Seq<u64>, n: int, k: int)
    requires
        0 <= k < sorted.len(),
        0 <= n <= sorted.len(),
        forall|i: int, j: int| 0 <= i <= j < sorted.len() ==> sorted[i] <= sorted[j],
    ensures
        at_most(sorted.take(n), sorted[k]) >= if n <= k + 1 {
            n
        } else {
            k + 1
        },
        at_least(sorted.take(n), sorted[k]) >= if n <= k {
            0
        } else {
            n - k
        },
    decreases n,
{
    if n > 0 {
        lemma_sorted_counts(sorted, n - 1, k);
        assert(sorted.take(n).drop_last() =~= sorted.take(n - 1));
        assert(sorted.take(n).last() == sorted[n - 1]);
    }
}

proof fn lemma_rank(samples: Seq<u64>, k: int)
    requires
        0 <= k < samples.len(),
    ensures
        at_most(samples, ascending(samples)[k]) >= k + 1,
        at_least(samples, ascending(samples)[k]) >= samples.len() - k,
{
    let leq = |a: u64, b: u64| a <= b;
    let sorted = ascending(samples);
    let n = samples.len() as int;
    samples.lemma_sort_by_ensures(leq);
    samples.to_multiset_ensures();
    sorted.to_multiset_ensures();
    assert forall|i: int, j: int| 0 <= i <= j < n implies sorted[i] <= sorted[j] by {
        if i < j {
            assert(leq(sorted[i], sorted[j]));
        }
    }
    lemma_sorted_counts(sorted, n, k);
    assert(sorted.take(n) =~= sorted);
    lemma_counts(samples, sorted[k]);
    lemma_counts(sorted, sorted[k]);
}

/// Half of the samples are at most the median and half at least, 99 of a hundred
/// are at most the 99th percentile and one at least, and all are at most the
/// maximum.
pub proof fn percentiles_have_their_rank(samples: Seq<u64>)
    requires
        samples.len() > 0,
    ensures
        ({
            let n = samples.len() as int;
            let (p50, p99, max) = percentiles_of(samples);
            &&& at_most(samples, p50) >= n / 2 + 1
            &&& at_least(samples, p50) >= n - n / 2
            &&& at_most(samples, p99) >= n * 99 / 100 + 1
            &&& at_least(samples, p99) >= n - n * 99 / 100
            &&& at_most(samples, max) >= n
            &&& at_least(samples, max) >= 1
            &&& samples.contains(p50) && samples.contains(p99) && samples.contains(max)
        }),
{
    let n = samples.len() as int;
    lemma_rank(samples, n / 2);
    lemma_rank(samples, n * 99 / 100);
    lemma_rank(samples, n - 1);
    percentiles_are_ordered(samples);
}

/// Without samples there is nothing to rank.
pub proof fn no_samples_no_percentiles(samples: Seq<u64>)
    requires
        samples.len() == 0,
    ensures
        percentiles_of(samples) == (0u64, 0u64, 0u64),
        mean_of(samples) == 0,
{
}

/// A sum grows by each sample.
pub proof fn sum_grows_by_each_sample(samples: Seq<u64>, v: u64)
    ensures
        total(samples.push(v)) == total(samples) + v,
        total(Seq::empty()) == 0,
{
    assert(samples.push(v).drop_last() =~= samples);
}

/// The mean times the number of samples is their sum, but for what division
/// leaves.
pub proof fn mean_shares_the_sum(samples: Seq<u64>)
    requires
        samples.len() > 0,
    ensures
        mean_of(samples) * samples.len() <= total(samples) < (mean_of(samples) + 1) * samples.len(),
{
    let n = samples.len() as int;
    let sum = total(samples) as int;
    vstd::arithmetic::div_mod::lemma_fundamental_div_mod(sum, n);
    vstd::arithmetic::div_mod::lemma_mod_bound(sum, n);
    let q = sum / n;
    assert((q + 1) * n == q * n + n) by (nonlinear_arith);
    assert(n * q == q * n) by (nonlinear_arith);
}

/// Counters add, and begin again from 0 after the highest number.
pub proof fn counters_add(a: u64, b: u64)
    ensures
        a + b < 0x1_0000_0000_0000_0000 ==> wrapped(a as int, b as int) == a + b,
        a + b >= 0x1_0000_0000_0000_0000 ==> wrapped(a as int, b as int) == a + b
            - 0x1_0000_0000_0000_0000,
{
}

/// What one more frame changes, whatever was counted before.
pub proof fn frame_is_counted(
    s: StatsState,
    bytes: nat,
    source_us: u64,
    transit_us: u64,
    is_full: bool,
)
    requires
        s.wf(),
        s.lifetime_updates < u64::MAX,
        source_us + transit_us <= u64::MAX,
        s.bytes + bytes <= u64::MAX,
        s.lifetime_bytes + bytes <= u64::MAX,
    ensures
        ({
            let t = s.recorded(bytes, source_us, transit_us, is_full);
            let latency = (source_us + transit_us) as u64;
            &&& t.wf()
            &&& t.updates == s.updates + 1
            &&& t.lifetime_updates == s.lifetime_updates + 1
            &&& t.bytes == s.bytes + bytes
            &&& t.lifetime_bytes == s.lifetime_bytes + bytes
            &&& t.lifetime_latency_sum == s.lifetime_latency_sum + latency
            &&& t.lifetime_latency_min <= latency && t.lifetime_latency_min
                <= s.lifetime_latency_min
            &&& t.lifetime_latency_min == latency || t.lifetime_latency_min
                == s.lifetime_latency_min
            &&& t.lifetime_latency_max >= latency && t.lifetime_latency_max
                >= s.lifetime_latency_max
            &&& t.lifetime_latency_max == latency || t.lifetime_latency_max
                == s.lifetime_latency_max
            &&& is_full ==> t.full == s.full.push(latency) && t.partial == s.partial && t.source
                == s.source
            &&& !is_full ==> t.partial == s.partial.push(latency) && t.full == s.full
            &&& !is_full && transit_us > 0 ==> t.source == s.source.push(source_us)
            &&& transit_us == 0 ==> t.source == s.source
            &&& t.started_at == s.started_at && t.window_start == s.window_start
            &&& t.raw_bytes == s.raw_bytes && t.delta_count == s.delta_count
            &&& t.dropped == s.dropped && t.lifetime_dropped == s.lifetime_dropped
        }),
{
    assert((s.lifetime_updates + 1) * u64::MAX == s.lifetime_updates * u64::MAX + u64::MAX)
        by (nonlinear_arith);
}

/// A report says what was counted in its window, and how long that was. The next
/// window begins with nothing; what is counted over the whole run goes on.
pub proof fn report_says_what_was_counted(s: StatsState, now: u64)
    requires
        now >= s.window_start,
    ensures
        ({
            let r = s.report(now);
            let t = s.next_window(now);
            &&& r.elapsed_us == now - s.window_start
            &&& r.updates == s.updates && r.bytes == s.bytes && r.raw_bytes == s.raw_bytes
            &&& r.delta_count == s.delta_count && r.dropped == s.dropped
            &&& s.partial.len() <= u64::MAX ==> r.partial_count == s.partial.len()
            &&& s.full.len() <= u64::MAX ==> r.full_count == s.full.len()
            &&& r.partial == percentiles_of(s.partial)
            &&& r.source is None <==> s.source.len() == 0
            &&& r.source matches Some((p50, p99)) ==> p50 == percentiles_of(s.source).0 && p99
                == percentiles_of(s.source).1
            &&& r.full_avg == mean_of(s.full) as u64
            &&& t.window_start == now && t.started_at == s.started_at
            &&& t.updates == 0 && t.bytes == 0 && t.raw_bytes == 0 && t.delta_count == 0
                && t.dropped == 0
            &&& t.partial.len() == 0 && t.full.len() == 0 && t.source.len() == 0
            &&& t.lifetime_updates == s.lifetime_updates
            &&& t.lifetime_bytes == s.lifetime_bytes
            &&& t.lifetime_dropped == s.lifetime_dropped
            &&& t.lifetime_latency_sum == s.lifetime_latency_sum
            &&& t.lifetime_latency_min == s.lifetime_latency_min
            &&& t.lifetime_latency_max == s.lifetime_latency_max
        }),
{
}

/// New statistics have counted nothing, and their first window begins with them.
pub proof fn new_statistics_are_empty(now: u64)
    ensures
        ({
            let s = StatsState::initial(now);
            &&& s.started_at == now && s.window_start == now
            &&& s.updates == 0 && s.bytes == 0 && s.raw_bytes == 0 && s.delta_count == 0
            &&& s.dropped == 0 && s.lifetime_dropped == 0
            &&& s.partial.len() == 0 && s.full.len() == 0 && s.source.len() == 0
            &&& s.lifetime_updates == 0 && s.lifetime_bytes == 0 && s.lifetime_latency_sum == 0
        }),
{
}

} // verus!
