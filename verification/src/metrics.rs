//! Latency histograms, replica ack watermarks, and repair counters.

use crate::name_map::{increasing, keys_of, NameMap};
use vstd::prelude::*;

verus! {

/// How busy a node is.
#[derive(Clone, Copy, Debug, PartialEq, Eq, Structural)]
pub struct NodeLoad {
    pub inflight: u64,
    pub latency_ewma_us: u64,
}

impl Default for NodeLoad {
    fn default() -> (r: Self)
        ensures
            r == (NodeLoad { inflight: 0, latency_ewma_us: 0 }),
    {
        NodeLoad { inflight: 0, latency_ewma_us: 0 }
    }
}

/// The upper bound of a latency bucket in nanoseconds: half a millisecond to a second.
pub open spec fn bucket_bound(i: int) -> int {
    if i == 0 { 500_000 } else if i == 1 { 1_000_000 } else if i == 2 { 2_500_000 } else if i == 3 { 5_000_000 }
    else if i == 4 { 10_000_000 } else if i == 5 { 25_000_000 } else if i == 6 { 50_000_000 } else if i == 7 { 100_000_000 }
    else if i == 8 { 250_000_000 } else if i == 9 { 500_000_000 } else { 1_000_000_000 }
}

/// The bucket of a latency: the first whose bound it does not exceed, or the last, which has none.
pub open spec fn bucket_of(nanos: u64) -> int {
    if nanos <= 500_000 { 0 } else if nanos <= 1_000_000 { 1 } else if nanos <= 2_500_000 { 2 } else if nanos <= 5_000_000 { 3 }
    else if nanos <= 10_000_000 { 4 } else if nanos <= 25_000_000 { 5 } else if nanos <= 50_000_000 { 6 }
    else if nanos <= 100_000_000 { 7 } else if nanos <= 250_000_000 { 8 } else if nanos <= 500_000_000 { 9 }
    else if nanos <= 1_000_000_000 { 10 } else { 11 }
}

/// A latency fits its bucket and no earlier one.
pub proof fn law_the_bucket_is_the_first_that_fits(nanos: u64, i: int)
    requires
        0 <= i <= 10,
    ensures
        i == bucket_of(nanos) ==> nanos <= bucket_bound(i),
        i < bucket_of(nanos) ==> nanos > bucket_bound(i),
{
}

fn bucket(nanos: u64) -> (r: usize)
    ensures
        r == bucket_of(nanos),
{
    if nanos <= 500_000 { 0 } else if nanos <= 1_000_000 { 1 } else if nanos <= 2_500_000 { 2 } else if nanos <= 5_000_000 { 3 }
    else if nanos <= 10_000_000 { 4 } else if nanos <= 25_000_000 { 5 } else if nanos <= 50_000_000 { 6 }
    else if nanos <= 100_000_000 { 7 } else if nanos <= 250_000_000 { 8 } else if nanos <= 500_000_000 { 9 }
    else if nanos <= 1_000_000_000 { 10 } else { 11 }
}

/// What was seen of one route.
#[derive(Clone, Copy, Debug, PartialEq, Eq)]
pub struct RouteStats {
    pub count: u64,
    pub errors: u64,
    pub nanos_total: u64,
    pub buckets: [u64; 12],
}

/// What was seen of one route, by its counts.
pub ghost struct RouteStatsView {
    pub count: u64,
    pub errors: u64,
    pub nanos_total: u64,
    pub buckets: Seq<u64>,
}

impl View for RouteStats {
    type V = RouteStatsView;

    open spec fn view(&self) -> RouteStatsView {
        RouteStatsView {
            count: self.count,
            errors: self.errors,
            nanos_total: self.nanos_total,
            buckets: self.buckets@,
        }
    }
}

impl RouteStatsView {
    /// Nothing seen.
    pub open spec fn nothing() -> RouteStatsView {
        RouteStatsView { count: 0, errors: 0, nanos_total: 0, buckets: Seq::new(12, |i: int| 0u64) }
    }

    /// With one request more.
    pub open spec fn observed(self, nanos: u64, is_error: bool) -> RouteStatsView {
        RouteStatsView {
            count: (self.count + 1) as u64,
            errors: if is_error { (self.errors + 1) as u64 } else { self.errors },
            nanos_total: (self.nanos_total + nanos) as u64,
            buckets: self.buckets.update(bucket_of(nanos), (self.buckets[bucket_of(nanos)] + 1) as u64),
        }
    }
}

/// The sum of the first `n` of some counts.
pub open spec fn total(s: Seq<u64>, n: int) -> int
    decreases n,
{
    if n <= 0 { 0 } else { total(s, n - 1) + s[n - 1] }
}

/// One more in one place is one more in all.
proof fn lemma_total_update(s: Seq<u64>, k: int, v: u64, n: int)
    requires
        0 <= k < s.len(),
        0 <= n <= s.len(),
    ensures
        total(s.update(k, v), n) == total(s, n) + (if k < n { v - s[k] } else { 0 }),
    decreases n,
{
    if n > 0 {
        lemma_total_update(s, k, v, n - 1);
    }
}

proof fn lemma_total_bounds(s: Seq<u64>, k: int, n: int)
    requires
        0 <= k < n <= s.len(),
    ensures
        s[k] <= total(s, n),
        0 <= total(s, n),
    decreases n,
{
    if n > 0 {
        if k < n - 1 {
            lemma_total_bounds(s, k, n - 1);
        } else if n > 1 {
            lemma_total_bounds(s, 0, n - 1);
        }
    }
}

impl Default for RouteStats {
    fn default() -> (r: Self)
        ensures
            r@ == RouteStatsView::nothing(),
            r.wf(),
    {
        let r = RouteStats { count: 0, errors: 0, nanos_total: 0, buckets: [0; 12] };
        proof {
            assert(r.buckets@ =~= Seq::new(12, |i: int| 0u64));
            reveal_with_fuel(total, 13);
        }
        r
    }
}

impl RouteStats {
    /// Every request stands in one bucket, and no more of them failed than there were.
    pub open spec fn wf(self) -> bool {
        self.errors <= self.count && total(self.buckets@, 12) == self.count
    }

    /// Counts one request.
    pub fn observe(&mut self, nanos: u64, is_error: bool)
        requires
            old(self).wf(),
            old(self).count < u64::MAX,
            old(self).nanos_total + nanos <= u64::MAX,
        ensures
            final(self).wf(),
            final(self)@ == old(self)@.observed(nanos, is_error),
    {
        let slot = bucket(nanos);
        proof {
            lemma_total_bounds(self.buckets@, slot as int, 12);
            lemma_total_update(self.buckets@, slot as int, (self.buckets@[slot as int] + 1) as u64, 12);
        }
        self.count = self.count + 1;
        self.nanos_total = self.nanos_total + nanos;
        if is_error {
            self.errors = self.errors + 1;
        }
        self.buckets[slot] = self.buckets[slot] + 1;
    }

    /// The first bucket by which `target` requests have been seen, from the fastest up; `None` where
    /// there were not as many. The last bucket has no bound.
    pub fn quantile_bucket(&self, target: u64) -> (r: Option<usize>)
        requires
            self.wf(),
        ensures
            match r {
                Some(i) => i < 12 && total(self.buckets@, i + 1) >= target
                    && forall|j: int| 0 <= j < i ==> #[trigger] total(self.buckets@, j + 1) < target,
                None => self.count < target,
            },
    {
        let mut seen: u64 = 0;
        let mut i: usize = 0;
        while i < 12
            invariant
                self.wf(),
                i <= 12,
                seen == total(self.buckets@, i as int),
                forall|j: int| 0 <= j < i ==> #[trigger] total(self.buckets@, j + 1) < target,
            decreases 12 - i,
        {
            proof {
                lemma_total_grows(self.buckets@, i + 1, 12);
            }
            seen = seen + self.buckets[i];
            if seen >= target {
                return Some(i);
            }
            i += 1;
        }
        assert(total(self.buckets@, 11int + 1) < target);
        None
    }
}

proof fn lemma_total_grows(s: Seq<u64>, a: int, b: int)
    requires
        0 <= a <= b <= s.len(),
    ensures
        total(s, a) <= total(s, b),
    decreases b - a,
{
    if a < b {
        lemma_total_grows(s, a, b - 1);
    }
}

/// The smoothed latency after a sample in microseconds: the sample itself where there was none, an
/// eighth of the way towards it otherwise.
pub open spec fn smoothed(previous: u64, sample: u64) -> u64 {
    if previous == 0 {
        sample
    } else {
        ((if previous * 7 > u64::MAX {
            u64::MAX as int
        } else if previous * 7 + sample > u64::MAX {
            u64::MAX as int
        } else {
            previous * 7 + sample
        }) / 8) as u64
    }
}

/// A latency in microseconds, at least one.
pub open spec fn micros(nanos: u64) -> u64 {
    if nanos / 1000 < 1 { 1 } else { nanos / 1000 }
}

/// What a node counts about itself.
pub struct Metrics {
    /// When the counting began, in nanoseconds of a monotonic clock.
    pub started_at: u64,
    pub routes: NameMap<RouteStats>,
    pub gaps: u64,
    pub divergences: u64,
    pub resyncs: u64,
    pub batches_sent: u64,
    pub frames_sent: u64,
    pub max_batch_frames: u64,
    pub writes_rejected: u64,
    pub active_requests: u64,
    pub latency_ewma_us: u64,
}

/// A count one higher, going round past the top.
pub open spec fn next_count(n: u64) -> u64 {
    if n == u64::MAX { 0 } else { (n + 1) as u64 }
}

impl Metrics {
    /// The histogram of a route; an empty one where nothing was seen.
    pub open spec fn route(self, key: Seq<char>) -> RouteStatsView {
        if self.routes@.dom().contains(key) { self.routes@[key]@ } else { RouteStatsView::nothing() }
    }

    /// Every route's counts add up.
    pub open spec fn wf(self) -> bool {
        forall|k: Seq<char>| #[trigger] self.routes@.dom().contains(k) ==> self.routes@[k].wf()
    }

    /// Nothing counted yet, from this moment on: `now` is what uptime is measured from.
    pub fn new(now: u64) -> (r: Self)
        ensures
            r.wf(),
            r.routes@ == Map::<Seq<char>, RouteStats>::empty(),
            r == (Metrics { routes: r.routes, started_at: now, gaps: 0, divergences: 0, resyncs: 0, batches_sent: 0,
                frames_sent: 0, max_batch_frames: 0, writes_rejected: 0, active_requests: 0, latency_ewma_us: 0 }),
    {
        Metrics {
            started_at: now,
            routes: NameMap::new(),
            gaps: 0,
            divergences: 0,
            resyncs: 0,
            batches_sent: 0,
            frames_sent: 0,
            max_batch_frames: 0,
            writes_rejected: 0,
            active_requests: 0,
            latency_ewma_us: 0,
        }
    }

    pub fn begin_request(&mut self)
        ensures
            *final(self) == (Metrics { active_requests: next_count(old(self).active_requests), ..*old(self) }),
    {
        self.active_requests = self.active_requests.wrapping_add(1);
    }

    pub fn end_request(&mut self)
        ensures
            *final(self) == (Metrics {
                active_requests: if old(self).active_requests == 0 { u64::MAX } else { (old(self).active_requests - 1) as u64 },
                ..*old(self)
            }),
    {
        self.active_requests = self.active_requests.wrapping_sub(1);
    }

    pub fn node_load(&self) -> (r: NodeLoad)
        ensures
            r == (NodeLoad { inflight: self.active_requests, latency_ewma_us: self.latency_ewma_us }),
    {
        NodeLoad { inflight: self.active_requests, latency_ewma_us: self.latency_ewma_us }
    }

    pub fn note_write_rejected(&mut self)
        ensures
            *final(self) == (Metrics { writes_rejected: next_count(old(self).writes_rejected), ..*old(self) }),
    {
        self.writes_rejected = self.writes_rejected.wrapping_add(1);
    }

    pub fn writes_rejected(&self) -> (r: u64)
        ensures
            r == self.writes_rejected,
    {
        self.writes_rejected
    }

    pub fn note_batch(&mut self, frames: usize)
        ensures
            *final(self) == (Metrics {
                batches_sent: next_count(old(self).batches_sent),
                frames_sent: ((old(self).frames_sent + frames) % (u64::MAX + 1)) as u64,
                max_batch_frames: if frames as u64 > old(self).max_batch_frames { frames as u64 } else { old(self).max_batch_frames },
                ..*old(self)
            }),
    {
        self.batches_sent = self.batches_sent.wrapping_add(1);
        self.frames_sent = self.frames_sent.wrapping_add(frames as u64);
        if frames as u64 > self.max_batch_frames {
            self.max_batch_frames = frames as u64;
        }
    }

    /// Batches and frames. Frames above batches is the whole point of pipelining.
    pub fn batch_counts(&self) -> (r: (u64, u64))
        ensures
            r == (self.batches_sent, self.frames_sent),
    {
        (self.batches_sent, self.frames_sent)
    }

    /// High-water mark rather than a windowed delta: repair can begin before the last write is
    /// appended, so totals over an interval are racy while this is not.
    pub fn max_batch_frames(&self) -> (r: u64)
        ensures
            r == self.max_batch_frames,
    {
        self.max_batch_frames
    }

    pub fn note_gap(&mut self)
        ensures
            *final(self) == (Metrics { gaps: next_count(old(self).gaps), ..*old(self) }),
    {
        self.gaps = self.gaps.wrapping_add(1);
    }

    pub fn note_divergence(&mut self)
        ensures
            *final(self) == (Metrics { divergences: next_count(old(self).divergences), ..*old(self) }),
    {
        self.divergences = self.divergences.wrapping_add(1);
    }

    pub fn note_resync(&mut self)
        ensures
            *final(self) == (Metrics { resyncs: next_count(old(self).resyncs), ..*old(self) }),
    {
        self.resyncs = self.resyncs.wrapping_add(1);
    }

    pub fn repair_counts(&self) -> (r: (u64, u64, u64))
        ensures
            r == (self.gaps, self.divergences, self.resyncs),
    {
        (self.gaps, self.divergences, self.resyncs)
    }

    /// Whether a request of this length can still be counted for a route.
    pub fn has_room(&self, key: &str, nanos: u64) -> (r: bool)
        ensures
            r == (self.route(key@).count < u64::MAX && self.route(key@).nanos_total + nanos <= u64::MAX),
    {
        match self.routes.get(key) {
            Some(st) => st.count < u64::MAX && nanos <= u64::MAX - st.nanos_total,
            None => true,
        }
    }

    /// Counts one request of a route, and moves the smoothed latency towards it.
    pub fn observe(&mut self, key: String, nanos: u64, is_error: bool)
        requires
            old(self).wf(),
            old(self).route(key@).count < u64::MAX,
            old(self).route(key@).nanos_total + nanos <= u64::MAX,
        ensures
            final(self).wf(),
            final(self).routes@ == old(self).routes@.insert(key@, final(self).routes@[key@]),
            final(self).routes@[key@]@ == old(self).route(key@).observed(nanos, is_error),
            *final(self) == (Metrics {
                routes: final(self).routes,
                latency_ewma_us: smoothed(old(self).latency_ewma_us, micros(nanos)),
                ..*old(self)
            }),
    {
        let mut stats: RouteStats = match self.routes.get(key.as_str()) {
            Some(s) => *s,
            None => RouteStats::default(),
        };
        stats.observe(nanos, is_error);
        let ghost k = key@;
        self.routes.insert(key, stats);
        assert(self.routes@ =~= old(self).routes@.insert(k, self.routes@[k]));
        let sample: u64 = if nanos / 1_000 < 1 { 1 } else { nanos / 1_000 };
        let previous: u64 = self.latency_ewma_us;
        let seven: u64 = if previous > u64::MAX / 7 { u64::MAX } else { previous * 7 };
        self.latency_ewma_us = if previous == 0 { sample } else { seven.saturating_add(sample) / 8 };
    }

    /// The whole seconds since the counting began.
    pub fn uptime_secs(&self, now: u64) -> (r: u64)
        ensures
            r == (if self.started_at <= now { (now - self.started_at) / 1_000_000_000 } else { 0 }),
    {
        now.saturating_sub(self.started_at) / 1_000_000_000
    }

    /// Every route with its histogram, in name order.
    pub fn routes_snapshot(&self) -> (r: Vec<(String, RouteStats)>)
        ensures
            increasing(keys_of(r@)),
            keys_of(r@).to_set() == self.routes@.dom(),
            forall|i: int| 0 <= i < r@.len() ==> (#[trigger] r@[i]).1 == self.routes@[r@[i].0@],
    {
        let n = self.routes.len();
        let mut out: Vec<(String, RouteStats)> = Vec::new();
        let mut i: usize = 0;
        while i < n
            invariant
                n == self.routes.keys().len(),
                i <= n,
                out@.len() == i,
                forall|j: int| 0 <= j < i ==> (#[trigger] out@[j]).0@ == self.routes.keys()[j]
                    && out@[j].1 == self.routes@[self.routes.keys()[j]],
            decreases n - i,
        {
            out.push((self.routes.key_at(i).clone(), *self.routes.value_at(i)));
            i += 1;
        }
        assert(keys_of(out@) =~= self.routes.keys());
        out
    }
}

/// The smoothed latency lies between what it was and the sample, as long as nothing saturates.
pub proof fn law_smoothing_stays_between(previous: u64, sample: u64)
    requires
        previous > 0,
        previous * 7 + sample <= u64::MAX,
    ensures
        smoothed(previous, sample) <= (if previous < sample { sample } else { previous }),
        previous <= sample ==> smoothed(previous, sample) >= previous,
        sample <= previous ==> smoothed(previous, sample) >= sample,
{
}

/// The smoothed latency is seven parts of what it was and one part of the sample, rounded down.
pub proof fn law_a_sample_weighs_an_eighth(previous: u64, sample: u64)
    requires
        previous * 7 + sample <= u64::MAX,
    ensures
        previous == 0 ==> smoothed(previous, sample) == sample,
        previous > 0 ==> 8 * smoothed(previous, sample) <= 7 * previous + sample < 8 * smoothed(previous, sample) + 8,
{
}

/// A request counts once: in all, in the bucket of its duration and in no other, and among the errors
/// only if it is one.
pub proof fn law_a_request_counts_once(s: RouteStatsView, nanos: u64, is_error: bool, i: int)
    requires
        s.buckets.len() == 12,
        0 <= i < 12,
        s.count < u64::MAX && s.errors < u64::MAX && s.nanos_total + nanos <= u64::MAX,
        forall|j: int| 0 <= j < 12 ==> #[trigger] s.buckets[j] < u64::MAX,
    ensures
        ({
            let o = s.observed(nanos, is_error);
            &&& o.count == s.count + 1
            &&& o.errors == s.errors + (if is_error { 1int } else { 0 })
            &&& o.nanos_total == s.nanos_total + nanos
            &&& o.buckets.len() == 12
            &&& i == bucket_of(nanos) ==> o.buckets[i] == s.buckets[i] + 1
            &&& i != bucket_of(nanos) ==> o.buckets[i] == s.buckets[i]
        }),
{
}

/// A duration in microseconds is rounded down, and never told as none.
pub proof fn law_no_duration_is_told_as_none(nanos: u64)
    ensures
        micros(nanos) >= 1,
        nanos >= 1000 ==> micros(nanos) * 1000 <= nanos < (micros(nanos) + 1) * 1000,
{
}

} // verus!
