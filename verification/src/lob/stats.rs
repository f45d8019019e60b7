//! Latency histogram with fixed-width buckets.
use vstd::prelude::*;

verus! {

pub const HISTOGRAM_BUCKETS: usize = 1000;

pub const BUCKET_WIDTH_NS: u64 = 100;

/// The sum of the first `n` counts of `h`.
pub open spec fn prefix_sum(h: Seq<u64>, n: int) -> int
    decreases n,
{
    if n <= 0 {
        0
    } else {
        prefix_sum(h, n - 1) + h[n - 1]
    }
}

/// The bucket a latency is counted in: one per `BUCKET_WIDTH_NS`, the last one open-ended.
pub open spec fn bucket_of(latency_ns: u64) -> int {
    let b = latency_ns / BUCKET_WIDTH_NS;
    if b < HISTOGRAM_BUCKETS - 1 {
        b as int
    } else {
        HISTOGRAM_BUCKETS - 1
    }
}

/// The buckets up to and including `k` count at least `target` samples.
pub open spec fn reaches(h: Seq<u64>, k: int, target: u64) -> bool {
    prefix_sum(h, k + 1) >= target
}

/// The upper edge of the first bucket by which at least `target` samples are counted,
/// or the upper edge of the whole histogram when fewer samples are counted.
pub open spec fn rank_value(h: Seq<u64>, target: u64) -> u64 {
    if exists|k: int| 0 <= k < h.len() && #[trigger] reaches(h, k, target) {
        let k = choose|k: int|
            0 <= k < h.len() && reaches(h, k, target) && forall|j: int|
                0 <= j < k ==> !#[trigger] reaches(h, j, target);
        ((k + 1) * BUCKET_WIDTH_NS) as u64
    } else {
        (HISTOGRAM_BUCKETS * BUCKET_WIDTH_NS) as u64
    }
}

/// The smallest whole number at least `count * num / den`.
pub open spec fn ceil_ratio(count: u64, num: nat, den: nat) -> u64 {
    ((count * num + den - 1) / den as int) as u64
}

/// Counts, sum, extremes and histogram of recorded latencies.
pub struct LatencyStats {
    histogram: Vec<u64>,
    total_count: u64,
    total_sum_ns: u64,
    min_ns: u64,
    max_ns: u64,
}

/// The abstract content of the statistics.
pub struct StatsView {
    pub histogram: Seq<u64>,
    pub count: u64,
    pub sum_ns: u64,
    pub min_ns: u64,
    pub max_ns: u64,
}

impl View for LatencyStats {
    type V = StatsView;

    closed spec fn view(&self) -> StatsView {
        StatsView {
            histogram: self.histogram@,
            count: self.total_count,
            sum_ns: self.total_sum_ns,
            min_ns: self.min_ns,
            max_ns: self.max_ns,
        }
    }
}

proof fn lemma_prefix_update(h: Seq<u64>, b: int, v: u64, n: int)
    requires
        0 <= b < h.len(),
        0 <= n <= h.len(),
    ensures
        prefix_sum(h.update(b, v), n) == prefix_sum(h, n) + if b < n {
            v - h[b]
        } else {
            0
        },
    decreases n,
{
    if n > 0 {
        lemma_prefix_update(h, b, v, n - 1);
    }
}

proof fn lemma_prefix_monotone(h: Seq<u64>, a: int, b: int)
    requires
        0 <= a <= b <= h.len(),
    ensures
        prefix_sum(h, a) <= prefix_sum(h, b),
    decreases b - a,
{
    if a < b {
        lemma_prefix_monotone(h, a, b - 1);
    }
}

/// Once something is recorded, the bucket of the largest sample is the last bucket that
/// counts any.
pub open spec fn top_bucket_ok(v: StatsView) -> bool {
    &&& v.count == 0 ==> v.max_ns == 0
    &&& v.count > 0 ==> {
        &&& v.histogram[bucket_of(v.max_ns)] > 0
        &&& forall|k: int| bucket_of(v.max_ns) < k < HISTOGRAM_BUCKETS ==> #[trigger] v.histogram[k] == 0
    }
}

impl LatencyStats {
    /// The histogram counts every recorded sample.
    pub closed spec fn wf(&self) -> bool {
        &&& self.histogram@.len() == HISTOGRAM_BUCKETS
        &&& prefix_sum(self.histogram@, HISTOGRAM_BUCKETS as int) == self.total_count
        &&& top_bucket_ok(self@)
    }

    /// Well-formed statistics have one count per bucket, the counts add up to the number of
    /// samples, and the largest sample's bucket is the last that counts any.
    pub proof fn lemma_buckets(&self)
        requires
            self.wf(),
        ensures
            self@.histogram.len() == HISTOGRAM_BUCKETS,
            prefix_sum(self@.histogram, HISTOGRAM_BUCKETS as int) == self@.count,
            top_bucket_ok(self@),
    {
    }

    /// Statistics with nothing recorded.
    pub fn new() -> (s: Self)
        ensures
            s.wf(),
            s@ == (StatsView {
                histogram: Seq::new(HISTOGRAM_BUCKETS as nat, |i: int| 0u64),
                count: 0,
                sum_ns: 0,
                min_ns: u64::MAX,
                max_ns: 0,
            }),
    {
        let mut histogram: Vec<u64> = Vec::with_capacity(HISTOGRAM_BUCKETS);
        let mut i: usize = 0;
        while i < HISTOGRAM_BUCKETS
            invariant
                i <= HISTOGRAM_BUCKETS,
                histogram@ == Seq::new(i as nat, |k: int| 0u64),
                prefix_sum(histogram@, i as int) == 0,
            decreases HISTOGRAM_BUCKETS - i,
        {
            histogram.push(0);
            i = i + 1;
            proof {
                assert(histogram@ =~= Seq::new(i as nat, |k: int| 0u64));
                assert(histogram@.subrange(0, i - 1) =~= Seq::new((i - 1) as nat, |k: int| 0u64));
                lemma_prefix_prefix(histogram@, (i - 1) as int);
            }
        }
        Self { histogram, total_count: 0, total_sum_ns: 0, min_ns: u64::MAX, max_ns: 0 }
    }

    /// Records one latency sample.
    pub fn record(&mut self, latency_ns: u64)
        requires
            old(self).wf(),
            old(self)@.count < u64::MAX,
            old(self)@.sum_ns + latency_ns <= u64::MAX,
        ensures
            final(self).wf(),
            final(self)@ == (StatsView {
                histogram: old(self)@.histogram.update(
                    bucket_of(latency_ns),
                    (old(self)@.histogram[bucket_of(latency_ns)] + 1) as u64,
                ),
                count: (old(self)@.count + 1) as u64,
                sum_ns: (old(self)@.sum_ns + latency_ns) as u64,
                min_ns: if latency_ns < old(self)@.min_ns {
                    latency_ns
                } else {
                    old(self)@.min_ns
                },
                max_ns: if latency_ns > old(self)@.max_ns {
                    latency_ns
                } else {
                    old(self)@.max_ns
                },
            }),
    {
        self.total_count = self.total_count + 1;
        self.total_sum_ns = self.total_sum_ns + latency_ns;
        if latency_ns < self.min_ns {
            self.min_ns = latency_ns;
        }
        if latency_ns > self.max_ns {
            self.max_ns = latency_ns;
        }
        let q = latency_ns / BUCKET_WIDTH_NS;
        let bucket = if q < (HISTOGRAM_BUCKETS as u64) - 1 { q as usize } else { HISTOGRAM_BUCKETS - 1 };
        proof {
            let h = self.histogram@;
            lemma_prefix_monotone(h, bucket + 1, HISTOGRAM_BUCKETS as int);
            lemma_prefix_monotone(h, 0, bucket as int);
            assert(h[bucket as int] < u64::MAX);
            lemma_prefix_monotone(h, bucket as int, bucket + 1);
            lemma_prefix_update(h, bucket as int, (h[bucket as int] + 1) as u64, HISTOGRAM_BUCKETS as int);
        }
        let c = self.histogram[bucket];
        self.histogram.set(bucket, c + 1);
        proof {
            let h = self.histogram@;
            let h0 = old(self)@.histogram;
            let m0 = old(self)@.max_ns;
            let m1 = self@.max_ns;
            assert(bucket_of(latency_ns) == bucket as int);
            lemma_bucket_monotone(latency_ns, m1);
            lemma_bucket_monotone(m0, m1);
            if old(self)@.count == 0 {
                lemma_prefix_zero(h0, HISTOGRAM_BUCKETS as int);
            }
            assert forall|k: int| bucket_of(m1) < k < HISTOGRAM_BUCKETS implies #[trigger] h[k] == 0 by {
                assert(k != bucket);
                assert(h[k] == h0[k]);
                if old(self)@.count > 0 {
                    assert(bucket_of(m0) < k);
                }
            }
            if latency_ns > m0 {
                assert(bucket_of(m1) == bucket as int);
                assert(h[bucket as int] > 0);
            } else if old(self)@.count == 0 {
                assert(latency_ns == m0);
                assert(h[bucket as int] > 0);
            } else {
                assert(h0[bucket_of(m0)] > 0);
                if bucket_of(m0) != bucket as int {
                    assert(h[bucket_of(m0)] == h0[bucket_of(m0)]);
                }
            }
        }
    }

    /// The upper edge of the first bucket by which `target` samples are counted; see
    /// `rank_value`. Zero when nothing was recorded.
    pub fn value_at_rank(&self, target: u64) -> (r: u64)
        requires
            self.wf(),
        ensures
            r == if self@.count == 0 {
                0
            } else {
                rank_value(self@.histogram, target)
            },
    {
        if self.total_count == 0 {
            return 0;
        }
        let mut cumulative: u64 = 0;
        let mut i: usize = 0;
        while i < HISTOGRAM_BUCKETS
            invariant
                self.wf(),
                self.total_count > 0,
                i <= HISTOGRAM_BUCKETS,
                cumulative == prefix_sum(self.histogram@, i as int),
                forall|j: int| 0 <= j < i ==> !#[trigger] reaches(self.histogram@, j, target),
            decreases HISTOGRAM_BUCKETS - i,
        {
            proof {
                lemma_prefix_monotone(self.histogram@, i + 1, HISTOGRAM_BUCKETS as int);
            }
            cumulative = cumulative + self.histogram[i];
            if cumulative >= target {
                proof {
                    let h = self.histogram@;
                    assert(reaches(h, i as int, target));
                    assert(exists|k: int| 0 <= k < h.len() && #[trigger] reaches(h, k, target));
                    let k = choose|k: int|
                        0 <= k < h.len() && reaches(h, k, target) && forall|j: int|
                            0 <= j < k ==> !#[trigger] reaches(h, j, target);
                    assert(k == i) by {
                        if k < i {
                            assert(!reaches(h, k, target));
                        } else if k > i {
                            assert(!reaches(h, i as int, target));
                        }
                    }
                    assert(rank_value(h, target) == ((i + 1) * BUCKET_WIDTH_NS) as u64);
                }
                return ((i as u64) + 1) * BUCKET_WIDTH_NS;
            }
            i = i + 1;
        }
        (HISTOGRAM_BUCKETS as u64) * BUCKET_WIDTH_NS
    }

    /// The median bucket edge.
    pub fn p50(&self) -> (r: u64)
        requires
            self.wf(),
        ensures
            r == if self@.count == 0 {
                0
            } else {
                rank_value(self@.histogram, ceil_ratio(self@.count, 50, 100))
            },
    {
        let target = ((self.total_count as u128 * 50 + 99) / 100) as u64;
        self.value_at_rank(target)
    }

    /// The 90th-percentile bucket edge.
    pub fn p90(&self) -> (r: u64)
        requires
            self.wf(),
        ensures
            r == if self@.count == 0 {
                0
            } else {
                rank_value(self@.histogram, ceil_ratio(self@.count, 90, 100))
            },
    {
        let target = ((self.total_count as u128 * 90 + 99) / 100) as u64;
        self.value_at_rank(target)
    }

    /// The 99th-percentile bucket edge.
    pub fn p99(&self) -> (r: u64)
        requires
            self.wf(),
        ensures
            r == if self@.count == 0 {
                0
            } else {
                rank_value(self@.histogram, ceil_ratio(self@.count, 99, 100))
            },
    {
        let target = ((self.total_count as u128 * 99 + 99) / 100) as u64;
        self.value_at_rank(target)
    }

    /// The number of samples.
    pub fn count(&self) -> (r: u64)
        ensures
            r == self@.count,
    {
        self.total_count
    }

    /// The sum of all samples.
    pub fn sum_ns(&self) -> (r: u64)
        ensures
            r == self@.sum_ns,
    {
        self.total_sum_ns
    }

    /// The smallest sample, or zero when nothing was recorded.
    pub fn min(&self) -> (r: u64)
        ensures
            r == if self@.count == 0 {
                0
            } else {
                self@.min_ns
            },
    {
        if self.total_count == 0 {
            0
        } else {
            self.min_ns
        }
    }

    /// The largest sample, or zero when nothing was recorded.
    pub fn max(&self) -> (r: u64)
        ensures
            r == if self@.count == 0 {
                0
            } else {
                self@.max_ns
            },
    {
        if self.total_count == 0 {
            0
        } else {
            self.max_ns
        }
    }
}

proof fn lemma_prefix_prefix(h: Seq<u64>, n: int)
    requires
        0 <= n < h.len(),
        forall|k: int| 0 <= k < h.len() ==> h[k] == 0,
    ensures
        prefix_sum(h, n + 1) == 0,
    decreases n,
{
    assert(h[n] == 0);
    assert(prefix_sum(h, 0) == 0);
    if n > 0 {
        lemma_prefix_prefix(h, n - 1);
    }
}

/// The percentile edge that `p50`, `p90` and `p99` give for `num` percent: zero when
/// nothing was recorded.
pub open spec fn percentile_edge(v: StatsView, num: nat) -> u64 {
    if v.count == 0 {
        0
    } else {
        rank_value(v.histogram, ceil_ratio(v.count, num, 100))
    }
}

/// A rank's edge is a whole bucket edge, from the first bucket's up to the histogram's end.
proof fn lemma_rank_value_range(h: Seq<u64>, target: u64)
    requires
        h.len() == HISTOGRAM_BUCKETS,
    ensures
        BUCKET_WIDTH_NS <= rank_value(h, target) <= HISTOGRAM_BUCKETS * BUCKET_WIDTH_NS,
        rank_value(h, target) % BUCKET_WIDTH_NS == 0,
{
    if exists|k: int| 0 <= k < h.len() && #[trigger] reaches(h, k, target) {
        lemma_first_reach(h, target);
        let k = choose|k: int|
            0 <= k < h.len() && reaches(h, k, target) && forall|j: int|
                0 <= j < k ==> !#[trigger] reaches(h, j, target);
        assert(((k + 1) * 100) % 100 == 0) by (nonlinear_arith);
        assert(100 <= (k + 1) * 100 <= 100000) by (nonlinear_arith)
            requires 0 <= k < 1000;
    }
}

/// When some bucket reaches `target`, there is a first one.
proof fn lemma_first_reach(h: Seq<u64>, target: u64)
    requires
        exists|k: int| 0 <= k < h.len() && #[trigger] reaches(h, k, target),
    ensures
        exists|k: int|
            0 <= k < h.len() && reaches(h, k, target) && forall|j: int|
                0 <= j < k ==> !#[trigger] reaches(h, j, target),
{
    let k0 = choose|k: int| 0 <= k < h.len() && #[trigger] reaches(h, k, target);
    lemma_first_reach_below(h, target, k0);
}

proof fn lemma_first_reach_below(h: Seq<u64>, target: u64, k0: int)
    requires
        0 <= k0 < h.len(),
        reaches(h, k0, target),
    ensures
        exists|k: int|
            0 <= k <= k0 && reaches(h, k, target) && forall|j: int|
                0 <= j < k ==> !#[trigger] reaches(h, j, target),
    decreases k0,
{
    if exists|j: int| 0 <= j < k0 && #[trigger] reaches(h, j, target) {
        let j = choose|j: int| 0 <= j < k0 && #[trigger] reaches(h, j, target);
        lemma_first_reach_below(h, target, j);
    } else {
        assert(forall|j: int| 0 <= j < k0 ==> !#[trigger] reaches(h, j, target));
    }
}

/// A larger rank never has a lower edge.
pub proof fn lemma_rank_value_monotone(h: Seq<u64>, t1: u64, t2: u64)
    requires
        h.len() == HISTOGRAM_BUCKETS,
        t1 <= t2,
    ensures
        rank_value(h, t1) <= rank_value(h, t2),
{
    if exists|k: int| 0 <= k < h.len() && #[trigger] reaches(h, k, t2) {
        lemma_first_reach(h, t2);
        let k2 = choose|k: int|
            0 <= k < h.len() && reaches(h, k, t2) && forall|j: int|
                0 <= j < k ==> !#[trigger] reaches(h, j, t2);
        assert(reaches(h, k2, t1));
        lemma_first_reach(h, t1);
        let k1 = choose|k: int|
            0 <= k < h.len() && reaches(h, k, t1) && forall|j: int|
                0 <= j < k ==> !#[trigger] reaches(h, j, t1);
        assert(k1 <= k2) by {
            if k1 > k2 {
                assert(!reaches(h, k2, t1));
            }
        }
        assert((k1 + 1) * 100 <= (k2 + 1) * 100) by (nonlinear_arith)
            requires k1 <= k2;
    } else {
        lemma_rank_value_range(h, t1);
    }
}

/// Percentiles are ordered: a higher percentage never gives a lower edge, and every edge is
/// zero when nothing was recorded, else a whole bucket edge from 100 to 100,000.
pub proof fn lemma_percentiles_ordered(v: StatsView, lo: nat, hi: nat)
    requires
        v.histogram.len() == HISTOGRAM_BUCKETS,
        lo <= hi <= 100,
    ensures
        percentile_edge(v, lo) <= percentile_edge(v, hi) <= HISTOGRAM_BUCKETS * BUCKET_WIDTH_NS,
        (percentile_edge(v, hi) == 0) == (v.count == 0),
        percentile_edge(v, hi) % BUCKET_WIDTH_NS == 0,
{
    if v.count > 0 {
        let c = v.count as int;
        assert(c * lo <= c * hi) by (nonlinear_arith)
            requires 0 <= c, lo <= hi;
        assert(c * hi <= c * 100) by (nonlinear_arith)
            requires 0 <= c, hi <= 100;
        assert((c * lo + 99) / 100 <= (c * hi + 99) / 100) by (nonlinear_arith)
            requires c * lo <= c * hi, 0 <= c * lo;
        assert((c * hi + 99) / 100 <= c) by (nonlinear_arith)
            requires c * hi <= c * 100, 0 <= c * hi;
        assert(0 <= (c * lo + 99) / 100) by (nonlinear_arith)
            requires 0 <= c * lo;
        lemma_rank_value_monotone(v.histogram, ceil_ratio(v.count, lo, 100), ceil_ratio(v.count, hi, 100));
        lemma_rank_value_range(v.histogram, ceil_ratio(v.count, hi, 100));
    }
}

/// A larger latency falls in the same bucket or a later one.
proof fn lemma_bucket_monotone(a: u64, b: u64)
    requires
        a <= b,
    ensures
        bucket_of(a) <= bucket_of(b),
{
    assert(a / 100 <= b / 100) by (nonlinear_arith)
        requires a <= b;
}

/// The top rank, the count of all samples, lies in the bucket of the largest sample: its
/// edge is that bucket's upper edge. With fewer than 1000 samples this is what the 99.9th
/// percentile rank reaches.
pub proof fn lemma_top_rank(v: StatsView)
    requires
        v.histogram.len() == HISTOGRAM_BUCKETS,
        prefix_sum(v.histogram, HISTOGRAM_BUCKETS as int) == v.count,
        top_bucket_ok(v),
        v.count > 0,
    ensures
        rank_value(v.histogram, v.count) == ((bucket_of(v.max_ns) + 1) * BUCKET_WIDTH_NS) as u64,
{
    let h = v.histogram;
    let b = bucket_of(v.max_ns);
    assert(0 <= b < HISTOGRAM_BUCKETS) by {
        assert(v.max_ns / 100 >= 0) by (nonlinear_arith);
    }
    lemma_prefix_zero_tail(h, b + 1, HISTOGRAM_BUCKETS as int);
    assert(reaches(h, b, v.count));
    assert forall|j: int| 0 <= j < b implies !#[trigger] reaches(h, j, v.count) by {
        lemma_prefix_monotone(h, j + 1, b);
    }
    lemma_first_reach(h, v.count);
    let k = choose|k: int|
        0 <= k < h.len() && reaches(h, k, v.count) && forall|j: int|
            0 <= j < k ==> !#[trigger] reaches(h, j, v.count);
    assert(k == b) by {
        if k < b {
            assert(!reaches(h, k, v.count));
        } else if k > b {
            assert(!reaches(h, b, v.count));
        }
    }
}

/// Buckets from `a` on that count nothing add nothing to the prefix sums.
proof fn lemma_prefix_zero_tail(h: Seq<u64>, a: int, n: int)
    requires
        0 <= a <= n <= h.len(),
        forall|k: int| a <= k < h.len() ==> #[trigger] h[k] == 0,
    ensures
        prefix_sum(h, n) == prefix_sum(h, a),
    decreases n - a,
{
    if n > a {
        lemma_prefix_zero_tail(h, a, n - 1);
    }
}

/// Counts that sum to nothing are all nothing.
proof fn lemma_prefix_zero(h: Seq<u64>, n: int)
    requires
        0 <= n <= h.len(),
        prefix_sum(h, n) == 0,
    ensures
        forall|k: int| 0 <= k < n ==> #[trigger] h[k] == 0,
    decreases n,
{
    if n > 0 {
        lemma_prefix_monotone(h, 0, n - 1);
        assert(prefix_sum(h, 0) == 0);
        lemma_prefix_zero(h, n - 1);
    }
}

} // verus!
