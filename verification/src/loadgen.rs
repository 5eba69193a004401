//! The bookkeeping of the load generator: how many requests succeeded and failed, and a latency
//! histogram over fixed buckets.

use vstd::prelude::*;

verus! {

/// How many latency buckets there are.
pub const BUCKETS: usize = 14;

/// The upper bounds of the latency buckets, in microseconds. The last has none.
pub open spec fn spec_bucket_bound(i: int) -> u64 {
    if i == 0 {
        100
    } else if i == 1 {
        250
    } else if i == 2 {
        500
    } else if i == 3 {
        1_000
    } else if i == 4 {
        2_500
    } else if i == 5 {
        5_000
    } else if i == 6 {
        10_000
    } else if i == 7 {
        25_000
    } else if i == 8 {
        50_000
    } else if i == 9 {
        100_000
    } else if i == 10 {
        250_000
    } else if i == 11 {
        500_000
    } else if i == 12 {
        1_000_000
    } else {
        u64::MAX
    }
}

pub fn bucket_bound(i: usize) -> (bound: u64)
    requires
        i < BUCKETS,
    ensures
        bound == spec_bucket_bound(i as int),
{
    match i {
        0 => 100,
        1 => 250,
        2 => 500,
        3 => 1_000,
        4 => 2_500,
        5 => 5_000,
        6 => 10_000,
        7 => 25_000,
        8 => 50_000,
        9 => 100_000,
        10 => 250_000,
        11 => 500_000,
        12 => 1_000_000,
        _ => u64::MAX,
    }
}

/// `i` is the bucket for a latency: the first whose bound it does not exceed.
pub open spec fn is_bucket(us: u64, i: int) -> bool {
    &&& 0 <= i < BUCKETS
    &&& us <= spec_bucket_bound(i)
    &&& forall|j: int| 0 <= j < i ==> us > #[trigger] spec_bucket_bound(j)
}

/// The bucket for a latency of `us` microseconds.
pub fn bucket_index(us: u64) -> (i: usize)
    ensures
        is_bucket(us, i as int),
{
    let mut i: usize = 0;
    while i < BUCKETS - 1
        invariant
            i < BUCKETS,
            forall|j: int| 0 <= j < i ==> us > #[trigger] spec_bucket_bound(j),
        decreases BUCKETS - i,
    {
        if us <= bucket_bound(i) {
            return i;
        }
        i = i + 1;
    }
    i
}

/// The first `n` counts together.
pub open spec fn sum_of(counts: Seq<u64>, n: int) -> nat
    decreases n,
{
    if n <= 0 {
        0
    } else {
        sum_of(counts, n - 1) + counts[n - 1] as nat
    }
}

pub struct StatsView {
    pub ok: u64,
    pub err: u64,
    pub latencies: Seq<u64>,
}

/// What the load generator has seen. The counters count modulo `2^64`.
#[derive(Debug)]
pub struct Stats {
    ok: u64,
    err: u64,
    latencies: Vec<u64>,
}

impl View for Stats {
    type V = StatsView;

    closed spec fn view(&self) -> StatsView {
        StatsView { ok: self.ok, err: self.err, latencies: self.latencies@ }
    }
}

impl Stats {
    pub open spec fn wf(self) -> bool {
        self@.latencies.len() == BUCKETS
    }

    pub fn new() -> (stats: Stats)
        ensures
            stats.wf(),
            stats@.ok == 0,
            stats@.err == 0,
            stats@.latencies == Seq::new(BUCKETS as nat, |i: int| 0u64),
    {
        let mut latencies: Vec<u64> = Vec::new();
        let mut i: usize = 0;
        while i < BUCKETS
            invariant
                i <= BUCKETS,
                latencies@ == Seq::new(i as nat, |j: int| 0u64),
            decreases BUCKETS - i,
        {
            latencies.push(0);
            i = i + 1;
        }
        Stats { ok: 0, err: 0, latencies }
    }

    /// Records a request that was answered after `us` microseconds.
    pub fn record_ok(&mut self, us: u64)
        requires
            old(self).wf(),
        ensures
            final(self).wf(),
            final(self)@.ok == old(self)@.ok.wrapping_add(1),
            final(self)@.err == old(self)@.err,
            exists|i: int|
                #[trigger] is_bucket(us, i) && final(self)@.latencies
                    == old(self)@.latencies.update(i, old(self)@.latencies[i].wrapping_add(1)),
    {
        let i: usize = bucket_index(us);
        let count: u64 = self.latencies[i].wrapping_add(1);
        self.latencies.set(i, count);
        self.ok = self.ok.wrapping_add(1);
    }

    /// Records a request that was not answered.
    pub fn record_err(&mut self)
        ensures
            final(self)@ == (StatsView { err: old(self)@.err.wrapping_add(1), ..old(self)@ }),
    {
        self.err = self.err.wrapping_add(1);
    }

    pub fn ok(&self) -> (ok: u64)
        ensures
            ok == self@.ok,
    {
        self.ok
    }

    pub fn err(&self) -> (err: u64)
        ensures
            err == self@.err,
    {
        self.err
    }

    /// How many latencies the histogram holds.
    pub fn total(&self) -> (total: u128)
        requires
            self.wf(),
        ensures
            total == sum_of(self@.latencies, BUCKETS as int),
    {
        let mut total: u128 = 0;
        let mut i: usize = 0;
        while i < BUCKETS
            invariant
                self.wf(),
                i <= BUCKETS,
                total == sum_of(self@.latencies, i as int),
                total <= i * u64::MAX,
            decreases BUCKETS - i,
        {
            total = total + self.latencies[i] as u128;
            i = i + 1;
        }
        total
    }

    /// The first bucket up to which at least `target` latencies lie, if there are as many.
    pub fn bucket_of_rank(&self, target: u64) -> (bucket: Option<usize>)
        requires
            self.wf(),
        ensures
            match bucket {
                Some(i) => {
                    &&& i < BUCKETS
                    &&& sum_of(self@.latencies, i + 1) >= target
                    &&& i > 0 ==> sum_of(self@.latencies, i as int) < target
                },
                None => sum_of(self@.latencies, BUCKETS as int) < target,
            },
    {
        let mut seen: u128 = 0;
        let mut i: usize = 0;
        while i < BUCKETS
            invariant
                self.wf(),
                i <= BUCKETS,
                seen == sum_of(self@.latencies, i as int),
                seen <= i * u64::MAX,
                i > 0 ==> seen < target,
            decreases BUCKETS - i,
        {
            seen = seen + self.latencies[i] as u128;
            if seen >= target as u128 {
                return Some(i);
            }
            i = i + 1;
        }
        None
    }
}

/// Every latency has one bucket.
pub proof fn law_bucket_is_unique(us: u64, i: int, j: int)
    requires
        is_bucket(us, i),
        is_bucket(us, j),
    ensures
        i == j,
{
}

proof fn lemma_sum_update(counts: Seq<u64>, i: int, v: u64, n: int)
    requires
        0 <= i < counts.len(),
        0 <= n <= counts.len(),
    ensures
        sum_of(counts.update(i, v), n) == sum_of(counts, n) + if i < n {
            v - counts[i]
        } else {
            0
        },
    decreases n,
{
    if n > 0 {
        lemma_sum_update(counts, i, v, n - 1);
    }
}

/// Each answered request adds one to the histogram, as long as no bucket overflows.
pub proof fn law_record_adds_one(counts: Seq<u64>, us: u64, i: int)
    requires
        counts.len() == BUCKETS,
        is_bucket(us, i),
        counts[i] < u64::MAX,
    ensures
        sum_of(counts.update(i, counts[i].wrapping_add(1)), BUCKETS as int) == sum_of(
            counts,
            BUCKETS as int,
        ) + 1,
{
    lemma_sum_update(counts, i, counts[i].wrapping_add(1), BUCKETS as int);
}

/// A latency lies in its bucket: it does not exceed the bucket's bound, but exceeds the bound of the
/// bucket before. The bounds rise from bucket to bucket, and the last leaves no latency out.
pub proof fn law_latency_lies_in_its_bucket(us: u64, i: int)
    requires
        is_bucket(us, i),
    ensures
        0 <= i < 14,
        us <= spec_bucket_bound(i),
        i > 0 ==> spec_bucket_bound(i - 1) < us,
        forall|j: int|
            0 <= j < 13 ==> #[trigger] spec_bucket_bound(j) < spec_bucket_bound(j + 1),
        spec_bucket_bound(13) == u64::MAX,
{
}

/// `sum_of` adds up the first counts.
pub proof fn law_sum_adds_up(counts: Seq<u64>, n: int)
    requires
        0 <= n <= counts.len(),
    ensures
        sum_of(counts, n) == counts.take(n).fold_left(0int, |sum: int, count: u64| sum + count),
    decreases n,
{
    if n > 0 {
        law_sum_adds_up(counts, n - 1);
        assert(counts.take(n).drop_last() == counts.take(n - 1));
        assert(counts.take(n).last() == counts[n - 1]);
    }
}

/// The bucket of a rank holds it: fewer than `target` latencies lie in the buckets before, and at
/// least as many up to it. A higher rank lies in no lower bucket.
pub proof fn law_ranks_follow_the_buckets(
    stats: &Stats,
    low: u64,
    high: u64,
    a: Option<usize>,
    b: Option<usize>,
)
    requires
        stats.wf(),
        low <= high,
        call_ensures(Stats::bucket_of_rank, (stats, low), a),
        call_ensures(Stats::bucket_of_rank, (stats, high), b),
    ensures
        b is Some ==> a is Some && a->0 <= b->0,
        a is None <==> stats@.latencies.fold_left(0int, |sum: int, count: u64| sum + count) < low,
        a is Some && a->0 > 0 ==> stats@.latencies.take(a->0 as int).fold_left(
            0int,
            |sum: int, count: u64| sum + count,
        ) < low,
        a is Some ==> stats@.latencies.take(a->0 + 1).fold_left(
            0int,
            |sum: int, count: u64| sum + count,
        ) >= low,
{
    let counts = stats@.latencies;
    assert(counts.take(BUCKETS as int) == counts);
    law_sum_adds_up(counts, BUCKETS as int);
    if a is Some {
        law_sum_adds_up(counts, a->0 as int);
        law_sum_adds_up(counts, a->0 + 1);
        lemma_sum_grows(counts, a->0 + 1, BUCKETS as int);
        if b is Some && b->0 < a->0 {
            lemma_sum_grows(counts, b->0 + 1, a->0 as int);
        }
    }
    if b is Some {
        lemma_sum_grows(counts, b->0 + 1, BUCKETS as int);
    }
}

proof fn lemma_sum_grows(counts: Seq<u64>, n: int, m: int)
    requires
        n <= m,
    ensures
        sum_of(counts, n) <= sum_of(counts, m),
    decreases m - n,
{
    if n < m {
        lemma_sum_grows(counts, n, m - 1);
    }
}

} // verus!
