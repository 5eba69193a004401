//! Smooth weighted round robin: the order in which a pool hands out its backends.
//!
//! Weights are first brought to lowest terms, which gives every backend its *share*. One cycle
//! of the schedule has as many entries as there are shares in all, and each entry goes to the
//! backend that is furthest behind what it is owed at that point.

use crate::gcd::{divides, gcd, law_gcd_is_greatest_common_divisor, lemma_gcd_scales, spec_gcd};
use vstd::arithmetic::div_mod::{
    lemma_div_by_self, lemma_div_multiples_vanish_quotient, lemma_mod_self_0, lemma_small_mod,
};
use vstd::arithmetic::mul::lemma_mul_is_distributive_add;
use vstd::prelude::*;

verus! {

/// The greatest common divisor of all weights, 0 when no weight is positive.
pub open spec fn common_gcd(weights: Seq<u32>) -> nat
    decreases weights.len(),
{
    if weights.len() == 0 {
        0
    } else {
        spec_gcd(common_gcd(weights.drop_last()), weights.last() as nat)
    }
}

/// The weights in lowest terms.
pub open spec fn shares(weights: Seq<u32>) -> Seq<int> {
    let g = common_gcd(weights);
    let divisor: nat = if g == 0 {
        1
    } else {
        g
    };
    Seq::new(weights.len(), |i: int| weights[i] as int / divisor as int)
}

pub open spec fn sum(s: Seq<int>) -> int
    decreases s.len(),
{
    if s.len() == 0 {
        0
    } else {
        sum(s.drop_last()) + s.last()
    }
}

/// How often index `i` stands in `picks`.
pub open spec fn occurrences(picks: Seq<usize>, i: int) -> nat
    decreases picks.len(),
{
    if picks.len() == 0 {
        0
    } else {
        occurrences(picks.drop_last(), i) + if picks.last() == i {
            1nat
        } else {
            0nat
        }
    }
}

/// What `i` is still owed after `picks`, in units of a pick divided by `sum(shares)`: its share of
/// that many picks, less the picks that it got. Negative when `i` got more than its due.
pub open spec fn standing(shares: Seq<int>, picks: Seq<usize>, i: int) -> int {
    picks.len() * shares[i] - sum(shares) * occurrences(picks, i)
}

/// `standing` at the moment when the pick that follows `picks` is decided: the due of that pick
/// counts, nobody has got it yet.
pub open spec fn credit(shares: Seq<int>, picks: Seq<usize>, i: int) -> int {
    standing(shares, picks, i) + shares[i]
}

/// `b` is the pick that follows `picks`: of all backends with a share, the first one whose
/// credit is greatest.
pub open spec fn is_next_pick(shares: Seq<int>, picks: Seq<usize>, b: int) -> bool {
    &&& 0 <= b < shares.len()
    &&& shares[b] > 0
    &&& forall|j: int|
        0 <= j < shares.len() && #[trigger] shares[j] > 0 ==> {
            &&& credit(shares, picks, j) <= credit(shares, picks, b)
            &&& j < b ==> credit(shares, picks, j) < credit(shares, picks, b)
        }
}

/// Every entry of `order` is the pick that follows the entries before it.
pub open spec fn is_smooth(shares: Seq<int>, order: Seq<usize>) -> bool {
    forall|k: int|
        0 <= k < order.len() ==> is_next_pick(shares, #[trigger] order.take(k), order[k] as int)
}

/// `order` is the schedule for `weights`: one smooth cycle over the shares, or every backend once
/// in turn when no weight is positive.
pub open spec fn is_schedule(weights: Seq<u32>, order: Seq<usize>) -> bool {
    let sh = shares(weights);
    if sum(sh) == 0 {
        &&& order.len() == weights.len()
        &&& forall|i: int| 0 <= i < order.len() ==> order[i] == i
    } else {
        &&& order.len() == sum(sh)
        &&& is_smooth(sh, order)
    }
}

/// The number of backends that have a share.
pub open spec fn sharers(shares: Seq<int>) -> nat
    decreases shares.len(),
{
    if shares.len() == 0 {
        0
    } else {
        sharers(shares.drop_last()) + if shares.last() > 0 {
            1nat
        } else {
            0nat
        }
    }
}

proof fn lemma_sum_combines(a: Seq<int>, b: Seq<int>, c: Seq<int>, x: int, y: int)
    requires
        a.len() == c.len(),
        b.len() == c.len(),
        forall|i: int| 0 <= i < c.len() ==> #[trigger] c[i] == x * a[i] - y * b[i],
    ensures
        sum(c) == x * sum(a) - y * sum(b),
    decreases c.len(),
{
    if c.len() == 0 {
        assert(x * 0 - y * 0 == 0) by (nonlinear_arith);
    } else {
        let (a1, b1, c1) = (a.drop_last(), b.drop_last(), c.drop_last());
        assert forall|i: int| 0 <= i < c1.len() implies #[trigger] c1[i] == x * a1[i] - y
            * b1[i] by {
            assert(c1[i] == c[i]);
        }
        lemma_sum_combines(a1, b1, c1, x, y);
        lemma_mul_is_distributive_add(x, sum(a1), a.last());
        lemma_mul_is_distributive_add(y, sum(b1), b.last());
        assert(c.last() == x * a.last() - y * b.last());
    }
}

/// Credits that are at most `top` where there is a share, and not positive elsewhere, come to no
/// more than `top` for each sharer.
proof fn lemma_sum_at_most(c: Seq<int>, sh: Seq<int>, top: int)
    requires
        c.len() == sh.len(),
        forall|i: int|
            0 <= i < c.len() ==> if sh[i] > 0 {
                #[trigger] c[i] <= top
            } else {
                c[i] <= 0
            },
    ensures
        sum(c) <= sharers(sh) * top,
    decreases c.len(),
{
    if c.len() == 0 {
        assert(0 * top == 0) by (nonlinear_arith);
    } else {
        let (c1, sh1) = (c.drop_last(), sh.drop_last());
        assert forall|i: int| 0 <= i < c1.len() implies if sh1[i] > 0 {
            #[trigger] c1[i] <= top
        } else {
            c1[i] <= 0
        } by {
            assert(c1[i] == c[i]);
            assert(sh1[i] == sh[i]);
        }
        lemma_sum_at_most(c1, sh1, top);
        let last = c.len() - 1;
        assert(c[last] == c.last() && sh[last] == sh.last());
        assert((sharers(sh1) + 1) * top == sharers(sh1) * top + top) by (nonlinear_arith);
    }
}

proof fn lemma_sum_monotone(a: Seq<int>, b: Seq<int>)
    requires
        a.len() == b.len(),
        forall|i: int| 0 <= i < a.len() ==> #[trigger] a[i] <= b[i],
    ensures
        sum(a) <= sum(b),
        sum(a) == sum(b) ==> a == b,
    decreases a.len(),
{
    if a.len() > 0 {
        let (a1, b1) = (a.drop_last(), b.drop_last());
        assert forall|i: int| 0 <= i < a1.len() implies #[trigger] a1[i] <= b1[i] by {
            assert(a1[i] == a[i]);
        }
        lemma_sum_monotone(a1, b1);
        let last = a.len() - 1;
        assert(a[last] <= b[last]);
        if sum(a) == sum(b) {
            assert(a == a1.push(a[last]));
            assert(b == b1.push(b[last]));
        }
    } else {
        assert(a == b);
    }
}

proof fn lemma_sum_zero(s: Seq<int>)
    requires
        forall|i: int| 0 <= i < s.len() ==> #[trigger] s[i] == 0,
    ensures
        sum(s) == 0,
    decreases s.len(),
{
    if s.len() > 0 {
        let s1 = s.drop_last();
        assert forall|i: int| 0 <= i < s1.len() implies #[trigger] s1[i] == 0 by {
            assert(s1[i] == s[i]);
        }
        lemma_sum_zero(s1);
    }
}

proof fn lemma_sum_of_one(s: Seq<int>, b: int)
    requires
        0 <= b < s.len(),
        forall|i: int| 0 <= i < s.len() ==> #[trigger] s[i] == if i == b {
            1int
        } else {
            0int
        },
    ensures
        sum(s) == 1,
    decreases s.len(),
{
    let s1 = s.drop_last();
    assert forall|i: int| 0 <= i < s1.len() implies #[trigger] s1[i] == s[i] by {}
    if b == s.len() - 1 {
        lemma_sum_zero(s1);
    } else {
        lemma_sum_of_one(s1, b);
    }
    assert(s[s.len() - 1] == s.last());
}

/// The occurrences of all indices come to the number of picks.
proof fn lemma_occurrences_sum(picks: Seq<usize>, n: nat)
    requires
        forall|k: int| 0 <= k < picks.len() ==> #[trigger] picks[k] < n,
    ensures
        sum(Seq::new(n, |i: int| occurrences(picks, i) as int)) == picks.len(),
    decreases picks.len(),
{
    let all = Seq::new(n, |i: int| occurrences(picks, i) as int);
    if picks.len() == 0 {
        lemma_sum_zero(all);
    } else {
        let before = picks.drop_last();
        let b = picks.last() as int;
        assert(picks[picks.len() - 1] < n);
        assert forall|k: int| 0 <= k < before.len() implies #[trigger] before[k] < n by {
            assert(before[k] == picks[k]);
        }
        lemma_occurrences_sum(before, n);
        let earlier = Seq::new(n, |i: int| occurrences(before, i) as int);
        let unit = Seq::new(
            n,
            |i: int|
                if i == b {
                    1int
                } else {
                    0int
                },
        );
        lemma_sum_of_one(unit, b);
        lemma_sum_combines(earlier, unit, all, 1, -1);
    }
}

/// The shares come to a positive sum exactly if some backend has one.
proof fn lemma_some_share(sh: Seq<int>)
    requires
        forall|i: int| 0 <= i < sh.len() ==> #[trigger] sh[i] >= 0,
    ensures
        sum(sh) >= 0,
        sharers(sh) > 0 <==> sum(sh) > 0,
        sum(sh) > 0 <==> exists|i: int| 0 <= i < sh.len() && #[trigger] sh[i] > 0,
        forall|i: int| 0 <= i < sh.len() ==> #[trigger] sh[i] <= sum(sh),
    decreases sh.len(),
{
    if sh.len() > 0 {
        let sh1 = sh.drop_last();
        assert forall|i: int| 0 <= i < sh1.len() implies #[trigger] sh1[i] >= 0 by {
            assert(sh1[i] == sh[i]);
        }
        lemma_some_share(sh1);
        let last = sh.len() - 1;
        assert(sh[last] >= 0);
        assert forall|i: int| 0 <= i < sh.len() implies #[trigger] sh[i] <= sum(sh) by {
            if i < last {
                assert(sh1[i] == sh[i]);
            }
        }
        if sum(sh1) > 0 {
            let i = choose|i: int| 0 <= i < sh1.len() && #[trigger] sh1[i] > 0;
            assert(sh[i] > 0);
        }
    }
}

proof fn lemma_smooth_prefix(sh: Seq<int>, order: Seq<usize>, n: int)
    requires
        is_smooth(sh, order),
        0 <= n <= order.len(),
    ensures
        is_smooth(sh, order.take(n)),
{
    let prefix = order.take(n);
    assert forall|k: int| 0 <= k < prefix.len() implies is_next_pick(
        sh,
        #[trigger] prefix.take(k),
        prefix[k] as int,
    ) by {
        assert(prefix.take(k) == order.take(k));
    }
}

/// The pick that follows `picks` is owed something: the credits of all come to one whole pick.
proof fn lemma_credit_of_next_pick(sh: Seq<int>, picks: Seq<usize>, b: int)
    requires
        forall|i: int| 0 <= i < sh.len() ==> #[trigger] sh[i] >= 0,
        sum(sh) > 0,
        forall|k: int| 0 <= k < picks.len() ==> #[trigger] picks[k] < sh.len(),
        is_next_pick(sh, picks, b),
    ensures
        sharers(sh) * credit(sh, picks, b) >= sum(sh),
{
    let total = sum(sh);
    let n = picks.len() as int;
    let got = Seq::new(sh.len(), |i: int| occurrences(picks, i) as int);
    let credits = Seq::new(sh.len(), |i: int| credit(sh, picks, i));
    lemma_occurrences_sum(picks, sh.len());
    assert forall|i: int| 0 <= i < credits.len() implies #[trigger] credits[i] == (n + 1) * sh[i]
        - total * got[i] by {
        assert((n + 1) * sh[i] == n * sh[i] + sh[i]) by (nonlinear_arith);
    }
    lemma_sum_combines(sh, got, credits, n + 1, total);
    assert(sum(credits) == total) by {
        assert((n + 1) * total - total * n == total) by (nonlinear_arith);
    }
    assert forall|i: int| 0 <= i < credits.len() implies if sh[i] > 0 {
        #[trigger] credits[i] <= credit(sh, picks, b)
    } else {
        credits[i] <= 0
    } by {
        if sh[i] == 0 {
            assert((n + 1) * sh[i] == 0) by (nonlinear_arith)
                requires
                    sh[i] == 0,
            ;
            assert(total * got[i] >= 0) by (nonlinear_arith)
                requires
                    total > 0,
                    got[i] >= 0,
            ;
        }
    }
    lemma_sum_at_most(credits, sh, credit(sh, picks, b));
}

/// In a smooth order nobody ever runs ahead of its due by more than `(m - 1) / m` of a pick, where
/// `m` is the number of sharers, and nobody without a share is picked.
proof fn lemma_never_far_ahead(sh: Seq<int>, picks: Seq<usize>)
    requires
        forall|i: int| 0 <= i < sh.len() ==> #[trigger] sh[i] >= 0,
        sum(sh) > 0,
        is_smooth(sh, picks),
    ensures
        forall|k: int| 0 <= k < picks.len() ==> #[trigger] picks[k] < sh.len() && sh[picks[k] as int] > 0,
        forall|i: int|
            0 <= i < sh.len() ==> sharers(sh) * #[trigger] standing(sh, picks, i) >= -(sharers(sh)
                - 1) * sum(sh),
        forall|i: int|
            0 <= i < sh.len() && sh[i] == 0 ==> #[trigger] occurrences(picks, i) == 0,
    decreases picks.len(),
{
    let total = sum(sh);
    let m = sharers(sh) as int;
    lemma_some_share(sh);
    if picks.len() == 0 {
        assert forall|i: int| 0 <= i < sh.len() implies m * #[trigger] standing(sh, picks, i) >= -(m
            - 1) * total by {
            assert(standing(sh, picks, i) == 0) by {
                assert(0 * sh[i] == 0 && total * 0 == 0) by (nonlinear_arith);
            }
            assert(m * 0 >= -(m - 1) * total) by (nonlinear_arith)
                requires
                    m >= 1,
                    total > 0,
            ;
        }
    } else {
        let n = picks.len() - 1;
        let before = picks.drop_last();
        let b = picks.last() as int;
        assert(before == picks.take(n));
        assert(is_next_pick(sh, picks.take(n), picks[n] as int));
        lemma_smooth_prefix(sh, picks, n);
        lemma_never_far_ahead(sh, before);
        assert forall|k: int| 0 <= k < picks.len() implies #[trigger] picks[k] < sh.len()
            && sh[picks[k] as int] > 0 by {
            if k < n {
                assert(before[k] == picks[k]);
            }
        }
        assert forall|k: int| 0 <= k < before.len() implies #[trigger] before[k] < sh.len() by {
            assert(before[k] == picks[k]);
        }
        lemma_credit_of_next_pick(sh, before, b);
        assert forall|i: int| 0 <= i < sh.len() && sh[i] == 0 implies #[trigger] occurrences(
            picks,
            i,
        ) == 0 by {
            assert(occurrences(before, i) == 0);
        }
        assert forall|i: int| 0 <= i < sh.len() implies m * #[trigger] standing(sh, picks, i) >= -(m
            - 1) * total by {
            let s0 = standing(sh, before, i);
            assert((n + 1) * sh[i] == n * sh[i] + sh[i]) by (nonlinear_arith);
            if i == b {
                let got = occurrences(before, i) as int;
                assert(total * (got + 1) == total * got + total) by (nonlinear_arith);
                let c = credit(sh, before, b);
                assert(standing(sh, picks, i) == c - total);
                assert(m * (c - total) >= -(m - 1) * total) by (nonlinear_arith)
                    requires
                        m * c >= total,
                ;
            } else {
                assert(standing(sh, picks, i) == s0 + sh[i]);
                assert(m * (s0 + sh[i]) >= -(m - 1) * total) by (nonlinear_arith)
                    requires
                        m * s0 >= -(m - 1) * total,
                        m >= 0,
                        sh[i] >= 0,
                ;
            }
        }
    }
}

/// Appending the next pick keeps an order smooth.
proof fn lemma_pick_extends(sh: Seq<int>, picks: Seq<usize>, b: usize)
    requires
        is_smooth(sh, picks),
        is_next_pick(sh, picks, b as int),
    ensures
        is_smooth(sh, picks.push(b)),
{
    let longer = picks.push(b);
    assert forall|k: int| 0 <= k < longer.len() implies is_next_pick(
        sh,
        #[trigger] longer.take(k),
        longer[k] as int,
    ) by {
        if k < picks.len() {
            assert(longer.take(k) == picks.take(k));
        } else {
            assert(longer.take(k) == picks);
        }
    }
}

/// A pick costs its backend one whole pick, and brings every backend its share.
proof fn lemma_standing_after(sh: Seq<int>, picks: Seq<usize>, b: usize, i: int)
    ensures
        standing(sh, picks.push(b), i) == credit(sh, picks, i) - if b == i {
            sum(sh)
        } else {
            0
        },
{
    let longer = picks.push(b);
    let n = picks.len() as int;
    let got = occurrences(picks, i) as int;
    assert(longer.drop_last() == picks);
    assert((n + 1) * sh[i] == n * sh[i] + sh[i]) by (nonlinear_arith);
    assert(sum(sh) * (got + 1) == sum(sh) * got + sum(sh)) by (nonlinear_arith);
}

/// Bounds on what a backend is owed, for the machine arithmetic of `build_schedule`.
proof fn lemma_standing_bounds(sh: Seq<int>, picks: Seq<usize>, i: int)
    requires
        forall|i: int| 0 <= i < sh.len() ==> #[trigger] sh[i] >= 0,
        sum(sh) > 0,
        is_smooth(sh, picks),
        0 <= i < sh.len(),
    ensures
        -sum(sh) < standing(sh, picks, i) <= picks.len() * sh[i],
{
    let total = sum(sh);
    let m = sharers(sh) as int;
    let s = standing(sh, picks, i);
    lemma_some_share(sh);
    lemma_never_far_ahead(sh, picks);
    assert(m * s >= -(m - 1) * total);
    assert(-total < s) by (nonlinear_arith)
        requires
            m * s >= -(m - 1) * total,
            m >= 1,
            total > 0,
    ;
    let got = occurrences(picks, i) as int;
    assert(total * got >= 0) by (nonlinear_arith)
        requires
            total > 0,
            got >= 0,
    ;
}

proof fn lemma_common_gcd_prefix(weights: Seq<u32>, n: int)
    requires
        0 <= n < weights.len(),
    ensures
        common_gcd(weights.take(n + 1)) == spec_gcd(
            common_gcd(weights.take(n)),
            weights[n] as nat,
        ),
{
    assert(weights.take(n + 1).drop_last() == weights.take(n));
}

/// Builds the smooth weighted round-robin pick order for `weights`: the indices of the backends
/// in the order in which they are to be handed out, one whole cycle.
///
/// A backend of weight 0 is drained: it does not appear. When every weight is 0 the order is
/// plain round robin instead, so that routing cannot be brought to a halt.
pub fn build_schedule(weights: &[u32]) -> (order: Vec<usize>)
    ensures
        is_schedule(weights@, order@),
{
    let n: usize = weights.len();
    let ghost sh = shares(weights@);

    let mut g: u32 = 0;
    let mut i: usize = 0;
    while i < n
        invariant
            n == weights@.len(),
            i <= n,
            g == common_gcd(weights@.take(i as int)),
        decreases n - i,
    {
        proof {
            lemma_common_gcd_prefix(weights@, i as int);
        }
        g = gcd(g, weights[i]);
        i = i + 1;
    }
    assert(weights@.take(n as int) == weights@);
    let divisor: u32 = if g == 0 {
        1
    } else {
        g
    };

    let mut share: Vec<i128> = Vec::new();
    let mut total: i128 = 0;
    i = 0;
    while i < n
        invariant
            n == weights@.len(),
            i <= n,
            divisor == if g == 0 {
                1
            } else {
                g
            },
            g == common_gcd(weights@),
            sh == shares(weights@),
            share@.len() == i,
            forall|j: int| 0 <= j < i ==> #[trigger] share@[j] == sh[j],
            total == sum(sh.take(i as int)),
            0 <= total <= i * 0xffff_ffff,
        decreases n - i,
    {
        let s: i128 = (weights[i] / divisor) as i128;
        assert(s == sh[i as int]);
        assert(s <= 0xffff_ffff) by (nonlinear_arith)
            requires
                s == weights[i as int] as int / divisor as int,
                divisor >= 1,
        ;
        assert(sh.take(i + 1).drop_last() == sh.take(i as int));
        share.push(s);
        total = total + s;
        i = i + 1;
    }
    assert(sh.take(n as int) == sh);
    proof {
        assert forall|j: int| 0 <= j < sh.len() implies #[trigger] sh[j] >= 0 by {
            assert(weights@[j] as int / divisor as int >= 0) by (nonlinear_arith)
                requires
                    weights@[j] >= 0,
                    divisor >= 1,
            ;
        }
        lemma_some_share(sh);
    }

    let mut order: Vec<usize> = Vec::new();
    if total == 0 {
        i = 0;
        while i < n
            invariant
                i <= n,
                order@.len() == i,
                forall|j: int| 0 <= j < i ==> order@[j] == j,
            decreases n - i,
        {
            order.push(i);
            i = i + 1;
        }
        return order;
    }
    let mut owed: Vec<i128> = Vec::new();
    i = 0;
    while i < n
        invariant
            i <= n,
            n == sh.len(),
            order@.len() == 0,
            owed@.len() == i,
            forall|j: int| 0 <= j < i ==> #[trigger] owed@[j] == standing(sh, order@, j),
        decreases n - i,
    {
        owed.push(0);
        proof {
            assert(0 * sh[i as int] == 0 && sum(sh) * 0 == 0) by (nonlinear_arith);
        }
        i = i + 1;
    }
    assert(is_smooth(sh, order@));
    while (order.len() as i128) < total
        invariant
            n == sh.len(),
            share@.len() == n,
            forall|j: int| 0 <= j < n ==> #[trigger] share@[j] == sh[j],
            forall|j: int| 0 <= j < n ==> 0 <= #[trigger] sh[j] <= 0xffff_ffff,
            0 < total <= n * 0xffff_ffff,
            total == sum(sh),
            order@.len() <= total,
            is_smooth(sh, order@),
            owed@.len() == n,
            forall|j: int| 0 <= j < n ==> #[trigger] owed@[j] == standing(sh, order@, j),
        decreases total - order@.len(),
    {
        let ghost picks = order@;
        let mut best: usize = n;
        i = 0;
        while i < n
            invariant
                i <= n,
                n == sh.len(),
                share@.len() == n,
                picks == order@,
                forall|j: int| 0 <= j < n ==> #[trigger] share@[j] == sh[j],
                forall|j: int| 0 <= j < n ==> 0 <= #[trigger] sh[j] <= 0xffff_ffff,
                0 < total <= n * 0xffff_ffff,
                total == sum(sh),
                is_smooth(sh, picks),
                owed@.len() == n,
                forall|j: int|
                    0 <= j < n ==> #[trigger] owed@[j] == if j < i {
                        credit(sh, picks, j)
                    } else {
                        standing(sh, picks, j)
                    },
                best < i || best == n,
                best == n ==> forall|j: int| 0 <= j < i ==> #[trigger] sh[j] == 0,
                best < i ==> sh[best as int] > 0 && forall|j: int|
                    0 <= j < i && #[trigger] sh[j] > 0 ==> {
                        &&& credit(sh, picks, j) <= credit(sh, picks, best as int)
                        &&& j < best ==> credit(sh, picks, j) < credit(sh, picks, best as int)
                    },
            decreases n - i,
        {
            let s: i128 = share[i];
            if s > 0 {
                proof {
                    lemma_standing_bounds(sh, picks, i as int);
                    let k = order@.len() as int;
                    let w = sh[i as int];
                    assert(order.len() <= usize::MAX);
                    assert(k * w <= 0xffff_ffff_ffff_ffff * 0xffff_ffff) by (nonlinear_arith)
                        requires
                            0 <= k <= 0xffff_ffff_ffff_ffff,
                            0 <= w <= 0xffff_ffff,
                    ;
                }
                owed.set(i, owed[i] + s);
                if best == n || owed[i] > owed[best] {
                    best = i;
                }
            }
            i = i + 1;
        }
        proof {
            assert forall|j: int| 0 <= j < sh.len() implies #[trigger] sh[j] >= 0 by {}
            lemma_some_share(sh);
            lemma_standing_bounds(sh, picks, best as int);
        }
        owed.set(best, owed[best] - total);
        order.push(best);
        proof {
            lemma_pick_extends(sh, picks, best);
            assert forall|j: int| 0 <= j < n implies #[trigger] owed@[j] == standing(
                sh,
                order@,
                j,
            ) by {
                lemma_standing_after(sh, picks, best, j);
            }
        }
    }
    order
}

proof fn lemma_shares_not_negative(weights: Seq<u32>)
    ensures
        forall|i: int| 0 <= i < weights.len() ==> #[trigger] shares(weights)[i] >= 0,
{
    let g = common_gcd(weights);
    let divisor: int = if g == 0 {
        1
    } else {
        g as int
    };
    assert forall|i: int| 0 <= i < weights.len() implies #[trigger] shares(weights)[i] >= 0 by {
        assert(weights[i] as int / divisor >= 0) by (nonlinear_arith)
            requires
                weights[i] >= 0,
                divisor >= 1,
        ;
    }
}

/// The common divisor divides every weight, and is 0 only if every weight is.
proof fn lemma_common_gcd_divides(weights: Seq<u32>, i: int)
    requires
        0 <= i < weights.len(),
    ensures
        divides(common_gcd(weights), weights[i] as nat),
        common_gcd(weights) == 0 ==> weights[i] == 0,
    decreases weights.len(),
{
    let before = weights.drop_last();
    let g0 = common_gcd(before);
    let g = common_gcd(weights);
    law_gcd_is_greatest_common_divisor(g0, weights.last() as nat);
    if i < before.len() {
        lemma_common_gcd_divides(before, i);
        assert(before[i] == weights[i]);
        let q = choose|q: nat| g0 == #[trigger] (q * g);
        let r = choose|r: nat| weights[i] as nat == #[trigger] (r * g0);
        assert(weights[i] as nat == (r * q) * g) by (nonlinear_arith)
            requires
                g0 == q * g,
                weights[i] as nat == r * g0,
        ;
    }
    if g == 0 {
        let q = choose|q: nat| weights[i] as nat == #[trigger] (q * g);
        assert(q * g == 0) by (nonlinear_arith)
            requires
                g == 0,
        ;
    }
}

/// A weight is its share times the common divisor of all weights.
proof fn lemma_weight_is_share_times_gcd(weights: Seq<u32>, i: int)
    requires
        0 <= i < weights.len(),
    ensures
        weights[i] as int == shares(weights)[i] * common_gcd(weights),
        shares(weights)[i] > 0 <==> weights[i] > 0,
{
    let g = common_gcd(weights);
    let w = weights[i] as int;
    lemma_common_gcd_divides(weights, i);
    if g > 0 {
        let q = choose|q: nat| w as nat == #[trigger] (q * g);
        assert(w / g as int == q) by (nonlinear_arith)
            requires
                w == q * g,
                g > 0,
        ;
        assert(q > 0 <==> w > 0) by (nonlinear_arith)
            requires
                w == q * g,
                g > 0,
                q >= 0,
        ;
    } else {
        assert(w / 1 == w);
        assert(0 * g == 0);
    }
}

/// The shares have a sum exactly if some weight is positive.
pub proof fn lemma_share_sum_positive(weights: Seq<u32>)
    ensures
        sum(shares(weights)) >= 0,
        sum(shares(weights)) > 0 <==> exists|i: int| 0 <= i < weights.len() && #[trigger] weights[i] > 0,
{
    let sh = shares(weights);
    lemma_shares_not_negative(weights);
    lemma_some_share(sh);
    if sum(sh) > 0 {
        let i = choose|i: int| 0 <= i < sh.len() && #[trigger] sh[i] > 0;
        lemma_weight_is_share_times_gcd(weights, i);
        assert(weights[i] > 0);
    }
    if exists|i: int| 0 <= i < weights.len() && #[trigger] weights[i] > 0 {
        let i = choose|i: int| 0 <= i < weights.len() && #[trigger] weights[i] > 0;
        lemma_weight_is_share_times_gcd(weights, i);
        assert(sh[i] > 0);
    }
}

proof fn lemma_smooth_unique(sh: Seq<int>, a: Seq<usize>, b: Seq<usize>, n: int)
    requires
        is_smooth(sh, a),
        is_smooth(sh, b),
        a.len() == b.len(),
        0 <= n <= a.len(),
    ensures
        a.take(n) == b.take(n),
    decreases n,
{
    if n > 0 {
        lemma_smooth_unique(sh, a, b, n - 1);
        let x = a[n - 1] as int;
        let y = b[n - 1] as int;
        assert(is_next_pick(sh, a.take(n - 1), x));
        assert(is_next_pick(sh, b.take(n - 1), y));
        assert(sh[x] > 0 && sh[y] > 0);
        assert(x == y);
        assert(a.take(n) == a.take(n - 1).push(a[n - 1]));
        assert(b.take(n) == b.take(n - 1).push(b[n - 1]));
    }
}

/// Weights have one schedule only.
pub proof fn law_schedule_is_unique(weights: Seq<u32>, a: Seq<usize>, b: Seq<usize>)
    requires
        is_schedule(weights, a),
        is_schedule(weights, b),
    ensures
        a == b,
{
    if sum(shares(weights)) != 0 {
        lemma_smooth_unique(shares(weights), a, b, a.len() as int);
        assert(a.take(a.len() as int) == a);
        assert(b.take(b.len() as int) == b);
    }
}

/// One cycle serves every backend in exact proportion to its weight: its picks, times the common
/// divisor of the weights, are its weight.
pub proof fn law_schedule_is_proportional(weights: Seq<u32>, order: Seq<usize>)
    requires
        is_schedule(weights, order),
        exists|i: int| 0 <= i < weights.len() && #[trigger] weights[i] > 0,
    ensures
        forall|i: int|
            0 <= i < weights.len() ==> #[trigger] occurrences(order, i) == shares(weights)[i],
        forall|i: int|
            0 <= i < weights.len() ==> #[trigger] occurrences(order, i) * common_gcd(weights)
                == weights[i],
{
    let sh = shares(weights);
    let total = sum(sh);
    lemma_shares_not_negative(weights);
    lemma_share_sum_positive(weights);
    lemma_never_far_ahead(sh, order);
    lemma_occurrences_sum(order, sh.len());
    let got = Seq::new(sh.len(), |i: int| occurrences(order, i) as int);
    assert forall|i: int| 0 <= i < got.len() implies #[trigger] got[i] <= sh[i] by {
        lemma_standing_bounds(sh, order, i);
        let (x, y) = (got[i], sh[i]);
        assert(x <= y) by (nonlinear_arith)
            requires
                total * y - total * x > -total,
                total > 0,
        ;
    }
    lemma_sum_monotone(got, sh);
    assert forall|i: int| 0 <= i < weights.len() implies #[trigger] occurrences(order, i)
        == sh[i] && occurrences(order, i) * common_gcd(weights) == weights[i] by {
        assert(got[i] == sh[i]);
        lemma_weight_is_share_times_gcd(weights, i);
    }
}

/// A schedule only names backends that there are, and is empty only without backends. While some
/// weight is positive, a backend is in it if and only if its own weight is: weight 0 drains a
/// backend. When no weight is positive, every backend is in it once.
pub proof fn law_schedule_serves_positive_weights(weights: Seq<u32>, order: Seq<usize>)
    requires
        is_schedule(weights, order),
    ensures
        forall|k: int| 0 <= k < order.len() ==> #[trigger] order[k] < weights.len(),
        order.len() == 0 <==> weights.len() == 0,
        (exists|j: int| 0 <= j < weights.len() && #[trigger] weights[j] > 0) ==> forall|i: int|
            0 <= i < weights.len() ==> (#[trigger] occurrences(order, i) > 0 <==> weights[i] > 0),
        (forall|j: int| 0 <= j < weights.len() ==> #[trigger] weights[j] == 0) ==> forall|i: int|
            0 <= i < weights.len() ==> #[trigger] occurrences(order, i) == 1,
{
    let sh = shares(weights);
    lemma_share_sum_positive(weights);
    lemma_shares_not_negative(weights);
    if sum(sh) > 0 {
        lemma_never_far_ahead(sh, order);
        law_schedule_is_proportional(weights, order);
        assert forall|i: int| 0 <= i < weights.len() implies (#[trigger] occurrences(order, i) > 0
            <==> weights[i] > 0) by {
            lemma_weight_is_share_times_gcd(weights, i);
        }
    } else {
        assert forall|i: int| 0 <= i < weights.len() implies #[trigger] occurrences(order, i)
            == 1 by {
            lemma_occurrences_of_identity(order, i);
        }
    }
}

proof fn lemma_occurrences_of_identity(order: Seq<usize>, i: int)
    requires
        forall|k: int| 0 <= k < order.len() ==> #[trigger] order[k] == k,
    ensures
        occurrences(order, i) == if 0 <= i < order.len() {
            1nat
        } else {
            0nat
        },
    decreases order.len(),
{
    if order.len() > 0 {
        let before = order.drop_last();
        assert forall|k: int| 0 <= k < before.len() implies #[trigger] before[k] == k by {
            assert(before[k] == order[k]);
        }
        lemma_occurrences_of_identity(before, i);
        assert(order[order.len() - 1] == order.len() - 1);
    }
}

proof fn lemma_sum_update(s: Seq<int>, i: int, v: int)
    requires
        0 <= i < s.len(),
    ensures
        sum(s.update(i, v)) == sum(s) - s[i] + v,
    decreases s.len(),
{
    let t = s.update(i, v);
    if i == s.len() - 1 {
        assert(t.drop_last() == s.drop_last());
    } else {
        assert(t.drop_last() == s.drop_last().update(i, v));
        lemma_sum_update(s.drop_last(), i, v);
    }
}

/// What everybody is owed comes to nothing.
proof fn lemma_standings_cancel(sh: Seq<int>, picks: Seq<usize>)
    requires
        forall|k: int| 0 <= k < picks.len() ==> #[trigger] picks[k] < sh.len(),
    ensures
        sum(Seq::new(sh.len(), |i: int| standing(sh, picks, i))) == 0,
{
    let n = picks.len() as int;
    let total = sum(sh);
    let got = Seq::new(sh.len(), |i: int| occurrences(picks, i) as int);
    let all = Seq::new(sh.len(), |i: int| standing(sh, picks, i));
    lemma_occurrences_sum(picks, sh.len());
    lemma_sum_combines(sh, got, all, n, total);
    assert(n * total - total * n == 0) by (nonlinear_arith);
}

/// The order is smooth: at every point of the cycle each backend's picks stay close to its due.
/// With `m` backends of positive weight, `k` picks into the cycle, a backend is ahead of
/// `k * share / total` by at most `(m - 1) / m` of a pick, and behind it by at most
/// `(m - 1) * (m - 1) / m` picks.
pub proof fn law_schedule_is_smooth(weights: Seq<u32>, order: Seq<usize>, k: int, i: int)
    requires
        is_schedule(weights, order),
        exists|j: int| 0 <= j < weights.len() && #[trigger] weights[j] > 0,
        0 <= k <= order.len(),
        0 <= i < weights.len(),
    ensures
        ({
            let m = sharers(shares(weights)) as int;
            let total = order.len() as int;
            let due = k * shares(weights)[i];
            let got = occurrences(order.take(k), i) as int;
            &&& m * (total * got - due) <= (m - 1) * total
            &&& m * (due - total * got) <= (m - 1) * (m - 1) * total
        }),
{
    let sh = shares(weights);
    let m = sharers(sh) as int;
    let total = sum(sh);
    let picks = order.take(k);
    lemma_shares_not_negative(weights);
    lemma_share_sum_positive(weights);
    lemma_some_share(sh);
    lemma_smooth_prefix(sh, order, k);
    lemma_never_far_ahead(sh, picks);
    let s = standing(sh, picks, i);
    assert(m * s >= -(m - 1) * total);
    assert(m * (-s) <= (m - 1) * total) by (nonlinear_arith)
        requires
            m * s >= -(m - 1) * total,
    ;
    lemma_standings_cancel(sh, picks);
    let all = Seq::new(sh.len(), |j: int| standing(sh, picks, j));
    let zero = Seq::new(sh.len(), |j: int| 0int);
    let ahead = Seq::new(sh.len(), |j: int| -(m * standing(sh, picks, j)));
    assert forall|j: int| 0 <= j < ahead.len() implies #[trigger] ahead[j] == (-m) * all[j] - 0
        * zero[j] by {
        let t = standing(sh, picks, j);
        assert(-(m * t) == (-m) * t - 0) by (nonlinear_arith);
    }
    lemma_sum_combines(all, zero, ahead, -m, 0);
    assert((-m) * 0 == 0) by (nonlinear_arith);
    let top = (m - 1) * total;
    if sh[i] > 0 {
        let raised = ahead.update(i, top);
        assert forall|j: int| 0 <= j < raised.len() implies if sh[j] > 0 {
            #[trigger] raised[j] <= top
        } else {
            raised[j] <= 0
        } by {
            let t = standing(sh, picks, j);
            assert(m * t >= -(m - 1) * total);
            assert(-(m * t) <= (m - 1) * total) by (nonlinear_arith)
                requires
                    m * t >= -(m - 1) * total,
            ;
            if sh[j] == 0 {
                lemma_idle_standing(sh, picks, j);
                assert(m * 0 == 0) by (nonlinear_arith);
            }
        }
        lemma_sum_at_most(raised, sh, top);
        lemma_sum_update(ahead, i, top);
        assert(m * s + top <= m * top);
        assert(m * s <= (m - 1) * (m - 1) * total) by (nonlinear_arith)
            requires
                m * s + top <= m * top,
                top == (m - 1) * total,
        ;
    } else {
        lemma_idle_standing(sh, picks, i);
        assert(m * 0 <= (m - 1) * (m - 1) * total) by (nonlinear_arith)
            requires
                m >= 1,
                total > 0,
        ;
    }
}

proof fn lemma_idle_standing(sh: Seq<int>, picks: Seq<usize>, i: int)
    requires
        0 <= i < sh.len(),
        sh[i] == 0,
        occurrences(picks, i) == 0,
    ensures
        standing(sh, picks, i) == 0,
{
    let n = picks.len() as int;
    assert(n * 0 == 0 && sum(sh) * 0 == 0) by (nonlinear_arith);
}

proof fn lemma_occurrences_of_run(picks: Seq<usize>, i: int)
    requires
        forall|k: int| 0 <= k < picks.len() ==> #[trigger] picks[k] == i,
    ensures
        occurrences(picks, i) == picks.len(),
    decreases picks.len(),
{
    if picks.len() > 0 {
        let before = picks.drop_last();
        assert forall|k: int| 0 <= k < before.len() implies #[trigger] before[k] == i by {
            assert(before[k] == picks[k]);
        }
        lemma_occurrences_of_run(before, i);
        assert(picks[picks.len() - 1] == i);
    }
}

/// The order is not bursty: when several backends have positive weight, one with a share of two
/// or more never gets all its picks of the cycle in a row at the start; and when there are just
/// two, never in a row at the end either.
pub proof fn law_schedule_is_not_bursty(weights: Seq<u32>, order: Seq<usize>, i: int)
    requires
        is_schedule(weights, order),
        0 <= i < weights.len(),
        shares(weights)[i] >= 2,
        sharers(shares(weights)) >= 2,
    ensures
        exists|k: int| 0 <= k < shares(weights)[i] && #[trigger] order[k] != i,
        sharers(shares(weights)) == 2 ==> exists|k: int|
            order.len() - shares(weights)[i] <= k < order.len() && #[trigger] order[k] != i,
{
    let sh = shares(weights);
    let s = sh[i];
    let total = sum(sh);
    let m = sharers(sh) as int;
    lemma_weight_is_share_times_gcd(weights, i);
    lemma_shares_not_negative(weights);
    lemma_some_share(sh);
    lemma_share_sum_positive(weights);
    lemma_share_of_others(sh, i);
    let d = total - s;
    assert(d >= m - 1);
    if forall|k: int| 0 <= k < s ==> #[trigger] order[k] == i {
        let run = order.take(s);
        assert forall|k: int| 0 <= k < run.len() implies #[trigger] run[k] == i by {
            assert(run[k] == order[k]);
        }
        lemma_occurrences_of_run(run, i);
        law_schedule_is_smooth(weights, order, s, i);
        assert(false) by (nonlinear_arith)
            requires
                m * (total * s - s * s) <= (m - 1) * total,
                total == s + d,
                s >= 2,
                d >= m - 1,
                m >= 2,
        {
            assert(total * s - s * s == d * s);
            assert((s - 1) * (d - 1) >= 0);
            assert(s * d >= s + d - 1);
            if m >= 3 {
                assert((s - 1) * (d - 1) >= 1);
                assert(s * d >= s + d);
                assert((m - 1) * (s * d) >= (m - 1) * (s + d));
                assert(m * (d * s) == (m - 1) * (s * d) + s * d);
            } else {
                assert(m == 2);
            }
        }
    }
    if m == 2 && (forall|k: int| order.len() - s <= k < order.len() ==> #[trigger] order[k] == i) {
        law_schedule_is_proportional(weights, order);
        law_schedule_is_smooth(weights, order, d, i);
        let head = order.take(d);
        let tail = order.skip(d);
        assert forall|k: int| 0 <= k < tail.len() implies #[trigger] tail[k] == i by {
            assert(tail[k] == order[d + k]);
        }
        lemma_occurrences_of_run(tail, i);
        lemma_occurrences_concat(head, tail, i);
        assert(head + tail == order);
        assert(occurrences(order, i) == s);
        assert(occurrences(head, i) == 0);
        assert(false) by (nonlinear_arith)
            requires
                2 * (d * s - total * 0) <= 1 * 1 * total,
                total == s + d,
                s >= 2,
                d >= 1,
        ;
    }
}

/// Whoever has a share besides `i` adds at least one to the sum.
proof fn lemma_share_of_others(sh: Seq<int>, i: int)
    requires
        forall|j: int| 0 <= j < sh.len() ==> #[trigger] sh[j] >= 0,
        0 <= i < sh.len(),
        sh[i] > 0,
    ensures
        sum(sh) - sh[i] >= sharers(sh) - 1,
    decreases sh.len(),
{
    let sh1 = sh.drop_last();
    let last = sh.len() - 1;
    assert forall|j: int| 0 <= j < sh1.len() implies #[trigger] sh1[j] >= 0 by {
        assert(sh1[j] == sh[j]);
    }
    assert(sh[last] >= 0);
    if i < last {
        assert(sh1[i] == sh[i]);
        lemma_share_of_others(sh1, i);
    } else {
        lemma_sharers_at_most_sum(sh1);
    }
}

proof fn lemma_sharers_at_most_sum(sh: Seq<int>)
    requires
        forall|j: int| 0 <= j < sh.len() ==> #[trigger] sh[j] >= 0,
    ensures
        sharers(sh) <= sum(sh),
    decreases sh.len(),
{
    if sh.len() > 0 {
        let sh1 = sh.drop_last();
        assert forall|j: int| 0 <= j < sh1.len() implies #[trigger] sh1[j] >= 0 by {
            assert(sh1[j] == sh[j]);
        }
        lemma_sharers_at_most_sum(sh1);
        assert(sh[sh.len() - 1] >= 0);
    }
}

pub proof fn lemma_occurrences_concat(a: Seq<usize>, b: Seq<usize>, i: int)
    ensures
        occurrences(a + b, i) == occurrences(a, i) + occurrences(b, i),
    decreases b.len(),
{
    if b.len() == 0 {
        assert(a + b == a);
    } else {
        assert((a + b).drop_last() == a + b.drop_last());
        lemma_occurrences_concat(a, b.drop_last(), i);
    }
}

proof fn lemma_common_gcd_scales(k: nat, weights: Seq<u32>, scaled: Seq<u32>)
    requires
        k > 0,
        weights.len() == scaled.len(),
        forall|i: int| 0 <= i < weights.len() ==> #[trigger] scaled[i] == k * weights[i],
    ensures
        common_gcd(scaled) == k * common_gcd(weights),
    decreases weights.len(),
{
    if weights.len() == 0 {
        assert(k * 0 == 0) by (nonlinear_arith);
    } else {
        let (w1, s1) = (weights.drop_last(), scaled.drop_last());
        assert forall|i: int| 0 <= i < w1.len() implies #[trigger] s1[i] == k * w1[i] by {
            assert(s1[i] == scaled[i]);
        }
        lemma_common_gcd_scales(k, w1, s1);
        assert(scaled[weights.len() - 1] == k * weights.last());
        lemma_gcd_scales(k, common_gcd(w1), weights.last() as nat);
    }
}

/// Only the ratio of the weights matters: multiplying them all by the same factor leaves the
/// schedule, and its length, as they are.
pub proof fn law_schedule_ignores_scale(
    weights: Seq<u32>,
    scaled: Seq<u32>,
    factor: nat,
    order: Seq<usize>,
)
    requires
        factor > 0,
        weights.len() == scaled.len(),
        forall|i: int| 0 <= i < weights.len() ==> #[trigger] scaled[i] == factor * weights[i],
    ensures
        is_schedule(scaled, order) <==> is_schedule(weights, order),
{
    lemma_common_gcd_scales(factor, weights, scaled);
    let g = common_gcd(weights);
    let k = factor as int;
    if g > 0 {
        assert(k * g > 0) by (nonlinear_arith)
            requires
                k > 0,
                g > 0,
        ;
        assert forall|i: int| 0 <= i < weights.len() implies shares(scaled)[i] == #[trigger] shares(
            weights,
        )[i] by {
            assert(scaled[i] == k * weights[i]);
            lemma_div_multiples_vanish_quotient(k, weights[i] as int, g as int);
        }
        assert(shares(scaled) == shares(weights));
    } else {
        assert(k * g == 0) by (nonlinear_arith)
            requires
                g == 0,
        ;
        assert forall|i: int| 0 <= i < weights.len() implies shares(scaled)[i] == #[trigger] shares(
            weights,
        )[i] by {
            lemma_common_gcd_divides(weights, i);
            assert(scaled[i] == k * weights[i]);
            assert(k * 0 == 0) by (nonlinear_arith);
        }
        assert(shares(scaled) == shares(weights));
    }
}

proof fn lemma_common_gcd_is_greatest(weights: Seq<u32>, d: nat)
    requires
        forall|i: int| 0 <= i < weights.len() ==> divides(d, #[trigger] weights[i] as nat),
    ensures
        divides(d, common_gcd(weights)),
    decreases weights.len(),
{
    if weights.len() == 0 {
        assert(0 == 0nat * d);
    } else {
        let before = weights.drop_last();
        assert forall|i: int| 0 <= i < before.len() implies divides(
            d,
            #[trigger] before[i] as nat,
        ) by {
            assert(before[i] == weights[i]);
        }
        lemma_common_gcd_is_greatest(before, d);
        assert(divides(d, weights[weights.len() - 1] as nat));
        law_gcd_is_greatest_common_divisor(common_gcd(before), weights.last() as nat);
    }
}

/// The shares are the weights in lowest terms: while some weight is positive nothing but 1 divides
/// them all, so that no shorter cycle could serve the same ratio.
pub proof fn law_shares_are_in_lowest_terms(weights: Seq<u32>, d: nat)
    requires
        exists|j: int| 0 <= j < weights.len() && #[trigger] weights[j] > 0,
        forall|i: int|
            0 <= i < weights.len() ==> divides(d, #[trigger] shares(weights)[i] as nat),
    ensures
        d == 1,
{
    let g = common_gcd(weights);
    let j = choose|j: int| 0 <= j < weights.len() && #[trigger] weights[j] > 0;
    lemma_common_gcd_divides(weights, j);
    lemma_shares_not_negative(weights);
    assert forall|i: int| 0 <= i < weights.len() implies divides(
        d * g,
        #[trigger] weights[i] as nat,
    ) by {
        let share = shares(weights)[i];
        lemma_weight_is_share_times_gcd(weights, i);
        assert(divides(d, share as nat));
        let q = choose|q: nat| share as nat == #[trigger] (q * d);
        assert(weights[i] as nat == q * (d * g)) by (nonlinear_arith)
            requires
                weights[i] as int == share * g,
                share == q * d,
        ;
    }
    lemma_common_gcd_is_greatest(weights, d * g);
    let q = choose|q: nat| g == #[trigger] (q * (d * g));
    assert(q * d == 1) by (nonlinear_arith)
        requires
            g == q * (d * g),
            g > 0,
    ;
    assert(d == 1) by (nonlinear_arith)
        requires
            q * d == 1,
            q >= 0,
            d >= 0,
    ;
}

proof fn lemma_common_gcd_of_equals(weights: Seq<u32>, w: u32)
    requires
        weights.len() > 0,
        forall|i: int| 0 <= i < weights.len() ==> #[trigger] weights[i] == w,
        w > 0,
    ensures
        common_gcd(weights) == w,
    decreases weights.len(),
{
    let before = weights.drop_last();
    assert(weights[weights.len() - 1] == w);
    let g = w as nat;
    assert(spec_gcd(g, 0) == g);
    if before.len() > 0 {
        assert forall|i: int| 0 <= i < before.len() implies #[trigger] before[i] == w by {
            assert(before[i] == weights[i]);
        }
        lemma_common_gcd_of_equals(before, w);
        lemma_mod_self_0(g as int);
        assert(spec_gcd(g, g) == spec_gcd(g, 0));
    } else {
        assert(common_gcd(before) == 0);
        lemma_small_mod(0, g);
        assert(spec_gcd(0, g) == spec_gcd(g, 0));
    }
}

proof fn lemma_sum_of_ones(s: Seq<int>)
    requires
        forall|i: int| 0 <= i < s.len() ==> #[trigger] s[i] == 1,
    ensures
        sum(s) == s.len(),
    decreases s.len(),
{
    if s.len() > 0 {
        let before = s.drop_last();
        assert forall|i: int| 0 <= i < before.len() implies #[trigger] before[i] == 1 by {
            assert(before[i] == s[i]);
        }
        lemma_sum_of_ones(before);
        assert(s[s.len() - 1] == 1);
    }
}

/// Backends of equal weight take turns: the schedule names each once, in order.
pub proof fn law_equal_weights_take_turns(weights: Seq<u32>, order: Seq<usize>)
    requires
        is_schedule(weights, order),
        forall|i: int, j: int|
            0 <= i < weights.len() && 0 <= j < weights.len() ==> #[trigger] weights[i]
                == #[trigger] weights[j],
        weights.len() <= usize::MAX,
    ensures
        order == Seq::new(weights.len(), |i: int| i as usize),
{
    let sh = shares(weights);
    let n = weights.len() as int;
    let turns = Seq::new(weights.len(), |i: int| i as usize);
    lemma_share_sum_positive(weights);
    if sum(sh) > 0 {
        let w = weights[0];
        assert forall|i: int| 0 <= i < n implies #[trigger] weights[i] == w by {}
        lemma_common_gcd_of_equals(weights, w);
        assert forall|i: int| 0 <= i < n implies #[trigger] sh[i] == 1 by {
            assert(weights[i] == w);
            lemma_div_by_self(w as int);
        }
        lemma_sum_of_ones(sh);
        assert forall|k: int| 0 <= k < turns.len() implies is_next_pick(
            sh,
            #[trigger] turns.take(k),
            turns[k] as int,
        ) by {
            let picks = turns.take(k);
            assert forall|i: int| 0 <= i < n implies #[trigger] credit(sh, picks, i) == if i < k {
                k + 1 - n
            } else {
                k + 1
            } by {
                assert(sh[i] == 1);
                assert forall|j: int| 0 <= j < picks.len() implies #[trigger] picks[j] == j by {}
                lemma_occurrences_of_identity(picks, i);
                assert(n * 1 == n && n * 0 == 0 && k * 1 == k) by (nonlinear_arith);
            }
            assert(credit(sh, picks, k) == k + 1);
        }
        law_schedule_is_unique(weights, order, turns);
    } else {
        assert(order == turns);
    }
}

} // verus!
