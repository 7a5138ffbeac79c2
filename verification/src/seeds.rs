//! Where the descents start.
//!
//! A solve over `n` anchors starts one descent at each anchor and one at the
//! midpoint of each pair of anchors. A [`Seed`] names such a point by anchor
//! index; the caller turns it into coordinates. The seeds are taken in a
//! fixed order, and the whole order is repeated once per cycle.

use itertools::Itertools;
use vstd::arithmetic::div_mod::{lemma_fundamental_div_mod_converse, lemma_mod_pos_bound};
use vstd::prelude::*;

verus! {

/// A starting point, by the indices of the anchors that define it.
#[derive(Clone, Copy, Debug, PartialEq, Eq, Structural)]
pub enum Seed {
    /// The position of one anchor.
    Anchor(usize),
    /// The point halfway between two anchors, the lower index first.
    Midpoint(usize, usize),
}

impl Seed {
    /// The seed names anchors among `n`: an index below `n`, or two
    /// different indices below `n`, the lower first.
    pub open spec fn in_range(self, n: int) -> bool {
        match self {
            Seed::Anchor(i) => i < n,
            Seed::Midpoint(i, j) => i < j < n,
        }
    }
}

/// The number of seeds for `n` anchors: one per anchor, one per pair.
pub open spec fn seed_total(n: int) -> int {
    n + n * (n - 1) / 2
}

/// The pairs `(first, j)` with `first < j < n`, by rising `j`.
pub open spec fn pairs_led_by(first: int, n: int) -> Seq<(int, int)> {
    Seq::new((n - first - 1) as nat, |k: int| (first, first + 1 + k))
}

/// The pairs `(i, j)` with `from <= i < j < n`, by rising `i` and, for one
/// `i`, by rising `j`.
pub open spec fn pairs_from(from: int, n: int) -> Seq<(int, int)>
    decreases n - from,
{
    if from + 1 >= n {
        Seq::empty()
    } else {
        pairs_led_by(from, n) + pairs_from(from + 1, n)
    }
}

/// All pairs `(i, j)` with `0 <= i < j < n`, in lexicographic order.
pub open spec fn index_pairs(n: int) -> Seq<(int, int)> {
    pairs_from(0, n)
}

/// The seeds for `n` anchors in their order: the anchors by index, then the
/// midpoints by pair.
pub open spec fn seed_plan(n: usize) -> Seq<Seed> {
    Seq::new(n as nat, |i: int| Seed::Anchor(i as usize)) + index_pairs(n as int).map_values(
        |p: (int, int)| Seed::Midpoint(p.0 as usize, p.1 as usize),
    )
}

/// The starting points of a whole solve: the seed plan, `cycles` times over.
pub open spec fn seed_schedule(n: usize, cycles: usize) -> Seq<Seed> {
    Seq::new(
        (seed_total(n as int) * cycles) as nat,
        |k: int| seed_plan(n)[k % seed_total(n as int)],
    )
}

/// There are `(n - from) * (n - from - 1) / 2` pairs from `from` on.
pub proof fn lemma_pairs_from_len(from: int, n: int)
    requires
        0 <= from <= n,
    ensures
        pairs_from(from, n).len() == (n - from) * (n - from - 1) / 2,
    decreases n - from,
{
    if from + 1 >= n {
        assert((n - from) * (n - from - 1) == 0) by (nonlinear_arith)
            requires
                n - from == 0 || n - from == 1,
        ;
    } else {
        lemma_pairs_from_len(from + 1, n);
        let d = n - from - 1;
        assert((d + 1) * d == d * (d - 1) + 2 * d) by (nonlinear_arith);
    }
}

/// The seed plan for `n` anchors has `n + n * (n - 1) / 2` seeds.
pub proof fn lemma_seed_plan_len(n: usize)
    ensures
        seed_plan(n).len() == seed_total(n as int),
        index_pairs(n as int).len() == n * (n - 1) / 2,
        seed_total(n as int) >= n,
{
    lemma_pairs_from_len(0, n as int);
    assert(n * (n - 1) >= 0) by (nonlinear_arith)
        requires
            n >= 0,
    ;
}

/// Each pair in the enumeration from `from` on is a pair of distinct anchor
/// indices, the lower first.
pub proof fn lemma_pairs_from_members(from: int, n: int, k: int)
    requires
        0 <= from <= n,
        0 <= k < pairs_from(from, n).len(),
    ensures
        from <= pairs_from(from, n)[k].0 < pairs_from(from, n)[k].1 < n,
    decreases n - from,
{
    if from + 1 < n {
        if k >= pairs_led_by(from, n).len() {
            lemma_pairs_from_members(from + 1, n, k - pairs_led_by(from, n).len());
        }
    }
}

/// Where the pair `(i, j)` stands in the enumeration from `from` on.
pub open spec fn pair_position(from: int, n: int, i: int, j: int) -> int
    decreases i - from,
{
    if i <= from {
        j - i - 1
    } else {
        (n - from - 1) + pair_position(from + 1, n, i, j)
    }
}

/// Every pair of anchor indices is enumerated, at `pair_position`.
pub proof fn lemma_pairs_from_complete(from: int, n: int, i: int, j: int)
    requires
        0 <= from <= i < j < n,
    ensures
        0 <= pair_position(from, n, i, j) < pairs_from(from, n).len(),
        pairs_from(from, n)[pair_position(from, n, i, j)] == (i, j),
    decreases i - from,
{
    if i > from {
        lemma_pairs_from_complete(from + 1, n, i, j);
    } else {
        assert(pairs_led_by(from, n)[j - i - 1] == (i, j));
    }
}

/// The enumeration rises strictly: of two places, the earlier holds the
/// pair that is lower by first index, or by second where the first agree.
/// So no pair is enumerated twice.
pub proof fn lemma_pairs_from_rising(from: int, n: int, a: int, b: int)
    requires
        0 <= from <= n,
        0 <= a < b < pairs_from(from, n).len(),
    ensures
        ({
            let p = pairs_from(from, n)[a];
            let q = pairs_from(from, n)[b];
            p.0 < q.0 || (p.0 == q.0 && p.1 < q.1)
        }),
    decreases n - from,
{
    if from + 1 < n {
        let head = pairs_led_by(from, n).len() as int;
        if a >= head {
            lemma_pairs_from_rising(from + 1, n, a - head, b - head);
        } else if b >= head {
            lemma_pairs_from_members(from + 1, n, b - head);
        }
    }
}

/// Every seed of the plan names anchors among the `n`.
pub proof fn lemma_seed_plan_in_range(n: usize, k: int)
    requires
        0 <= k < seed_plan(n).len(),
    ensures
        seed_plan(n)[k].in_range(n as int),
{
    if k >= n {
        lemma_pairs_from_members(0, n as int, k - n);
    }
}

/// The plan holds each anchor, at its index, and after the anchors the
/// midpoint of each pair of anchors, at the place of the pair among all
/// pairs.
pub proof fn lemma_seed_plan_covers(n: usize)
    ensures
        forall|i: int| 0 <= i < n ==> #[trigger] seed_plan(n)[i] == Seed::Anchor(i as usize),
        forall|i: int, j: int|
            0 <= i < j < n ==> {
                &&& 0 <= #[trigger] pair_position(0, n as int, i, j) < index_pairs(n as int).len()
                &&& seed_plan(n)[n + pair_position(0, n as int, i, j)] == Seed::Midpoint(
                    i as usize,
                    j as usize,
                )
            },
{
    assert forall|i: int, j: int| 0 <= i < j < n implies {
        &&& 0 <= #[trigger] pair_position(0, n as int, i, j) < index_pairs(n as int).len()
        &&& seed_plan(n)[n + pair_position(0, n as int, i, j)] == Seed::Midpoint(
            i as usize,
            j as usize,
        )
    } by {
        lemma_pairs_from_complete(0, n as int, i, j);
    }
}

/// Every starting point of a solve names anchors among the `n`, and there
/// are `cycles` times as many starting points as seeds.
pub proof fn lemma_seed_schedule_in_range(n: usize, cycles: usize, k: int)
    requires
        0 <= k < seed_schedule(n, cycles).len(),
    ensures
        seed_schedule(n, cycles).len() == seed_total(n as int) * cycles,
        seed_schedule(n, cycles)[k].in_range(n as int),
{
    lemma_seed_plan_len(n);
    let total = seed_total(n as int);
    assert(total > 0) by {
        if total == 0 {
            assert(total * cycles == 0) by (nonlinear_arith)
                requires
                    total == 0,
            ;
        }
    }
    assert(total * cycles >= 0) by (nonlinear_arith)
        requires
            total >= 0,
            cycles >= 0,
    ;
    lemma_mod_pos_bound(k, total);
    lemma_seed_plan_in_range(n, k % total);
}

/// The pairs of indices below `n`, from `Itertools::tuple_combinations` on
/// the range `0..n`. Trusted: that adaptor pairs each item of its input with
/// each later item, taking the first items in input order and, for one first
/// item, the second items in input order; on a rising range that is the
/// lexicographic order of `index_pairs`.
#[verifier::external_body]
fn index_pair_list(n: usize) -> (pairs: Vec<(usize, usize)>)
    requires
        index_pairs(n as int).len() <= usize::MAX,
    ensures
        pairs@.map_values(|p: (usize, usize)| (p.0 as int, p.1 as int)) == index_pairs(n as int),
{
    (0..n).tuple_combinations().collect()
}

/// The number of seeds for `n` anchors, unless it exceeds `usize`.
pub fn seed_count(n: usize) -> (count: Option<usize>)
    ensures
        count is Some <==> seed_total(n as int) <= usize::MAX,
        count is Some ==> count->Some_0 == seed_total(n as int),
{
    if n == 0 {
        return Some(0);
    }
    let m: u128 = n as u128;
    assert(m * (m - 1) <= 0xffff_ffff_ffff_ffff * 0xffff_ffff_ffff_ffff) by (nonlinear_arith)
        requires
            1 <= m <= 0xffff_ffff_ffff_ffff,
    ;
    let total: u128 = m + m * (m - 1) / 2;
    if total <= usize::MAX as u128 {
        Some(total as usize)
    } else {
        None
    }
}

/// The seeds for `n` anchors, in order: `None` where there are more than a
/// `usize` can count.
pub fn seeds(n: usize) -> (plan: Option<Vec<Seed>>)
    ensures
        plan is Some <==> seed_total(n as int) <= usize::MAX,
        plan is Some ==> plan->Some_0@ == seed_plan(n),
{
    if seed_count(n).is_none() {
        return None;
    }
    proof {
        lemma_seed_plan_len(n);
    }
    let pairs = index_pair_list(n);
    let ghost as_ints = pairs@.map_values(|p: (usize, usize)| (p.0 as int, p.1 as int));
    let ghost anchors = Seq::new(n as nat, |i: int| Seed::Anchor(i as usize));
    let ghost midpoints = index_pairs(n as int).map_values(
        |p: (int, int)| Seed::Midpoint(p.0 as usize, p.1 as usize),
    );
    let mut plan: Vec<Seed> = Vec::new();
    let mut i: usize = 0;
    while i < n
        invariant
            i <= n,
            plan@ == anchors.subrange(0, i as int),
            anchors.len() == n,
            forall|t: int| 0 <= t < n ==> anchors[t] == Seed::Anchor(t as usize),
        decreases n - i,
    {
        plan.push(Seed::Anchor(i));
        i += 1;
        assert(plan@ =~= anchors.subrange(0, i as int));
    }
    assert(plan@ =~= anchors);
    let mut k: usize = 0;
    while k < pairs.len()
        invariant
            k <= pairs.len(),
            pairs@.len() == midpoints.len(),
            as_ints == index_pairs(n as int),
            as_ints == pairs@.map_values(|p: (usize, usize)| (p.0 as int, p.1 as int)),
            midpoints == index_pairs(n as int).map_values(
                |p: (int, int)| Seed::Midpoint(p.0 as usize, p.1 as usize),
            ),
            plan@ == anchors + midpoints.subrange(0, k as int),
        decreases pairs.len() - k,
    {
        let pair = pairs[k];
        assert(as_ints[k as int] == (pair.0 as int, pair.1 as int));
        assert(midpoints[k as int] == Seed::Midpoint(pair.0, pair.1));
        plan.push(Seed::Midpoint(pair.0, pair.1));
        k += 1;
        assert(plan@ =~= anchors + midpoints.subrange(0, k as int));
    }
    assert(plan@ =~= anchors + midpoints);
    Some(plan)
}

/// The starting points of a solve over `n` anchors and `cycles` cycles: the
/// seeds in order, repeated `cycles` times. `None` where the seeds, or the
/// starting points, are more than a `usize` can count.
pub fn schedule(n: usize, cycles: usize) -> (starts: Option<Vec<Seed>>)
    ensures
        starts is Some <==> seed_total(n as int) <= usize::MAX && seed_total(n as int) * cycles
            <= usize::MAX,
        starts is Some ==> starts->Some_0@ == seed_schedule(n, cycles),
{
    let plan = match seeds(n) {
        Some(plan) => plan,
        None => {
            return None;
        },
    };
    proof {
        lemma_seed_plan_len(n);
    }
    let total: usize = plan.len();
    if total.checked_mul(cycles).is_none() {
        return None;
    }
    let mut starts: Vec<Seed> = Vec::new();
    let mut cycle: usize = 0;
    while cycle < cycles
        invariant
            cycle <= cycles,
            total == seed_total(n as int),
            total * cycles <= usize::MAX,
            plan@ == seed_plan(n),
            plan@.len() == total,
            starts@.len() == cycle * total,
            forall|k: int|
                0 <= k < starts@.len() ==> starts@[k] == seed_plan(n)[k % (total as int)],
        decreases cycles - cycle,
    {
        let mut i: usize = 0;
        while i < total
            invariant
                i <= total,
                cycle < cycles,
                total == seed_total(n as int),
                total * cycles <= usize::MAX,
                plan@ == seed_plan(n),
                plan@.len() == total,
                starts@.len() == cycle * total + i,
                forall|k: int|
                    0 <= k < starts@.len() ==> starts@[k] == seed_plan(n)[k % (total as int)],
            decreases total - i,
        {
            proof {
                lemma_fundamental_div_mod_converse(
                    cycle * total + i,
                    total as int,
                    cycle as int,
                    i as int,
                );
            }
            starts.push(plan[i]);
            i += 1;
        }
        cycle += 1;
        assert(starts@.len() == cycle * total) by (nonlinear_arith)
            requires
                starts@.len() == (cycle - 1) * total + total,
        ;
    }
    assert(starts@.len() == total * cycles) by (nonlinear_arith)
        requires
            starts@.len() == cycle * total,
            cycle == cycles,
    ;
    assert(starts@ =~= seed_schedule(n, cycles));
    Some(starts)
}

} // verus!
