//! Which anchor lists a solve accepts, and the order of the anchors.
//!
//! Each anchor comes with the time at which it heard the signal, as a
//! difference to some common origin. A solve takes the anchors by rising
//! time, the earliest first: that anchor is the reference from which all
//! other times are then measured. A list is refused when it is empty or
//! when one of the times is not a finite number, or is below zero.
//!
//! Measuring from the reference is arithmetic, and the caller's. What comes
//! of it can be held against [`normalized`]: the times rise from zero.

use crate::order::{
    comes_before, lemma_kept_below_bounds, lemma_stable_order_is_unique, orders_prefix,
    stable_order,
};
use crate::scalar::Scalar;
use vstd::prelude::*;

verus! {

/// Why a list of anchors is refused.
#[derive(Clone, Copy, Debug, PartialEq, Eq, Structural)]
pub enum InputError {
    /// The list holds no anchor.
    NoAnchors,
    /// The time of the anchor at this index is not finite, or is below
    /// zero. It is the first such anchor.
    InvalidTimeDifference(usize),
}

/// The list is one that a solve accepts.
pub open spec fn accepted(times: Seq<Scalar>) -> bool {
    &&& times.len() > 0
    &&& forall|i: int| 0 <= i < times.len() ==> (#[trigger] times[i]).finite_non_negative()
}

/// Anchor `i` is taken before anchor `j`: by time in the total order of the
/// encodings, and by index where the times are the same.
pub open spec fn earlier(times: Seq<Scalar>, i: int, j: int) -> bool {
    times[i].total_rank() < times[j].total_rank() || (times[i].total_rank()
        == times[j].total_rank() && i < j)
}

/// `order` lists every anchor index once, in the order of `earlier`.
pub open spec fn is_arrival_order(times: Seq<Scalar>, order: Seq<usize>) -> bool {
    &&& order.len() == times.len()
    &&& forall|k: int| 0 <= k < order.len() ==> (#[trigger] order[k]) < times.len()
    &&& forall|i: usize| i < times.len() ==> #[trigger] order.contains(i)
    &&& forall|a: int, b: int|
        0 <= a < b < order.len() ==> earlier(
            times,
            #[trigger] order[a] as int,
            #[trigger] order[b] as int,
        )
}

/// In an accepted list taken in arrival order, the times rise as numbers,
/// and no anchor heard the signal before the first, the reference.
pub proof fn lemma_arrival_order_rises(times: Seq<Scalar>, order: Seq<usize>)
    requires
        accepted(times),
        is_arrival_order(times, order),
    ensures
        forall|a: int, b: int|
            0 <= a <= b < order.len() ==> times[#[trigger] order[a] as int].at_most(
                times[#[trigger] order[b] as int],
            ),
        forall|i: usize|
            i < times.len() ==> times[order[0] as int].at_most(#[trigger] times[i as int]),
{
    assert forall|a: int, b: int| 0 <= a <= b < order.len() implies times[#[trigger] order[a]
        as int].at_most(times[#[trigger] order[b] as int]) by {
        let x = times[order[a] as int];
        let y = times[order[b] as int];
        assert(x.finite_non_negative() && y.finite_non_negative());
        if a < b {
            assert(earlier(times, order[a] as int, order[b] as int));
        }
    }
    assert forall|i: usize| i < times.len() implies times[order[0] as int].at_most(
        #[trigger] times[i as int],
    ) by {
        assert(order.contains(i));
        let k = choose|k: int| 0 <= k < order.len() && order[k] == i;
        assert(times[order[0] as int].at_most(times[order[k] as int]));
    }
}

/// The times are those of an accepted list in arrival order, measured from
/// the reference: they begin with zero and do not fall.
pub open spec fn normalized(times: Seq<Scalar>) -> bool {
    &&& accepted(times)
    &&& times[0].ordinal() == 0
    &&& forall|a: int, b: int|
        0 <= a <= b < times.len() ==> (#[trigger] times[a]).at_most(#[trigger] times[b])
}

/// The least of normalized times is zero: one time is zero, and none is
/// below zero.
pub proof fn lemma_normalized_least_is_zero(times: Seq<Scalar>)
    requires
        normalized(times),
    ensures
        exists|i: int| 0 <= i < times.len() && (#[trigger] times[i]).ordinal() == 0,
        forall|i: int| 0 <= i < times.len() ==> (#[trigger] times[i]).ordinal() >= 0,
        forall|i: int| 0 <= i < times.len() ==> !(#[trigger] times[i]).nan(),
{
    assert(times[0].ordinal() == 0);
}

/// Whether the times are normalized. Where they are, their least is zero:
/// the first is zero and none is below it.
pub fn is_normalized(times: &Vec<Scalar>) -> (r: bool)
    ensures
        r == normalized(times@),
        r ==> times@[0].ordinal() == 0,
        r ==> forall|i: int| 0 <= i < times@.len() ==> (#[trigger] times@[i]).ordinal() >= 0,
{
    let n: usize = times.len();
    if n == 0 {
        return false;
    }
    if !times[0].is_finite_non_negative() {
        return false;
    }
    if !(times[0].le(Scalar { bits: 0 })) {
        return false;
    }
    let mut i: usize = 1;
    while i < n
        invariant
            1 <= i <= n,
            n == times.len(),
            times@[0].ordinal() == 0,
            forall|j: int| 0 <= j < i ==> (#[trigger] times@[j]).finite_non_negative(),
            forall|a: int, b: int|
                0 <= a <= b < i ==> (#[trigger] times@[a]).at_most(#[trigger] times@[b]),
        decreases n - i,
    {
        if !times[i].is_finite_non_negative() {
            return false;
        }
        if !times[i - 1].le(times[i]) {
            assert(!times@[i - 1].at_most(times@[i as int]));
            return false;
        }
        assert forall|a: int, b: int| 0 <= a <= b < i + 1 implies (#[trigger] times@[a]).at_most(
            #[trigger] times@[b],
        ) by {
            if b == i && a < i {
                assert(times@[a].at_most(times@[i - 1]));
            }
        }
        i += 1;
    }
    true
}

/// The times as sorting keys.
spec fn arrival_keys(times: Seq<Scalar>) -> Seq<i64> {
    Seq::new(times.len(), |i: int| times[i].total_rank() as i64)
}

/// There is one arrival order only: the contract of `arrival_order` fixes
/// its result.
pub proof fn lemma_arrival_order_is_unique(
    times: Seq<Scalar>,
    first: Seq<usize>,
    second: Seq<usize>,
)
    requires
        is_arrival_order(times, first),
        is_arrival_order(times, second),
    ensures
        first == second,
{
    let keys = arrival_keys(times);
    let keep = Seq::new(times.len(), |i: int| true);
    lemma_kept_below_bounds(keep, times.len() as int);
    assert(orders_prefix(keys, keep, times.len() as int, first)) by {
        assert forall|a: int, b: int| 0 <= a < b < first.len() implies comes_before(
            keys,
            #[trigger] first[a] as int,
            #[trigger] first[b] as int,
        ) by {
            assert(earlier(times, first[a] as int, first[b] as int));
        }
    }
    assert(orders_prefix(keys, keep, times.len() as int, second)) by {
        assert forall|a: int, b: int| 0 <= a < b < second.len() implies comes_before(
            keys,
            #[trigger] second[a] as int,
            #[trigger] second[b] as int,
        ) by {
            assert(earlier(times, second[a] as int, second[b] as int));
        }
    }
    lemma_stable_order_is_unique(keys, keep, times.len() as int, first, second);
}

/// The order in which a solve takes the anchors with the given times, or
/// the reason for which it refuses them.
pub fn arrival_order(times: &Vec<Scalar>) -> (r: Result<Vec<usize>, InputError>)
    ensures
        r is Ok <==> accepted(times@),
        match r {
            Ok(order) => is_arrival_order(times@, order@),
            Err(InputError::NoAnchors) => times@.len() == 0,
            Err(InputError::InvalidTimeDifference(i)) => {
                &&& i < times@.len()
                &&& !times@[i as int].finite_non_negative()
                &&& forall|j: int| 0 <= j < i ==> (#[trigger] times@[j]).finite_non_negative()
            },
        },
{
    let n: usize = times.len();
    if n == 0 {
        return Err(InputError::NoAnchors);
    }
    let mut keys: Vec<i64> = Vec::new();
    let mut keep: Vec<bool> = Vec::new();
    let mut i: usize = 0;
    while i < n
        invariant
            i <= n,
            n == times.len(),
            keys.len() == i,
            keep.len() == i,
            forall|j: int| 0 <= j < i ==> (#[trigger] times@[j]).finite_non_negative(),
            forall|j: int| 0 <= j < i ==> (#[trigger] keys@[j]) == times@[j].total_rank(),
            forall|j: int| 0 <= j < i ==> #[trigger] keep@[j],
        decreases n - i,
    {
        if !times[i].is_finite_non_negative() {
            return Err(InputError::InvalidTimeDifference(i));
        }
        keys.push(times[i].total_key());
        keep.push(true);
        i += 1;
    }
    let order = stable_order(&keys, &keep);
    proof {
        lemma_kept_below_bounds(keep@, n as int);
        assert forall|j: usize| j < times@.len() implies #[trigger] order@.contains(j) by {
            assert(keep@[j as int]);
        }
    }
    Ok(order)
}

} // verus!
