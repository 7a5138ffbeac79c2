//! Which clusters a solve reports, and in what order.
//!
//! Each cluster has a weight. A solve reports the clusters whose weight is
//! above the mean of all weights, the heaviest first. The weights and their
//! mean are the caller's to compute; the choice and the order are made
//! here, on clusters named by index.
//!
//! No weight is above the mean where all weights are the same, and so it is
//! where there is one cluster only: the list is then empty. An empty list is
//! an answer like any other, and callers must be prepared for it.

use crate::order::{
    comes_before, kept_below, lemma_stable_order_is_unique, orders_prefix, stable_order,
};
use crate::scalar::Scalar;
use vstd::prelude::*;

verus! {

/// Cluster `i` is reported before cluster `j`: by falling weight in the
/// total order of the encodings, and by index where the weights are the
/// same.
pub open spec fn outranks(weights: Seq<Scalar>, i: int, j: int) -> bool {
    weights[i].total_rank() > weights[j].total_rank() || (weights[i].total_rank()
        == weights[j].total_rank() && i < j)
}

/// Cluster `i` is reported: its weight is above the mean.
pub open spec fn reported(weights: Seq<Scalar>, mean: Scalar, i: int) -> bool {
    mean.below(weights[i])
}

/// For each cluster, whether it is reported.
pub open spec fn reports(weights: Seq<Scalar>, mean: Scalar) -> Seq<bool> {
    Seq::new(weights.len(), |i: int| reported(weights, mean, i))
}

/// `list` holds the index of every cluster that is reported, each once and
/// no other, in the order of `outranks`.
pub open spec fn is_shortlist(weights: Seq<Scalar>, mean: Scalar, list: Seq<usize>) -> bool {
    &&& list.len() == kept_below(reports(weights, mean), weights.len() as int)
    &&& forall|k: int|
        0 <= k < list.len() ==> (#[trigger] list[k]) < weights.len() && reported(
            weights,
            mean,
            list[k] as int,
        )
    &&& forall|i: usize|
        i < weights.len() && reported(weights, mean, i as int) ==> #[trigger] list.contains(i)
    &&& forall|a: int, b: int|
        0 <= a < b < list.len() ==> outranks(
            weights,
            #[trigger] list[a] as int,
            #[trigger] list[b] as int,
        )
}

/// The shortlist falls in weight as numbers, and every weight on it is
/// above the mean.
pub proof fn lemma_shortlist_falls(weights: Seq<Scalar>, mean: Scalar, list: Seq<usize>)
    requires
        is_shortlist(weights, mean, list),
    ensures
        forall|a: int, b: int|
            0 <= a <= b < list.len() ==> weights[#[trigger] list[b] as int].at_most(
                weights[#[trigger] list[a] as int],
            ),
        forall|k: int| 0 <= k < list.len() ==> mean.below(weights[#[trigger] list[k] as int]),
{
    assert forall|a: int, b: int| 0 <= a <= b < list.len() implies weights[#[trigger] list[b]
        as int].at_most(weights[#[trigger] list[a] as int]) by {
        assert(reported(weights, mean, list[a] as int));
        assert(reported(weights, mean, list[b] as int));
        if a < b {
            assert(outranks(weights, list[a] as int, list[b] as int));
        }
    }
    assert forall|k: int| 0 <= k < list.len() implies mean.below(
        weights[#[trigger] list[k] as int],
    ) by {
        assert(reported(weights, mean, list[k] as int));
    }
}

/// Where no cluster weighs more than the mean, nothing is reported. So it
/// is where all weigh the same.
pub proof fn lemma_nothing_above_means_empty(weights: Seq<Scalar>, mean: Scalar, list: Seq<usize>)
    requires
        is_shortlist(weights, mean, list),
        forall|i: int| 0 <= i < weights.len() ==> !mean.below(#[trigger] weights[i]),
    ensures
        list.len() == 0,
{
    if list.len() > 0 {
        assert(reported(weights, mean, list[0] as int));
    }
}

/// A cluster that is the only one is not reported: the mean of one weight
/// is that weight, and no weight is above itself.
pub proof fn lemma_lone_cluster_is_dropped(weights: Seq<Scalar>, list: Seq<usize>)
    requires
        weights.len() == 1,
        is_shortlist(weights, weights[0], list),
    ensures
        list.len() == 0,
{
    lemma_nothing_above_means_empty(weights, weights[0], list);
}

/// The weights as sorting keys: the heavier, the lower the key.
spec fn shortlist_keys(weights: Seq<Scalar>) -> Seq<i64> {
    Seq::new(weights.len(), |i: int| (-weights[i].total_rank()) as i64)
}

/// There is one shortlist only: the contract of `shortlist` fixes its
/// result.
pub proof fn lemma_shortlist_is_unique(
    weights: Seq<Scalar>,
    mean: Scalar,
    first: Seq<usize>,
    second: Seq<usize>,
)
    requires
        is_shortlist(weights, mean, first),
        is_shortlist(weights, mean, second),
    ensures
        first == second,
{
    let keys = shortlist_keys(weights);
    let keep = reports(weights, mean);
    assert(orders_prefix(keys, keep, weights.len() as int, first)) by {
        assert forall|a: int, b: int| 0 <= a < b < first.len() implies comes_before(
            keys,
            #[trigger] first[a] as int,
            #[trigger] first[b] as int,
        ) by {
            assert(outranks(weights, first[a] as int, first[b] as int));
        }
    }
    assert(orders_prefix(keys, keep, weights.len() as int, second)) by {
        assert forall|a: int, b: int| 0 <= a < b < second.len() implies comes_before(
            keys,
            #[trigger] second[a] as int,
            #[trigger] second[b] as int,
        ) by {
            assert(outranks(weights, second[a] as int, second[b] as int));
        }
    }
    lemma_stable_order_is_unique(keys, keep, weights.len() as int, first, second);
}

/// The clusters to report, given the weight of each cluster and the mean
/// of the weights: those whose weight is above the mean, the heaviest first,
/// clusters of equal weight in the order in which they were created. The
/// list is empty where no weight is above the mean, as it is for a single
/// cluster.
pub fn shortlist(weights: &Vec<Scalar>, mean: Scalar) -> (list: Vec<usize>)
    ensures
        is_shortlist(weights@, mean, list@),
{
    let n: usize = weights.len();
    let mut keys: Vec<i64> = Vec::new();
    let mut keep: Vec<bool> = Vec::new();
    let mut i: usize = 0;
    while i < n
        invariant
            i <= n,
            n == weights.len(),
            keys.len() == i,
            keep.len() == i,
            forall|j: int| 0 <= j < i ==> (#[trigger] keys@[j]) == -weights@[j].total_rank(),
            forall|j: int| 0 <= j < i ==> (#[trigger] keep@[j]) == reported(weights@, mean, j),
        decreases n - i,
    {
        keys.push(-weights[i].total_key());
        keep.push(weights[i].gt(mean));
        i += 1;
    }
    let list = stable_order(&keys, &keep);
    proof {
        assert(keep@ =~= reports(weights@, mean));
        assert forall|i: usize|
            i < weights@.len() && reported(weights@, mean, i as int) implies #[trigger] list@
                .contains(i) by {
            assert(keep@[i as int]);
        }
    }
    list
}

} // verus!
