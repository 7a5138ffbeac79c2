//! Stable ordering by an integer key.
//!
//! Both orderings of the solver, of the anchors by time and of the clusters
//! by weight, are stable: items with equal keys stay in the order in which
//! they came. Here items are named by index, and an ordering is the list of
//! the indices that are kept, lowest key first.

use vstd::prelude::*;

verus! {

/// Index `a` comes before index `b`: by key, and by index where the keys
/// are equal.
pub open spec fn comes_before(keys: Seq<i64>, a: int, b: int) -> bool {
    keys[a] < keys[b] || (keys[a] == keys[b] && a < b)
}

/// The number of indices below `upto` that `keep` marks.
pub open spec fn kept_below(keep: Seq<bool>, upto: int) -> int
    decreases upto,
{
    if upto <= 0 {
        0
    } else {
        kept_below(keep, upto - 1) + if keep[upto - 1] {
            1int
        } else {
            0int
        }
    }
}

/// `order` lists the indices below `upto` that `keep` marks, each once, in
/// the order of `comes_before`.
pub open spec fn orders_prefix(
    keys: Seq<i64>,
    keep: Seq<bool>,
    upto: int,
    order: Seq<usize>,
) -> bool {
    &&& order.len() == kept_below(keep, upto)
    &&& forall|k: int|
        0 <= k < order.len() ==> (#[trigger] order[k]) < upto && keep[order[k] as int]
    &&& forall|i: usize| i < upto && keep[i as int] ==> #[trigger] order.contains(i)
    &&& forall|a: int, b: int|
        0 <= a < b < order.len() ==> comes_before(
            keys,
            #[trigger] order[a] as int,
            #[trigger] order[b] as int,
        )
}

/// `order` is the stable ordering of the indices that `keep` marks.
pub open spec fn is_stable_order(keys: Seq<i64>, keep: Seq<bool>, order: Seq<usize>) -> bool {
    orders_prefix(keys, keep, keys.len() as int, order)
}

/// No more indices are kept than there are.
pub proof fn lemma_kept_below_bounds(keep: Seq<bool>, upto: int)
    requires
        0 <= upto,
    ensures
        0 <= kept_below(keep, upto) <= upto,
        (forall|i: int| 0 <= i < upto ==> keep[i]) ==> kept_below(keep, upto) == upto,
        (forall|i: int| 0 <= i < upto ==> !keep[i]) ==> kept_below(keep, upto) == 0,
    decreases upto,
{
    if upto > 0 {
        lemma_kept_below_bounds(keep, upto - 1);
    }
}

/// There is one stable ordering only: the contract of `stable_order` fixes
/// its result.
pub proof fn lemma_stable_order_is_unique(
    keys: Seq<i64>,
    keep: Seq<bool>,
    upto: int,
    first: Seq<usize>,
    second: Seq<usize>,
)
    requires
        0 <= upto <= keys.len(),
        orders_prefix(keys, keep, upto, first),
        orders_prefix(keys, keep, upto, second),
    ensures
        first == second,
{
    assert forall|k: int| 0 <= k < first.len() implies first[k] == second[k] by {
        lemma_same_place(keys, keep, upto, first, second, k);
    }
    assert(first =~= second);
}

/// Two stable orderings of the same indices agree at every place.
proof fn lemma_same_place(
    keys: Seq<i64>,
    keep: Seq<bool>,
    upto: int,
    first: Seq<usize>,
    second: Seq<usize>,
    k: int,
)
    requires
        0 <= upto <= keys.len(),
        orders_prefix(keys, keep, upto, first),
        orders_prefix(keys, keep, upto, second),
        0 <= k < first.len(),
    ensures
        first[k] == second[k],
    decreases k,
{
    // Below place k the two agree. What first holds at k stands somewhere in
    // second, and not below k; what second holds at k stands somewhere in first,
    // and not below k. Were the two different, each would come before the other.
    assert forall|j: int| 0 <= j < k implies first[j] == second[j] by {
        lemma_same_place(keys, keep, upto, first, second, j);
    }
    let x = first[k];
    let y = second[k];
    assert(second.contains(x));
    let px = choose|p: int| 0 <= p < second.len() && second[p] == x;
    assert(first.contains(y));
    let py = choose|p: int| 0 <= p < first.len() && first[p] == y;
    if px < k {
        assert(first[px] == second[px]);
        assert(comes_before(keys, first[px] as int, first[k] as int));
    }
    if py < k {
        assert(first[py] == second[py]);
        assert(comes_before(keys, second[py] as int, second[k] as int));
    }
    if px > k {
        assert(comes_before(keys, second[k] as int, second[px] as int));
        if py > k {
            assert(comes_before(keys, first[k] as int, first[py] as int));
        }
    }
}

/// The indices that `keep` marks, by rising key; indices with equal keys
/// by rising index.
pub(crate) fn stable_order(keys: &Vec<i64>, keep: &Vec<bool>) -> (order: Vec<usize>)
    requires
        keep.len() == keys.len(),
    ensures
        is_stable_order(keys@, keep@, order@),
{
    let n: usize = keys.len();
    let mut order: Vec<usize> = Vec::new();
    let mut i: usize = 0;
    while i < n
        invariant
            i <= n,
            n == keys.len(),
            n == keep.len(),
            orders_prefix(keys@, keep@, i as int, order@),
        decreases n - i,
    {
        if keep[i] {
            let key: i64 = keys[i];
            let mut p: usize = 0;
            while p < order.len() && keys[order[p]] <= key
                invariant
                    p <= order.len(),
                    i < n,
                    n == keys.len(),
                    key == keys[i as int],
                    orders_prefix(keys@, keep@, i as int, order@),
                    forall|a: int| 0 <= a < p ==> keys[(#[trigger] order[a]) as int] <= key,
                decreases order.len() - p,
            {
                p += 1;
            }
            let ghost before = order@;
            order.insert(p, i);
            proof {
                let after = order@;
                assert forall|k: int| 0 <= k < after.len() implies (#[trigger] after[k]) < i + 1
                    && keep[after[k] as int] by {
                    if k < p {
                        assert(after[k] == before[k]);
                    } else if k > p {
                        assert(after[k] == before[k - 1]);
                    }
                }
                assert forall|j: usize| j < i + 1 && keep[j as int] implies #[trigger] after
                    .contains(j) by {
                    if j < i {
                        assert(before.contains(j));
                        let q = choose|q: int| 0 <= q < before.len() && before[q] == j;
                        if q < p {
                            assert(after[q] == j);
                        } else {
                            assert(after[q + 1] == j);
                        }
                    } else {
                        assert(after[p as int] == j);
                    }
                }
                assert forall|a: int, b: int| 0 <= a < b < after.len() implies comes_before(
                    keys@,
                    #[trigger] after[a] as int,
                    #[trigger] after[b] as int,
                ) by {
                    let ia = if a < p {
                        a
                    } else {
                        a - 1
                    };
                    let ib = if b < p {
                        b
                    } else {
                        b - 1
                    };
                    if a != p {
                        assert(after[a] == before[ia]);
                    }
                    if b != p {
                        assert(after[b] == before[ib]);
                    }
                    if a != p && b != p {
                        assert(comes_before(keys@, before[ia] as int, before[ib] as int));
                    } else if a == p {
                        // what follows the new index has a greater key
                        if p < before.len() {
                            if ib > p {
                                assert(comes_before(
                                    keys@,
                                    before[p as int] as int,
                                    before[ib] as int,
                                ));
                            }
                        }
                    } else {
                        // what precedes the new index has no greater key and a lower index
                        assert(keys@[before[ia] as int] <= key);
                    }
                }
            }
        }
        i += 1;
    }
    order
}

} // verus!
