//! The grouping of what the descents found.
//!
//! Members are taken one at a time. The first member of a cluster is its
//! founder, and stays so. A new member joins the first cluster, in order of
//! creation, whose founder is closer to it than the radius; where there is
//! none, it founds a cluster of its own.
//!
//! Only the caller can measure distances: with each member it hands in the
//! distance from the member to the founder of each cluster.

use crate::scalar::Scalar;
use vstd::prelude::*;

verus! {

/// The encoding of the radius of a cluster: a tenth, rounded to the nearest
/// binary32 number.
pub const RADIUS_BITS: u32 = 0x3dcc_cccd;

/// Whether a member at the given distances is within `radius` of the
/// founder of cluster `c`. A cluster without a distance is out of reach.
pub open spec fn within(distances: Seq<Scalar>, radius: Scalar, c: int) -> bool {
    0 <= c < distances.len() && distances[c].below(radius)
}

/// `c` is the cluster that a member at the given distances joins, where
/// there are `clusters` clusters: the first whose founder is within the
/// radius, or `clusters`, which stands for a new cluster, if there is none.
pub open spec fn joins(distances: Seq<Scalar>, radius: Scalar, clusters: int, c: int) -> bool {
    &&& 0 <= c <= clusters
    &&& c < clusters ==> within(distances, radius, c)
    &&& forall|b: int| 0 <= b < c ==> !within(distances, radius, b)
}

/// The clusters after `member` was put into cluster `c`, or into a new
/// cluster where `c` is none of `groups`.
pub open spec fn placed<T>(groups: Seq<Seq<T>>, c: int, member: T) -> Seq<Seq<T>> {
    if 0 <= c < groups.len() {
        groups.update(c, groups[c].push(member))
    } else {
        groups.push(seq![member])
    }
}

/// Every cluster has a member.
pub open spec fn all_founded<T>(groups: Seq<Seq<T>>) -> bool {
    forall|c: int| 0 <= c < groups.len() ==> (#[trigger] groups[c]).len() > 0
}

/// The number of members in all clusters together.
pub open spec fn member_total<T>(groups: Seq<Seq<T>>) -> nat
    decreases groups.len(),
{
    if groups.len() == 0 {
        0
    } else {
        member_total(groups.drop_last()) + groups.last().len()
    }
}

/// A member joins at most one cluster: the cluster it joins is determined.
pub proof fn lemma_joins_is_unique(
    distances: Seq<Scalar>,
    radius: Scalar,
    clusters: int,
    c: int,
    d: int,
)
    requires
        joins(distances, radius, clusters, c),
        joins(distances, radius, clusters, d),
    ensures
        c == d,
{
    if c < d {
        assert(!within(distances, radius, c));
    } else if d < c {
        assert(!within(distances, radius, d));
    }
}

/// Placing a member keeps every founder, every earlier member and the order
/// of the clusters; the member comes last in its cluster.
pub proof fn lemma_placed_keeps<T>(groups: Seq<Seq<T>>, c: int, member: T)
    requires
        all_founded(groups),
    ensures
        all_founded(placed(groups, c, member)),
        placed(groups, c, member).len() >= groups.len(),
        forall|b: int, i: int|
            0 <= b < groups.len() && 0 <= i < groups[b].len() ==> placed(groups, c, member)[b][i]
                == groups[b][i],
        forall|b: int|
            0 <= b < groups.len() && b != c ==> placed(groups, c, member)[b] == groups[b],
        ({
            let at = if 0 <= c < groups.len() {
                c
            } else {
                groups.len() as int
            };
            placed(groups, c, member)[at].last() == member
        }),
{
}

/// Placing a member adds one to the number of members.
pub proof fn lemma_placed_adds_one<T>(groups: Seq<Seq<T>>, c: int, member: T)
    ensures
        member_total(placed(groups, c, member)) == member_total(groups) + 1,
    decreases groups.len(),
{
    let after = placed(groups, c, member);
    if 0 <= c < groups.len() {
        if c == groups.len() - 1 {
            assert(after.drop_last() =~= groups.drop_last());
        } else {
            lemma_placed_adds_one(groups.drop_last(), c, member);
            assert(after.drop_last() =~= placed(groups.drop_last(), c, member));
        }
    } else {
        assert(after.drop_last() =~= groups);
        assert(member_total::<T>(seq![]) == 0);
    }
}

/// Clusters under construction, over members of type `T`.
pub struct Clusters<T> {
    groups: Vec<Vec<T>>,
    radius: Scalar,
}

impl<T> View for Clusters<T> {
    type V = Seq<Seq<T>>;

    /// The clusters in order of creation, each with its members in order of
    /// arrival.
    closed spec fn view(&self) -> Seq<Seq<T>> {
        self.groups@.map_values(|g: Vec<T>| g@)
    }
}

impl<T> Clusters<T> {
    #[verifier::type_invariant]
    spec fn well_formed(self) -> bool {
        all_founded(self@)
    }

    /// The radius within which a member joins a founder.
    pub closed spec fn radius(&self) -> Scalar {
        self.radius
    }

    /// No clusters, with the radius of the solver.
    pub fn new() -> (clusters: Self)
        ensures
            clusters@.len() == 0,
            clusters.radius().bits == RADIUS_BITS,
    {
        Clusters { groups: Vec::new(), radius: Scalar { bits: RADIUS_BITS } }
    }

    /// No clusters, with a radius of the caller's choice.
    pub fn with_radius(radius: Scalar) -> (clusters: Self)
        ensures
            clusters@.len() == 0,
            clusters.radius() == radius,
    {
        Clusters { groups: Vec::new(), radius }
    }

    /// The number of clusters.
    pub fn len(&self) -> (n: usize)
        ensures
            n == self@.len(),
            all_founded(self@),
    {
        proof {
            use_type_invariant(self);
        }
        self.groups.len()
    }

    /// The founder of cluster `c`, if there is such a cluster.
    pub fn founder(&self, c: usize) -> (founder: Option<&T>)
        ensures
            founder is Some <==> c < self@.len(),
            founder is Some ==> self@[c as int].len() > 0 && *founder->Some_0 == self@[c as int][0],
    {
        proof {
            use_type_invariant(self);
        }
        if c < self.groups.len() {
            assert(self@[c as int] == self.groups@[c as int]@);
            Some(&self.groups[c][0])
        } else {
            None
        }
    }

    /// The members of cluster `c`, if there is such a cluster.
    pub fn members(&self, c: usize) -> (members: Option<&Vec<T>>)
        ensures
            members is Some <==> c < self@.len(),
            members is Some ==> members->Some_0@ == self@[c as int],
    {
        if c < self.groups.len() {
            assert(self@[c as int] == self.groups@[c as int]@);
            Some(&self.groups[c])
        } else {
            None
        }
    }

    /// Takes one member, given its distance to the founder of each cluster,
    /// by cluster. Returns the cluster that it joined. Distances beyond the
    /// number of clusters are not read. No member is lost and no founder
    /// changes.
    pub fn insert(&mut self, member: T, distances: &Vec<Scalar>) -> (c: usize)
        ensures
            joins(distances@, old(self).radius(), old(self)@.len() as int, c as int),
            final(self)@ == placed(old(self)@, c as int, member),
            final(self).radius() == old(self).radius(),
            all_founded(final(self)@),
            member_total(final(self)@) == member_total(old(self)@) + 1,
            forall|b: int|
                0 <= b < old(self)@.len() ==> (#[trigger] final(self)@[b])[0] == old(self)@[b][0],
    {
        proof {
            use_type_invariant(&*self);
        }
        let n: usize = self.groups.len();
        let mut c: usize = 0;
        let mut found: bool = false;
        while c < n && !found
            invariant
                c <= n,
                n == self.groups.len(),
                *self == *old(self),
                found ==> c < n && within(distances@, self.radius, c as int),
                forall|b: int| 0 <= b < c ==> !within(distances@, self.radius, b),
            decreases n - c + if found { 0int } else { 1int },
        {
            if c < distances.len() && distances[c].lt(self.radius) {
                found = true;
            } else {
                c += 1;
            }
        }
        let ghost before = self@;
        proof {
            lemma_placed_keeps(before, c as int, member);
            lemma_placed_adds_one(before, c as int, member);
        }
        let mut groups: Vec<Vec<T>> = Vec::new();
        std::mem::swap(&mut groups, &mut self.groups);
        if found {
            groups[c].push(member);
        } else {
            let mut group: Vec<T> = Vec::new();
            group.push(member);
            groups.push(group);
        }
        assert(groups@.map_values(|g: Vec<T>| g@) =~= placed(before, c as int, member));
        self.groups = groups;
        c
    }

    /// The clusters, in order of creation, each with its members in order
    /// of arrival.
    pub fn into_groups(self) -> (groups: Vec<Vec<T>>)
        ensures
            groups@.map_values(|g: Vec<T>| g@) == self@,
            all_founded(self@),
    {
        proof {
            use_type_invariant(&self);
        }
        self.groups
    }
}

} // verus!
