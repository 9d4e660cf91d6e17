//! Weighted disjoint-set (union-find) structure with potential propagation:
//! merging under a relative numeric offset, equivalence queries, set-size
//! queries and relative-offset queries, with path compression.

use crate::algebra::{
    group_diff, lemma_diff_shift, lemma_group_diff_chain, lemma_negate_negate, lemma_negate_plus,
    lemma_zero_left, GroupValue,
};
use vstd::prelude::*;
use vstd::set_lib::lemma_int_range;
use vstd::set_lib::lemma_len_subset;
use vstd::set_lib::set_int_range;

verus! {

/// Every slot names a parent inside the array.
pub open spec fn parents_in_range(p: Seq<usize>) -> bool {
    forall|x: int| 0 <= x < p.len() ==> (#[trigger] p[x]) < p.len()
}

/// Following parents from `x` reaches a self-parented slot within `k` steps.
pub open spec fn reaches_root(p: Seq<usize>, x: int, k: nat) -> bool
    decreases k,
{
    if 0 <= x < p.len() {
        if p[x] as int == x {
            true
        } else if k == 0 {
            false
        } else {
            reaches_root(p, p[x] as int, (k - 1) as nat)
        }
    } else {
        false
    }
}

/// Every element reaches a root: parent chains have no cycles.
pub open spec fn acyclic(p: Seq<usize>) -> bool {
    forall|x: int| 0 <= x < p.len() ==> reaches_root(p, x, p.len() as nat)
}

/// The number of parent steps from `x` to its root, with fuel `k`.
pub open spec fn dist_fueled(p: Seq<usize>, x: int, k: nat) -> nat
    decreases k,
{
    if 0 <= x < p.len() && p[x] as int != x && k > 0 {
        1 + dist_fueled(p, p[x] as int, (k - 1) as nat)
    } else {
        0
    }
}

/// The number of parent steps from `x` to its root.
pub open spec fn dist(p: Seq<usize>, x: int) -> nat {
    dist_fueled(p, x, p.len() as nat)
}

/// The root above `x`, with fuel `k`.
pub open spec fn root_fueled(p: Seq<usize>, x: int, k: nat) -> int
    decreases k,
{
    if 0 <= x < p.len() && p[x] as int != x && k > 0 {
        root_fueled(p, p[x] as int, (k - 1) as nat)
    } else {
        x
    }
}

/// The root above `x`: the slot reached by following parents until one is its
/// own parent.
pub open spec fn root_of(p: Seq<usize>, x: int) -> int {
    root_fueled(p, x, (p.len() + 1) as nat)
}

/// The sum of the weights along the path from `x` up to its root, with fuel
/// `k`; zero at a root.
pub open spec fn wsum_fueled<T: GroupValue>(p: Seq<usize>, w: Seq<T>, x: int, k: nat) -> T
    decreases k,
{
    if 0 <= x < p.len() && p[x] as int != x && k > 0 {
        T::plus(w[x], wsum_fueled(p, w, p[x] as int, (k - 1) as nat))
    } else {
        T::zero()
    }
}

/// The cumulative offset from `x` to its root: the potential of the root
/// minus the potential of `x`, up to sign convention.
pub open spec fn wsum<T: GroupValue>(p: Seq<usize>, w: Seq<T>, x: int) -> T {
    wsum_fueled(p, w, x, (p.len() + 1) as nat)
}

/// The elements whose root is `r`.
pub open spec fn class_of(p: Seq<usize>, r: int) -> Set<int> {
    Set::new(|y: int| 0 <= y < p.len() && root_of(p, y) == r)
}

/// Once a chain reaches its root, giving it more fuel changes nothing.
proof fn lemma_fuel_mono(p: Seq<usize>, x: int, k1: nat, k2: nat)
    requires
        reaches_root(p, x, k1),
        k1 <= k2,
    ensures
        reaches_root(p, x, k2),
        root_fueled(p, x, k2) == root_fueled(p, x, k1),
        dist_fueled(p, x, k2) == dist_fueled(p, x, k1),
    decreases k1,
{
    if 0 <= x < p.len() && p[x] as int != x {
        lemma_fuel_mono(p, p[x] as int, (k1 - 1) as nat, (k2 - 1) as nat);
    }
}

/// Weight sums are likewise independent of the fuel once the root is reached.
proof fn lemma_wsum_fuel<T: GroupValue>(p: Seq<usize>, w: Seq<T>, x: int, k1: nat, k2: nat)
    requires
        reaches_root(p, x, k1),
        k1 <= k2,
    ensures
        wsum_fueled(p, w, x, k2) == wsum_fueled(p, w, x, k1),
    decreases k1,
{
    if 0 <= x < p.len() && p[x] as int != x {
        lemma_wsum_fuel(p, w, p[x] as int, (k1 - 1) as nat, (k2 - 1) as nat);
    }
}

/// The slots on the path from `x` to its root, with fuel `k`.
spec fn path_set(p: Seq<usize>, x: int, k: nat) -> Set<int>
    decreases k,
{
    if 0 <= x < p.len() && p[x] as int != x && k > 0 {
        path_set(p, p[x] as int, (k - 1) as nat).insert(x)
    } else {
        Set::empty().insert(x)
    }
}

/// A reached path visits pairwise distinct slots, so its length is below the
/// number of slots.
proof fn lemma_reaches_props(p: Seq<usize>, x: int, k: nat)
    requires
        parents_in_range(p),
        0 <= x < p.len(),
        reaches_root(p, x, k),
    ensures
        0 <= root_fueled(p, x, k) < p.len(),
        p[root_fueled(p, x, k)] as int == root_fueled(p, x, k),
        dist_fueled(p, x, k) <= k,
        reaches_root(p, x, dist_fueled(p, x, k)),
        path_set(p, x, k).finite(),
        path_set(p, x, k).len() == dist_fueled(p, x, k) + 1,
        forall|y: int| path_set(p, x, k).contains(y) ==> 0 <= y < p.len(),
        forall|y: int|
            path_set(p, x, k).contains(y) ==> reaches_root(p, y, k) && dist_fueled(p, y, k)
                <= dist_fueled(p, x, k),
        dist_fueled(p, x, k) < p.len(),
    decreases k,
{
    if p[x] as int != x {
        let px = p[x] as int;
        lemma_reaches_props(p, px, (k - 1) as nat);
        assert forall|y: int| path_set(p, x, k).contains(y) implies reaches_root(p, y, k)
            && dist_fueled(p, y, k) <= dist_fueled(p, x, k) && 0 <= y < p.len() by {
            if y != x {
                assert(path_set(p, px, (k - 1) as nat).contains(y));
                lemma_fuel_mono(p, y, (k - 1) as nat, k);
            }
        }
        // `x` is not on its parent's path: everything there is strictly
        // closer to the root.
        assert(!path_set(p, px, (k - 1) as nat).contains(x)) by {
            if path_set(p, px, (k - 1) as nat).contains(x) {
                lemma_fuel_mono(p, x, (k - 1) as nat, k);
                assert(dist_fueled(p, x, k) <= dist_fueled(p, px, (k - 1) as nat));
            }
        }
        assert(path_set(p, x, k) == path_set(p, px, (k - 1) as nat).insert(x));
        assert(path_set(p, x, k).len() == dist_fueled(p, x, k) + 1);
    } else {
        assert(path_set(p, x, k) == Set::<int>::empty().insert(x));
        assert(path_set(p, x, k).len() == 1);
        assert forall|y: int| path_set(p, x, k).contains(y) implies reaches_root(p, y, k)
            && dist_fueled(p, y, k) <= dist_fueled(p, x, k) && 0 <= y < p.len() by {
            assert(y == x);
        }
    }
    // The path fits inside the slot range, which bounds its length.
    lemma_int_range(0, p.len() as int);
    assert(path_set(p, x, k).subset_of(set_int_range(0, p.len() as int)));
    lemma_len_subset(path_set(p, x, k), set_int_range(0, p.len() as int));
}

/// Properties of roots and distances under acyclicity, including the step
/// equations one level up the chain.
proof fn lemma_roots(p: Seq<usize>, x: int)
    requires
        parents_in_range(p),
        acyclic(p),
        0 <= x < p.len(),
    ensures
        0 <= root_of(p, x) < p.len(),
        p[root_of(p, x)] as int == root_of(p, x),
        dist(p, x) < p.len(),
        reaches_root(p, x, dist(p, x)),
        p[x] as int == x ==> root_of(p, x) == x && dist(p, x) == 0,
        p[x] as int != x ==> root_of(p, x) == root_of(p, p[x] as int),
        p[x] as int != x ==> dist(p, x) == dist(p, p[x] as int) + 1,
        p[x] as int != x ==> root_of(p, x) != x,
{
    let n = p.len() as nat;
    assert(reaches_root(p, x, n));
    lemma_reaches_props(p, x, n);
    lemma_fuel_mono(p, x, n, (n + 1) as nat);
    lemma_reaches_props(p, x, (n + 1) as nat);
    if p[x] as int != x {
        let px = p[x] as int;
        assert(reaches_root(p, px, (n - 1) as nat));
        lemma_fuel_mono(p, px, (n - 1) as nat, n);
        lemma_fuel_mono(p, px, (n - 1) as nat, (n + 1) as nat);
        // If the root equalled `x`, then `x` would be its own parent.
        lemma_reaches_props(p, px, (n - 1) as nat);
    }
}

/// The weight sum one step up the chain.
proof fn lemma_wsum_step<T: GroupValue>(p: Seq<usize>, w: Seq<T>, x: int)
    requires
        parents_in_range(p),
        acyclic(p),
        0 <= x < p.len(),
        p[x] as int != x,
    ensures
        wsum(p, w, x) == T::plus(w[x], wsum(p, w, p[x] as int)),
{
    let n = p.len() as nat;
    let px = p[x] as int;
    lemma_roots(p, x);
    assert(reaches_root(p, x, n));
    assert(reaches_root(p, px, (n - 1) as nat));
    lemma_wsum_fuel(p, w, px, (n - 1) as nat, n);
    lemma_wsum_fuel(p, w, px, (n - 1) as nat, (n + 1) as nat);
}

/// Re-pointing one slot at its own root, with its cumulative weight, changes
/// no root and no weight sum: the single step of path compression.
proof fn lemma_repoint_one<T: GroupValue>(
    p: Seq<usize>,
    w: Seq<T>,
    p2: Seq<usize>,
    w2: Seq<T>,
    c: int,
    y: int,
)
    requires
        parents_in_range(p),
        acyclic(p),
        p.len() == w.len(),
        p.len() <= usize::MAX,
        0 <= c < p.len(),
        0 <= y < p.len(),
        p2 == p.update(c, root_of(p, c) as usize),
        w2 == w.update(c, wsum(p, w, c)),
    ensures
        reaches_root(p2, y, dist(p, y)),
        root_of(p2, y) == root_of(p, y),
        wsum(p2, w2, y) == wsum(p, w, y),
    decreases dist(p, y),
{
    let n = p.len() as nat;
    let r = root_of(p, c);
    lemma_roots(p, c);
    lemma_roots(p, y);
    if p[y] as int == y {
        if y == c {
            // A root re-points at itself with a zero weight sum.
            assert(p2[y] as int == y);
        } else {
            assert(p2[y] as int == y);
        }
    } else if y == c {
        // `c` now points straight at its root `r`, carrying its old
        // cumulative weight, so its weight sum is unchanged.
        assert(r != c);
        assert(p2[c] as int == r);
        assert(p2[r] as int == r);
        assert(dist(p, c) >= 1);
        assert(reaches_root(p2, r, (dist(p, c) - 1) as nat));
        assert(reaches_root(p2, c, dist(p, c)));
        assert(root_fueled(p2, r, n) == r);
        assert(root_of(p2, c) == r);
        assert(wsum_fueled(p2, w2, r, n) == T::zero());
        assert(w2[c] == wsum(p, w, c));
        assert(wsum(p2, w2, c) == T::plus(wsum(p, w, c), T::zero()));
        T::lemma_plus_zero(wsum(p, w, c));
    } else {
        let py = p[y] as int;
        lemma_repoint_one(p, w, p2, w2, c, py);
        assert(p2[y] as int == py);
        assert(w2[y] == w[y]);
        // Bridge the fuels: the parent's facts hold at its own distance,
        // which is below every fuel used here.
        lemma_fuel_mono(p2, py, dist(p, py), n);
        lemma_fuel_mono(p2, py, dist(p, py), (n + 1) as nat);
        lemma_wsum_fuel(p2, w2, py, dist(p, py), n);
        lemma_wsum_fuel(p2, w2, py, dist(p, py), (n + 1) as nat);
        lemma_wsum_step(p, w, y);
        assert(reaches_root(p2, py, (dist(p, y) - 1) as nat));
        assert(reaches_root(p2, y, dist(p, y)));
        assert(root_of(p2, y) == root_fueled(p2, py, n));
        assert(wsum(p2, w2, y) == T::plus(w[y], wsum_fueled(p2, w2, py, n)));
        assert(wsum_fueled(p2, w2, py, n) == wsum(p2, w2, py));
    }
}

/// Path compression, aggregated over every element: roots and weight sums are
/// both preserved, and the structure stays acyclic.
proof fn lemma_repoint<T: GroupValue>(p: Seq<usize>, w: Seq<T>, p2: Seq<usize>, w2: Seq<T>, c: int)
    requires
        parents_in_range(p),
        acyclic(p),
        p.len() == w.len(),
        p.len() <= usize::MAX,
        0 <= c < p.len(),
        p2 == p.update(c, root_of(p, c) as usize),
        w2 == w.update(c, wsum(p, w, c)),
    ensures
        parents_in_range(p2),
        acyclic(p2),
        forall|y: int| 0 <= y < p.len() ==> root_of(p2, y) == root_of(p, y),
        forall|y: int| 0 <= y < p.len() ==> wsum(p2, w2, y) == wsum(p, w, y),
{
    lemma_roots(p, c);
    assert forall|y: int| 0 <= y < p.len() implies #[trigger] root_of(p2, y) == root_of(p, y) by {
        lemma_repoint_one(p, w, p2, w2, c, y);
    }
    assert forall|y: int| 0 <= y < p.len() implies #[trigger] wsum(p2, w2, y) == wsum(p, w, y) by {
        lemma_repoint_one(p, w, p2, w2, c, y);
    }
    assert forall|y: int| 0 <= y < p2.len() implies #[trigger] reaches_root(
        p2,
        y,
        p2.len() as nat,
    ) by {
        lemma_repoint_one(p, w, p2, w2, c, y);
        lemma_roots(p, y);
        lemma_fuel_mono(p2, y, dist(p, y), p2.len() as nat);
    }
}

/// Attaching root `a` under root `b` with weight `wt`: elements of `a`'s
/// class move to `b`'s class and their weight sums shift by `wt`; everything
/// else is untouched.
proof fn lemma_attach_one<T: GroupValue>(
    p: Seq<usize>,
    w: Seq<T>,
    p2: Seq<usize>,
    w2: Seq<T>,
    a: int,
    b: int,
    wt: T,
    y: int,
)
    requires
        parents_in_range(p),
        acyclic(p),
        p.len() == w.len(),
        p.len() <= usize::MAX,
        0 <= a < p.len(),
        0 <= b < p.len(),
        a != b,
        p[a] as int == a,
        p[b] as int == b,
        p2 == p.update(a, b as usize),
        w2 == w.update(a, wt),
        0 <= y < p.len(),
    ensures
        reaches_root(p2, y, (dist(p, y) + 1) as nat),
        root_of(p2, y) == (if root_of(p, y) == a {
            b
        } else {
            root_of(p, y)
        }),
        wsum(p2, w2, y) == (if root_of(p, y) == a {
            T::plus(wsum(p, w, y), wt)
        } else {
            wsum(p, w, y)
        }),
    decreases dist(p, y),
{
    let n = p.len() as nat;
    lemma_roots(p, y);
    if y == a {
        assert(p2[a] as int == b);
        assert(p2[b] as int == b);
        assert(dist(p, a) == 0);
        assert(reaches_root(p2, b, 0));
        assert(reaches_root(p2, a, 1));
        assert(root_fueled(p2, b, n) == b);
        assert(root_of(p2, a) == b);
        assert(wsum_fueled(p2, w2, b, n) == T::zero());
        assert(w2[a] == wt);
        assert(wsum(p2, w2, a) == T::plus(wt, T::zero()));
        T::lemma_plus_zero(wt);
        lemma_zero_left::<T>(wt);
        assert(wsum(p, w, a) == T::zero());
    } else if p[y] as int == y {
        assert(p2[y] as int == y);
        assert(root_of(p2, y) == y);
        assert(root_of(p, y) == y);
        assert(wsum(p2, w2, y) == T::zero());
        assert(wsum(p, w, y) == T::zero());
    } else {
        let py = p[y] as int;
        lemma_attach_one(p, w, p2, w2, a, b, wt, py);
        assert(p2[y] as int == py);
        assert(w2[y] == w[y]);
        lemma_fuel_mono(p2, py, (dist(p, py) + 1) as nat, n);
        lemma_fuel_mono(p2, py, (dist(p, py) + 1) as nat, (n + 1) as nat);
        lemma_wsum_fuel(p2, w2, py, (dist(p, py) + 1) as nat, n);
        lemma_wsum_fuel(p2, w2, py, (dist(p, py) + 1) as nat, (n + 1) as nat);
        lemma_wsum_step(p, w, y);
        assert(reaches_root(p2, py, (dist(p, y) - 1 + 1) as nat));
        assert(reaches_root(p2, y, (dist(p, y) + 1) as nat));
        assert(root_of(p2, y) == root_fueled(p2, py, n));
        assert(wsum(p2, w2, y) == T::plus(w[y], wsum_fueled(p2, w2, py, n)));
        assert(wsum_fueled(p2, w2, py, n) == wsum(p2, w2, py));
        if root_of(p, py) == a {
            T::lemma_plus_assoc(w[y], wsum(p, w, py), wt);
        }
    }
}

/// The union step, aggregated over every element.
proof fn lemma_attach<T: GroupValue>(
    p: Seq<usize>,
    w: Seq<T>,
    p2: Seq<usize>,
    w2: Seq<T>,
    a: int,
    b: int,
    wt: T,
)
    requires
        parents_in_range(p),
        acyclic(p),
        p.len() == w.len(),
        p.len() <= usize::MAX,
        0 <= a < p.len(),
        0 <= b < p.len(),
        a != b,
        p[a] as int == a,
        p[b] as int == b,
        p2 == p.update(a, b as usize),
        w2 == w.update(a, wt),
    ensures
        parents_in_range(p2),
        acyclic(p2),
        forall|y: int|
            0 <= y < p.len() ==> root_of(p2, y) == (if root_of(p, y) == a {
                b
            } else {
                root_of(p, y)
            }),
        forall|y: int|
            0 <= y < p.len() ==> wsum(p2, w2, y) == (if root_of(p, y) == a {
                T::plus(wsum(p, w, y), wt)
            } else {
                wsum(p, w, y)
            }),
{
    assert forall|y: int| 0 <= y < p.len() implies #[trigger] root_of(p2, y) == (if root_of(p, y)
        == a {
        b
    } else {
        root_of(p, y)
    }) by {
        lemma_attach_one(p, w, p2, w2, a, b, wt, y);
    }
    assert forall|y: int| 0 <= y < p.len() implies #[trigger] wsum(p2, w2, y) == (if root_of(p, y)
        == a {
        T::plus(wsum(p, w, y), wt)
    } else {
        wsum(p, w, y)
    }) by {
        lemma_attach_one(p, w, p2, w2, a, b, wt, y);
    }
    assert forall|y: int| 0 <= y < p2.len() implies #[trigger] reaches_root(
        p2,
        y,
        p2.len() as nat,
    ) by {
        lemma_attach_one(p, w, p2, w2, a, b, wt, y);
        lemma_roots(p, y);
        lemma_fuel_mono(p2, y, (dist(p, y) + 1) as nat, p2.len() as nat);
    }
}

/// Two finite disjoint sets have a union of summed cardinality.
proof fn lemma_len_disjoint_union(s1: Set<int>, s2: Set<int>)
    requires
        s1.finite(),
        s2.finite(),
        s1.disjoint(s2),
    ensures
        s1.union(s2).finite(),
        s1.union(s2).len() == s1.len() + s2.len(),
    decreases s1.len(),
{
    if s1.is_empty() {
        assert(s1.union(s2) =~= s2);
    } else {
        let e = s1.choose();
        assert(s1.contains(e));
        assert(s1.remove(e).union(s2) =~= s1.union(s2).remove(e));
        lemma_len_disjoint_union(s1.remove(e), s2);
        assert(s1.union(s2).contains(e));
        assert(s1.union(s2) =~= s1.union(s2).remove(e).insert(e));
    }
}

/// Each class is a finite subset of the slot range, and classes of distinct
/// roots are disjoint, so two of them fit in the range together.
proof fn lemma_class_bounds(p: Seq<usize>, a: int, b: int)
    requires
        a != b,
    ensures
        class_of(p, a).finite(),
        class_of(p, b).finite(),
        class_of(p, a).disjoint(class_of(p, b)),
        class_of(p, a).len() + class_of(p, b).len() <= p.len(),
{
    lemma_int_range(0, p.len() as int);
    lemma_len_subset(class_of(p, a), set_int_range(0, p.len() as int));
    lemma_len_subset(class_of(p, b), set_int_range(0, p.len() as int));
    lemma_len_disjoint_union(class_of(p, a), class_of(p, b));
    lemma_len_subset(class_of(p, a).union(class_of(p, b)), set_int_range(0, p.len() as int));
}

/// A single class is a finite subset of the slot range.
proof fn lemma_class_finite(p: Seq<usize>, a: int)
    ensures
        class_of(p, a).finite(),
        class_of(p, a).len() <= p.len(),
{
    lemma_int_range(0, p.len() as int);
    lemma_len_subset(class_of(p, a), set_int_range(0, p.len() as int));
}

/// A weighted disjoint set: `n` elements, each with a parent slot, a size
/// counter that is meaningful at roots, and a weight relative to its direct
/// parent. The sum of the weights along the path from `x` to its root is the
/// potential of `x` relative to its set, and path compression caches it
/// without changing it.
pub struct UnionFind<T> {
    parents: Vec<usize>,
    ranks: Vec<usize>,
    weights: Vec<T>,
}

impl<T: GroupValue> UnionFind<T> {
    /// The number of elements.
    pub closed spec fn count(&self) -> nat {
        self.parents@.len()
    }

    /// The canonical representative of `x`'s set.
    pub closed spec fn spec_root(&self, x: int) -> int {
        root_of(self.parents@, x)
    }

    /// The cumulative offset from `x` up to its representative.
    pub closed spec fn spec_wsum(&self, x: int) -> T {
        wsum(self.parents@, self.weights@, x)
    }

    /// Whether `x` and `y` are in the same set.
    pub open spec fn spec_equiv(&self, x: int, y: int) -> bool {
        self.spec_root(x) == self.spec_root(y)
    }

    /// The relative offset from `x` to `y`: the value `w` such that
    /// `value(y) == value(x) + w` under the constraints recorded so far,
    /// meaningful when the two are in the same set.
    pub open spec fn spec_diff(&self, x: int, y: int) -> T {
        group_diff(self.spec_wsum(x), self.spec_wsum(y))
    }

    /// The number of elements in `x`'s set.
    pub closed spec fn spec_size(&self, x: int) -> nat {
        class_of(self.parents@, self.spec_root(x)).len()
    }

    /// `x` points directly at its representative and caches its cumulative
    /// offset: what path compression establishes.
    pub closed spec fn compressed(&self, x: int) -> bool {
        &&& self.parents@[x] as int == self.spec_root(x)
        &&& self.weights@[x] == self.spec_wsum(x)
    }

    /// The parent forest is acyclic and in range, roots carry weight zero,
    /// and the counter at each root is the size of its class.
    pub closed spec fn wf(&self) -> bool {
        &&& self.ranks@.len() == self.parents@.len()
        &&& self.weights@.len() == self.parents@.len()
        &&& parents_in_range(self.parents@)
        &&& acyclic(self.parents@)
        &&& forall|z: int|
            0 <= z < self.parents@.len() && self.parents@[z] as int == z ==> (
            #[trigger] self.weights@[z]) == T::zero()
        &&& forall|r: int|
            0 <= r < self.parents@.len() && self.parents@[r] as int == r ==> (
            #[trigger] self.ranks@[r]) as nat == class_of(self.parents@, r).len()
    }

    /// Creates `n` singleton sets, each with weight zero.
    pub fn new(n: usize) -> (uf: Self)
        ensures
            uf.wf(),
            uf.count() == n,
            forall|x: int| 0 <= x < n ==> uf.spec_root(x) == x,
            forall|x: int| 0 <= x < n ==> uf.spec_wsum(x) == T::zero(),
            forall|x: int| 0 <= x < n ==> uf.spec_size(x) == 1,
    {
        let mut parents: Vec<usize> = Vec::new();
        let mut ranks: Vec<usize> = Vec::new();
        let mut weights: Vec<T> = Vec::new();
        let mut i: usize = 0;
        while i < n
            invariant
                i <= n,
                parents@.len() == i,
                ranks@.len() == i,
                weights@.len() == i,
                forall|m: int| 0 <= m < i ==> (#[trigger] parents@[m]) as int == m,
                forall|m: int| 0 <= m < i ==> (#[trigger] ranks@[m]) == 1,
                forall|m: int| 0 <= m < i ==> (#[trigger] weights@[m]) == T::zero(),
            decreases n - i,
        {
            parents.push(i);
            ranks.push(1);
            weights.push(T::zero_value());
            i += 1;
        }
        let uf = UnionFind { parents, ranks, weights };
        proof {
            assert forall|x: int| 0 <= x < n implies #[trigger] uf.spec_root(x) == x
                && uf.spec_wsum(x) == T::zero() by {
                assert(uf.parents@[x] as int == x);
            }
            assert forall|x: int| 0 <= x < n implies #[trigger] class_of(uf.parents@, x) =~= Set::<
                int,
            >::empty().insert(x) by {
                assert forall|y: int| #[trigger] class_of(uf.parents@, x).contains(y) implies y
                    == x by {
                    assert(uf.parents@[y] as int == y);
                    assert(root_of(uf.parents@, y) == y);
                }
                assert(uf.parents@[x] as int == x);
                assert(root_of(uf.parents@, x) == x);
            }
            assert forall|x: int| 0 <= x < n implies #[trigger] uf.spec_size(x) == 1 by {
                assert(class_of(uf.parents@, x) =~= Set::<int>::empty().insert(x));
                assert(class_of(uf.parents@, x).len() == 1);
            }
            assert forall|r: int|
                0 <= r < uf.parents@.len() && uf.parents@[r] as int == r implies (
            #[trigger] uf.ranks@[r]) as nat == class_of(uf.parents@, r).len() by {
                assert(uf.spec_size(r) == 1);
                assert(uf.spec_root(r) == r);
            }
        }
        uf
    }

    /// Resolves `x`'s representative, compressing the whole path: every slot
    /// between `x` and the root is re-pointed at the root with its cumulative
    /// offset cached. The observable state — every representative and every
    /// cumulative offset — is unchanged.
    pub fn find(&mut self, x: usize) -> (r: usize)
        requires
            old(self).wf(),
            x < old(self).count(),
        ensures
            final(self).wf(),
            final(self).count() == old(self).count(),
            r < final(self).count(),
            r as int == old(self).spec_root(x as int),
            forall|z: int|
                0 <= z < old(self).count() ==> final(self).spec_root(z) == old(self).spec_root(z),
            forall|z: int|
                0 <= z < old(self).count() ==> final(self).spec_wsum(z) == old(self).spec_wsum(z),
            forall|z: int|
                0 <= z < old(self).count() && old(self).compressed(z) ==> final(self).compressed(
                    z,
                ),
            final(self).compressed(x as int),
            final(self).spec_root(r as int) == r as int,
            final(self).spec_equiv(x as int, r as int),
    {
        let ghost p0 = self.parents@;
        let ghost w0 = self.weights@;
        let ghost n = p0.len() as int;
        let count = self.parents.len();
        // First pass: walk up to the root.
        let mut r = x;
        while self.parents[r] != r
            invariant
                old(self).wf(),
                self == old(self),
                p0 == self.parents@,
                w0 == self.weights@,
                r < p0.len(),
                root_of(p0, r as int) == root_of(p0, x as int),
            decreases dist(p0, r as int),
        {
            proof {
                lemma_roots(p0, r as int);
            }
            r = self.parents[r];
        }
        proof {
            lemma_roots(p0, r as int);
            lemma_roots(p0, x as int);
        }
        // Second pass: total the weights from `x` up to the root.
        let mut acc = T::zero_value();
        let mut c = x;
        proof {
            lemma_zero_left::<T>(wsum(p0, w0, x as int));
        }
        while c != r
            invariant
                old(self).wf(),
                self == old(self),
                p0 == self.parents@,
                w0 == self.weights@,
                c < p0.len(),
                r < p0.len(),
                p0[r as int] == r,
                r as int == root_of(p0, x as int),
                root_of(p0, c as int) == r as int,
                T::plus(acc, wsum(p0, w0, c as int)) == wsum(p0, w0, x as int),
            decreases dist(p0, c as int),
        {
            proof {
                lemma_roots(p0, c as int);
                lemma_wsum_step(p0, w0, c as int);
                T::lemma_plus_assoc(
                    acc,
                    w0[c as int],
                    wsum(p0, w0, p0[c as int] as int),
                );
            }
            acc = T::add_value(acc, self.weights[c]);
            c = self.parents[c];
        }
        proof {
            T::lemma_plus_zero(acc);
        }
        // Third pass: re-point every slot on the path at the root, caching
        // its cumulative offset.
        let mut c2 = x;
        while c2 != r
            invariant
                old(self).wf(),
                count == p0.len(),
                self.ranks@ == old(self).ranks@,
                self.parents@.len() == p0.len(),
                self.weights@.len() == p0.len(),
                p0.len() == w0.len(),
                p0 == old(self).parents@,
                w0 == old(self).weights@,
                parents_in_range(self.parents@),
                acyclic(self.parents@),
                c2 < p0.len(),
                r < p0.len(),
                p0[r as int] == r,
                r as int == root_of(p0, x as int),
                root_of(p0, c2 as int) == r as int,
                acc == wsum(p0, w0, c2 as int),
                forall|z: int|
                    0 <= z < p0.len() ==> root_of(self.parents@, z) == root_of(p0, z),
                forall|z: int|
                    0 <= z < p0.len() ==> wsum(self.parents@, self.weights@, z) == wsum(
                        p0,
                        w0,
                        z,
                    ),
                forall|z: int|
                    0 <= z < p0.len() ==> ((#[trigger] self.parents@[z]) == p0[z]
                        && self.weights@[z] == w0[z]) || (self.parents@[z] as int == root_of(
                        p0,
                        z,
                    ) && self.weights@[z] == wsum(p0, w0, z)),
                forall|z: int|
                    0 <= z < p0.len() && dist(p0, z) <= dist(p0, c2 as int) ==> (
                    #[trigger] self.parents@[z]) == p0[z] && self.weights@[z] == w0[z],
                c2 == x || (self.parents@[x as int] as int == r as int && self.weights@[x as int]
                    == wsum(p0, w0, x as int)),
            decreases dist(p0, c2 as int),
        {
            let ghost pc = self.parents@;
            let ghost wc = self.weights@;
            let next = self.parents[c2];
            let wgt = self.weights[c2];
            proof {
                lemma_roots(p0, c2 as int);
                assert(p0[c2 as int] as int != c2 as int);
                assert(pc[c2 as int] == p0[c2 as int]);
                assert(wc[c2 as int] == w0[c2 as int]);
                // This write is exactly one path-compression step on the
                // current state.
                assert(root_of(pc, c2 as int) == r as int);
                assert(wsum(pc, wc, c2 as int) == acc);
            }
            self.parents[c2] = r;
            self.weights[c2] = acc;
            proof {
                lemma_repoint(
                    pc,
                    wc,
                    self.parents@,
                    self.weights@,
                    c2 as int,
                );
                // Shift the accumulator one step up the walked path.
                lemma_wsum_step(p0, w0, c2 as int);
                let s = wsum(p0, w0, next as int);
                T::lemma_plus_comm(w0[c2 as int], s);
                T::lemma_plus_assoc(s, w0[c2 as int], T::negate(w0[c2 as int]));
                T::lemma_plus_negate(w0[c2 as int]);
                T::lemma_plus_zero(s);
            }
            acc = T::sub_value(acc, wgt);
            c2 = next;
        }
        proof {
            // The untouched clause covers the root itself, so its weight is
            // still zero and well-formedness can be reassembled.
            assert forall|rr: int|
                0 <= rr < p0.len() && self.parents@[rr] as int == rr implies (
            #[trigger] self.ranks@[rr]) as nat == class_of(self.parents@, rr).len() by {
                assert(root_of(p0, rr) == rr) by {
                    if p0[rr] as int == rr {
                        lemma_roots(p0, rr);
                    } else {
                        lemma_roots(p0, rr);
                    }
                }
                assert(p0[rr] as int == rr) by {
                    lemma_roots(p0, rr);
                }
                assert(class_of(self.parents@, rr) =~= class_of(p0, rr));
            }
            assert forall|z: int|
                0 <= z < p0.len() && self.parents@[z] as int == z implies (
            #[trigger] self.weights@[z]) == T::zero() by {
                lemma_roots(p0, z);
            }
            assert forall|z: int|
                0 <= z < old(self).count() && old(self).compressed(z) implies self.compressed(
                z,
            ) by {}
            // The returned representative is its own representative.
            lemma_roots(p0, r as int);
            assert(root_of(self.parents@, r as int) == root_of(p0, r as int));
            assert(root_of(self.parents@, x as int) == root_of(p0, x as int));
        }
        r
    }

    /// Whether `x` and `y` are in the same set.
    pub fn equiv(&mut self, x: usize, y: usize) -> (r: bool)
        requires
            old(self).wf(),
            x < old(self).count(),
            y < old(self).count(),
        ensures
            final(self).wf(),
            final(self).count() == old(self).count(),
            r == old(self).spec_equiv(x as int, y as int),
            forall|z: int|
                0 <= z < old(self).count() ==> final(self).spec_root(z) == old(self).spec_root(z),
            forall|z: int|
                0 <= z < old(self).count() ==> final(self).spec_wsum(z) == old(self).spec_wsum(z),
    {
        let rx = self.find(x);
        let ry = self.find(y);
        rx == ry
    }

    /// The number of elements in `x`'s set: the size counter cached at its
    /// representative.
    pub fn size(&mut self, x: usize) -> (s: usize)
        requires
            old(self).wf(),
            x < old(self).count(),
        ensures
            final(self).wf(),
            final(self).count() == old(self).count(),
            s == old(self).spec_size(x as int),
            forall|z: int|
                0 <= z < old(self).count() ==> final(self).spec_root(z) == old(self).spec_root(z),
            forall|z: int|
                0 <= z < old(self).count() ==> final(self).spec_wsum(z) == old(self).spec_wsum(z),
    {
        let r = self.find(x);
        proof {
            lemma_roots(self.parents@, x as int);
            assert(self.parents@[r as int] as int == r as int);
            assert forall|z: int| 0 <= z < self.count() implies root_of(self.parents@, z)
                == root_of(old(self).parents@, z) by {
                assert(self.spec_root(z) == old(self).spec_root(z));
            }
            assert(class_of(self.parents@, r as int) =~= class_of(
                old(self).parents@,
                old(self).spec_root(x as int),
            ));
        }
        self.ranks[r]
    }

    /// The relative offset from `x` to `y`, after compressing both paths.
    /// When the two elements are not in the same set the number returned is
    /// meaningless rather than an error, as the offset queries are only
    /// specified for unified elements.
    pub fn diff(&mut self, x: usize, y: usize) -> (d: T)
        requires
            old(self).wf(),
            x < old(self).count(),
            y < old(self).count(),
        ensures
            final(self).wf(),
            final(self).count() == old(self).count(),
            d == old(self).spec_diff(x as int, y as int),
            forall|z: int|
                0 <= z < old(self).count() ==> final(self).spec_root(z) == old(self).spec_root(z),
            forall|z: int|
                0 <= z < old(self).count() ==> final(self).spec_wsum(z) == old(self).spec_wsum(z),
    {
        self.find(x);
        self.find(y);
        let wx = self.weights[x];
        let wy = self.weights[y];
        T::sub_value(wy, wx)
    }
}

/// The weight given to a root attached on the kept side makes the new
/// constraint hold: the recorded offset from `x` to `y` comes out as `w`.
proof fn lemma_attach_new_diff<T: GroupValue>(wx: T, wy: T, w: T)
    ensures
        group_diff(wx, T::plus(wy, T::plus(T::plus(wx, T::negate(wy)), w))) == w,
{
    let nwy = T::negate(wy);
    T::lemma_plus_assoc(wy, T::plus(wx, nwy), w);
    T::lemma_plus_assoc(wy, wx, nwy);
    T::lemma_plus_comm(wy, wx);
    T::lemma_plus_assoc(wx, wy, nwy);
    T::lemma_plus_negate(wy);
    T::lemma_plus_zero(wx);
    T::lemma_plus_comm(wx, w);
    T::lemma_plus_assoc(w, wx, T::negate(wx));
    T::lemma_plus_negate(wx);
    T::lemma_plus_zero(w);
}

/// The mirrored case: the root on `x`'s side is attached, with the negated
/// offset, and the recorded offset from `x` to `y` still comes out as `w`.
proof fn lemma_attach_new_diff_mirror<T: GroupValue>(wx: T, wy: T, w: T)
    ensures
        group_diff(T::plus(wx, T::plus(T::plus(wy, T::negate(wx)), T::negate(w))), wy) == w,
{
    let nwx = T::negate(wx);
    let nw = T::negate(w);
    let u = T::plus(wx, T::plus(T::plus(wy, nwx), nw));
    T::lemma_plus_assoc(wx, T::plus(wy, nwx), nw);
    T::lemma_plus_assoc(wx, wy, nwx);
    T::lemma_plus_comm(wx, wy);
    T::lemma_plus_assoc(wy, wx, nwx);
    T::lemma_plus_negate(wx);
    T::lemma_plus_zero(wy);
    assert(u == T::plus(wy, nw));
    lemma_negate_plus::<T>(wy, nw);
    lemma_negate_negate::<T>(w);
    // wy + -(wy + -w) == wy + (-wy + w) == (wy + -wy) + w == w
    T::lemma_plus_assoc(wy, T::negate(wy), w);
    T::lemma_plus_negate(wy);
    lemma_zero_left::<T>(w);
}

impl<T: GroupValue> UnionFind<T> {
    /// Merges the sets of `x` and `y` under the constraint
    /// `value(y) == value(x) + w`, attaching the smaller set's root under the
    /// larger set's root. Returns `false` and changes nothing observable when
    /// the two are already unified: the constraint is not re-validated, the
    /// first recorded chain stays authoritative. Afterwards two elements are
    /// unified exactly when they were, or when one was with `x` and the other
    /// with `y`; offsets inside old sets are kept, and the offset from `x` to
    /// `y` is `w`.
    pub fn unite(&mut self, x: usize, y: usize, w: T) -> (merged: bool)
        requires
            old(self).wf(),
            x < old(self).count(),
            y < old(self).count(),
        ensures
            final(self).wf(),
            final(self).count() == old(self).count(),
            merged == !old(self).spec_equiv(x as int, y as int),
            forall|z1: int, z2: int|
                0 <= z1 < old(self).count() && 0 <= z2 < old(self).count() ==> (final(self).spec_equiv(z1, z2) <==> (old(self).spec_equiv(z1, z2) || (merged && ((old(self).spec_equiv(z1, x as int) && old(self).spec_equiv(z2, y as int)) || (old(self).spec_equiv(z1, y as int) && old(self).spec_equiv(z2, x as int)))))),
            forall|z1: int, z2: int|
                0 <= z1 < old(self).count() && 0 <= z2 < old(self).count() && old(self).spec_equiv(
                    z1,
                    z2,
                ) ==> final(self).spec_diff(z1, z2) == old(self).spec_diff(z1, z2),
            merged ==> final(self).spec_diff(x as int, y as int) == w,
            forall|z: int|
                0 <= z < old(self).count() ==> final(self).spec_size(z) == (if merged && (old(
                    self,
                ).spec_equiv(z, x as int) || old(self).spec_equiv(z, y as int)) {
                    old(self).spec_size(x as int) + old(self).spec_size(y as int)
                } else {
                    old(self).spec_size(z)
                }),
            !merged ==> forall|z: int|
                0 <= z < old(self).count() ==> final(self).spec_root(z) == old(self).spec_root(z)
                    && final(self).spec_wsum(z) == old(self).spec_wsum(z),
    {
        let ghost n = old(self).count();
        let x_root = self.find(x);
        let y_root = self.find(y);
        let ghost p1 = self.parents@;
        let ghost w1 = self.weights@;
        proof {
            assert forall|z: int| 0 <= z < n implies root_of(p1, z) == root_of(
                old(self).parents@,
                z,
            ) && wsum(p1, w1, z) == wsum(old(self).parents@, old(self).weights@, z) by {
                assert(self.spec_root(z) == old(self).spec_root(z));
                assert(self.spec_wsum(z) == old(self).spec_wsum(z));
            }
            assert forall|z: int| 0 <= z < n implies #[trigger] class_of(p1, z) == class_of(
                old(self).parents@,
                z,
            ) by {
                assert(class_of(p1, z) =~= class_of(old(self).parents@, z));
            }
        }
        if x_root == y_root {
            proof {
                assert forall|z: int| 0 <= z < n implies #[trigger] self.spec_size(z) == old(
                    self,
                ).spec_size(z) by {
                    assert(class_of(p1, self.spec_root(z)) == class_of(
                        old(self).parents@,
                        old(self).spec_root(z),
                    ));
                }
            }
            return false;
        }
        let nn = self.parents.len();
        let size_x = self.ranks[x_root];
        let size_y = self.ranks[y_root];
        let wx = self.weights[x];
        let wy = self.weights[y];
        proof {
            lemma_roots(p1, x as int);
            lemma_roots(p1, y as int);
            lemma_class_bounds(p1, x_root as int, y_root as int);
        }
        let (small, big, wt) = if size_x >= size_y {
            (y_root, x_root, T::add_value(T::sub_value(wx, wy), w))
        } else {
            (x_root, y_root, T::sub_value(T::sub_value(wy, wx), w))
        };
        self.parents[small] = big;
        self.ranks[big] = size_x + size_y;
        self.weights[small] = wt;
        proof {
            let a = small as int;
            let b = big as int;
            let p2 = self.parents@;
            let w2 = self.weights@;
            lemma_attach(p1, w1, p2, w2, a, b, wt);
            // Classes: the two merge, the rest are untouched.
            assert(class_of(p2, b) =~= class_of(p1, a).union(class_of(p1, b)));
            lemma_class_bounds(p1, a, b);
            lemma_len_disjoint_union(class_of(p1, a), class_of(p1, b));
            assert forall|rr: int| rr != a && rr != b implies #[trigger] class_of(p2, rr)
                == class_of(p1, rr) by {
                assert(class_of(p2, rr) =~= class_of(p1, rr));
            }
            // Well-formedness: the loser is no longer a root; every other
            // root keeps its weight and its counter, and the winner's counter
            // is the merged size.
            assert forall|z: int|
                0 <= z < p2.len() && p2[z] as int == z implies (#[trigger] w2[z])
                    == T::zero() by {}
            assert forall|rr: int|
                0 <= rr < p2.len() && p2[rr] as int == rr implies (#[trigger] self.ranks@[rr])
                    as nat == class_of(p2, rr).len() by {
                if rr == b {
                    assert(class_of(p2, b).len() == class_of(p1, a).len() + class_of(
                        p1,
                        b,
                    ).len());
                } else {
                    assert(class_of(p2, rr) == class_of(p1, rr));
                }
            }
            assert(self.wf());
            // The recorded offset from x to y is exactly w.
            assert(root_of(p1, x as int) == x_root as int);
            assert(root_of(p1, y as int) == y_root as int);
            assert(wx == wsum(p1, w1, x as int));
            assert(wy == wsum(p1, w1, y as int));
            if a == y_root as int {
                assert(wsum(p2, w2, x as int) == wx);
                assert(wsum(p2, w2, y as int) == T::plus(wy, wt));
                lemma_attach_new_diff::<T>(wx, wy, w);
            } else {
                assert(wsum(p2, w2, x as int) == T::plus(wx, wt));
                assert(wsum(p2, w2, y as int) == wy);
                lemma_attach_new_diff_mirror::<T>(wx, wy, w);
            }
            assert(self.spec_diff(x as int, y as int) == w);
            // Offsets inside old sets: both endpoints shifted by the same
            // amount, or both untouched.
            assert forall|z1: int, z2: int|
                0 <= z1 < n && 0 <= z2 < n && old(self).spec_equiv(z1, z2) implies self.spec_diff(
                z1,
                z2,
            ) == old(self).spec_diff(z1, z2) by {
                if root_of(p1, z1) == a {
                    lemma_diff_shift::<T>(wsum(p1, w1, z1), wsum(p1, w1, z2), wt);
                }
            }
            // Sizes after the merge.
            assert forall|z: int| 0 <= z < n implies #[trigger] self.spec_size(z) == (if (
            old(self).spec_equiv(z, x as int) || old(self).spec_equiv(z, y as int)) {
                old(self).spec_size(x as int) + old(self).spec_size(y as int)
            } else {
                old(self).spec_size(z)
            }) by {
                lemma_roots(p1, z);
                let rz = root_of(p1, z);
                assert(rz == root_of(old(self).parents@, z));
                assert(class_of(p1, rz) == class_of(old(self).parents@, rz));
                assert(old(self).spec_size(z) == class_of(p1, rz).len());
                assert(x_root as int == root_of(old(self).parents@, x as int));
                assert(y_root as int == root_of(old(self).parents@, y as int));
                assert(old(self).spec_size(x as int) == class_of(p1, x_root as int).len());
                assert(old(self).spec_size(y as int) == class_of(p1, y_root as int).len());
                if rz == a || rz == b {
                    assert(root_of(p2, z) == b);
                    assert(self.spec_size(z) == class_of(p2, b).len());
                    assert(class_of(p2, b).len() == class_of(p1, a).len() + class_of(
                        p1,
                        b,
                    ).len());
                    assert(old(self).spec_equiv(z, x as int) || old(self).spec_equiv(
                        z,
                        y as int,
                    ));
                } else {
                    assert(root_of(p2, z) == rz);
                    assert(class_of(p2, rz) == class_of(p1, rz));
                    assert(self.spec_size(z) == class_of(p1, rz).len());
                    assert(!old(self).spec_equiv(z, x as int) && !old(self).spec_equiv(
                        z,
                        y as int,
                    ));
                }
            }
        }
        true
    }
}

/// Recorded offsets compose along chains: for any three elements, the offset
/// from `a` to `c` is the offset from `a` to `b` plus the offset from `b` to
/// `c`. Together with `unite`'s postcondition this pins every in-set offset
/// to the single value the recorded constraints imply, whatever the union
/// order or the compression history.
pub proof fn lemma_diff_chain<T: GroupValue>(s: UnionFind<T>, a: int, b: int, c: int)
    ensures
        s.spec_diff(a, c) == T::plus(s.spec_diff(a, b), s.spec_diff(b, c)),
{
    lemma_group_diff_chain::<T>(s.spec_wsum(a), s.spec_wsum(b), s.spec_wsum(c));
}

/// The size query counts exactly the elements equivalent to `x`: `spec_size`
/// is the cardinality of `x`'s equivalence class.
pub proof fn lemma_size_is_class_count<T: GroupValue>(s: UnionFind<T>, x: int)
    ensures
        s.spec_size(x) == Set::new(
            |j: int| 0 <= j < s.count() && s.spec_equiv(j, x),
        ).len(),
{
    assert(class_of(s.parents@, s.spec_root(x)) =~= Set::new(
        |j: int| 0 <= j < s.count() && s.spec_equiv(j, x),
    ));
}

/// Path compression is unobservable: two structures that agree on every
/// representative and every cumulative offset agree on every equivalence,
/// offset and size query. Together with `find`'s postcondition this says that
/// repeated `find` calls return the same root and leave every `diff`, `equiv`
/// and `size` result as the first call found them.
pub proof fn lemma_queries_from_abstract_state<T: GroupValue>(s1: UnionFind<T>, s2: UnionFind<T>)
    requires
        s1.count() == s2.count(),
        forall|z: int| 0 <= z < s1.count() ==> s1.spec_root(z) == s2.spec_root(z),
        forall|z: int| 0 <= z < s1.count() ==> s1.spec_wsum(z) == s2.spec_wsum(z),
    ensures
        forall|x: int, y: int|
            0 <= x < s1.count() && 0 <= y < s1.count() ==> (s1.spec_equiv(x, y) == s2.spec_equiv(
                x,
                y,
            )),
        forall|x: int, y: int|
            0 <= x < s1.count() && 0 <= y < s1.count() ==> s1.spec_diff(x, y) == s2.spec_diff(
                x,
                y,
            ),
        forall|x: int| 0 <= x < s1.count() ==> s1.spec_size(x) == s2.spec_size(x),
{
    assert forall|z: int| 0 <= z < s1.parents@.len() implies root_of(s1.parents@, z) == root_of(
        s2.parents@,
        z,
    ) by {
        assert(s1.spec_root(z) == s2.spec_root(z));
    }
    assert forall|x: int| 0 <= x < s1.count() implies #[trigger] s1.spec_size(x)
        == s2.spec_size(x) by {
        assert(class_of(s1.parents@, s1.spec_root(x)) =~= class_of(s2.parents@, s2.spec_root(x)));
    }
}

} // verus!
