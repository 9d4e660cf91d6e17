//! Point-update range-fold segment tree over a monoid.

use crate::algebra::{
    fold_range, lemma_fold_range_front, lemma_fold_range_subrange, Monoid,
};
use vstd::prelude::*;

verus! {

/// An internal slot of a heap-shaped array holds the combination of its two
/// children.
pub open spec fn node_ok<T: Monoid>(d: Seq<T>, k: int) -> bool {
    d[k] == T::op(d[2 * k], d[2 * k + 1])
}

/// `k` is a proper ancestor of `j` in the heap layout, where the parent of
/// slot `j` is slot `j / 2`.
pub open spec fn is_ancestor(j: int, k: int) -> bool
    decreases j,
{
    j > 1 && (j / 2 == k || is_ancestor(j / 2, k))
}

/// Folding one level of consistent heap slots equals folding their children:
/// each slot in `[a, b)` expands to the two slots below it.
proof fn lemma_fold_level<T: Monoid>(d: Seq<T>, a: int, b: int)
    requires
        0 <= a <= b,
        2 * b <= d.len(),
        forall|k: int| a <= k < b ==> #[trigger] node_ok(d, k),
    ensures
        fold_range(d, a, b) == fold_range(d, 2 * a, 2 * b),
    decreases b - a,
{
    if a < b {
        lemma_fold_level::<T>(d, a, b - 1);
        assert(node_ok(d, b - 1));
        T::lemma_assoc(fold_range(d, 2 * a, 2 * b - 2), d[2 * b - 2], d[2 * b - 1]);
        assert(fold_range(d, 2 * a, 2 * b - 1) == T::op(fold_range(d, 2 * a, 2 * b - 2), d[2 * b
            - 2]));
        assert(fold_range(d, 2 * a, 2 * b) == T::op(fold_range(d, 2 * a, 2 * b - 1), d[2 * b - 1]));
    }
}

/// A segment tree: `2n` slots where slot `n + i` holds the leaf value for
/// index `i` and every slot `k` with `1 <= k < n` holds the combination of
/// slots `2k` and `2k + 1`. Supports single-leaf update and left-to-right
/// range fold, both in logarithmic time.
pub struct SegmentTree<T> {
    data: Vec<T>,
}

impl<T: Monoid> View for SegmentTree<T> {
    type V = Seq<T>;

    /// The abstract state is the sequence of leaf values.
    closed spec fn view(&self) -> Seq<T> {
        self.data@.subrange(self.data@.len() as int / 2, self.data@.len() as int)
    }
}

impl<T: Monoid> SegmentTree<T> {
    /// The slot array is well formed: an even number of slots, and every
    /// internal slot combines its two children.
    pub closed spec fn wf(&self) -> bool {
        &&& self.data@.len() % 2 == 0
        &&& forall|k: int| 1 <= k < self.data@.len() / 2 ==> #[trigger] node_ok(self.data@, k)
    }

    /// The number of leaves.
    fn size(&self) -> (n: usize)
        requires
            self.wf(),
        ensures
            n == self@.len(),
            self.data@.len() == 2 * n,
            n + n <= usize::MAX,
    {
        let len = self.data.len();
        len / 2
    }

    /// Builds the tree over the given leaf values in linear time, computing
    /// every internal slot bottom-up in a single backward pass.
    pub fn new(v: Vec<T>) -> (t: Self)
        requires
            2 * v@.len() <= usize::MAX,
        ensures
            t.wf(),
            t@ == v@,
    {
        let n = v.len();
        let mut data: Vec<T> = Vec::new();
        let mut i: usize = 0;
        while i < 2 * n
            invariant
                i <= 2 * n,
                2 * n <= usize::MAX,
                data@.len() == i,
            decreases 2 * n - i,
        {
            data.push(T::identity());
            i += 1;
        }
        let mut j: usize = 0;
        while j < n
            invariant
                j <= n,
                n == v@.len(),
                2 * n <= usize::MAX,
                data@.len() == 2 * n,
                forall|m: int| 0 <= m < j ==> data@[n + m] == v@[m],
            decreases n - j,
        {
            data[n + j] = v[j];
            j += 1;
        }
        let mut k: usize = n;
        while k > 1
            invariant
                k <= n,
                n == v@.len(),
                2 * n <= usize::MAX,
                data@.len() == 2 * n,
                forall|m: int| 0 <= m < n ==> data@[n + m] == v@[m],
                forall|m: int| k <= m < n ==> #[trigger] node_ok(data@, m),
            decreases k,
        {
            k -= 1;
            let ghost before = data@;
            let a = data[2 * k];
            let b = data[2 * k + 1];
            data[k] = T::combine(a, b);
            proof {
                assert(node_ok(data@, k as int));
                assert forall|m: int| k < m < n implies #[trigger] node_ok(data@, m) by {
                    assert(node_ok(before, m));
                }
            }
        }
        let t = SegmentTree { data };
        proof {
            assert(t@ =~= v@);
        }
        t
    }

    /// Returns the current leaf value at index `i`.
    pub fn get(&self, i: usize) -> (out: T)
        requires
            self.wf(),
            i < self@.len(),
        ensures
            out == self@[i as int],
    {
        let n = self.size();
        self.data[n + i]
    }

    /// Overwrites leaf `i`, then recombines every ancestor on the path to the
    /// root; no other slot changes, so the abstract state is the old one with
    /// position `i` replaced.
    pub fn set(&mut self, i: usize, value: T)
        requires
            old(self).wf(),
            i < old(self)@.len(),
        ensures
            final(self).wf(),
            final(self)@ == old(self)@.update(i as int, value),
    {
        let n = self.size();
        let ghost n_ = n as int;
        let mut index = i + n;
        self.data[index] = value;
        proof {
            assert forall|k: int|
                1 <= k < n_ && !is_ancestor(i + n_, k) && k != i + n_ implies #[trigger] node_ok(
                self.data@,
                k,
            ) by {
                assert(node_ok(old(self).data@, k));
                if 2 * k == i + n_ || 2 * k + 1 == i + n_ {
                    assert(is_ancestor(i + n_, k));
                }
            }
        }
        while index > 1
            invariant
                i < n_,
                n_ <= i + n_ < 2 * n_,
                self.data@.len() == 2 * n_,
                1 <= index < 2 * n_,
                forall|m: int|
                    n_ <= m < 2 * n_ ==> self.data@[m] == (if m == n_ + i {
                        value
                    } else {
                        old(self).data@[m]
                    }),
                index < n_ ==> node_ok(self.data@, index as int),
                forall|k: int|
                    1 <= k < n_ && !is_ancestor(index as int, k) && k != index
                        ==> #[trigger] node_ok(self.data@, k),
            decreases index,
        {
            let ghost prev = index as int;
            let ghost before = self.data@;
            index = index / 2;
            let a = self.data[2 * index];
            let b = self.data[2 * index + 1];
            self.data[index] = T::combine(a, b);
            proof {
                let cur = index as int;
                assert(node_ok(self.data@, cur));
                assert forall|k: int|
                    1 <= k < n_ && !is_ancestor(cur, k) && k != cur implies #[trigger] node_ok(
                    self.data@,
                    k,
                ) by {
                    assert(is_ancestor(prev, k) == (prev / 2 == k || is_ancestor(prev / 2, k)));
                    assert(node_ok(before, k));
                    if 2 * k == cur || 2 * k + 1 == cur {
                        assert(is_ancestor(cur, k));
                    }
                }
            }
        }
        proof {
            assert forall|k: int| 1 <= k < n_ implies #[trigger] node_ok(self.data@, k) by {
                assert(!is_ancestor(1, k));
                if k != 1 {
                    assert(node_ok(self.data@, k));
                }
            }
            assert(self@ =~= old(self)@.update(i as int, value));
        }
    }

    /// Folds the leaves of the half-open range `[l, r)` left to right,
    /// returning the identity for an empty range. Two cursors walk inward
    /// toward the root, one accumulating a left partial result in increasing
    /// index order and one a right partial result in decreasing index order,
    /// which keeps non-commutative operators correct.
    pub fn fold(&self, l: usize, r: usize) -> (out: T)
        requires
            self.wf(),
            l <= r <= self@.len(),
        ensures
            out == fold_range(self@, l as int, r as int),
    {
        let n = self.size();
        let ghost n_ = n as int;
        let ghost d = self.data@;
        let ghost goal = fold_range(d, l + n_, r + n_);
        let mut left = l + n;
        let mut right = r + n;
        let mut res_l = T::identity();
        let mut res_r = T::identity();
        proof {
            T::lemma_unit(fold_range(d, left as int, right as int));
            T::lemma_unit(T::op(fold_range(d, left as int, right as int), T::unit()));
        }
        while left < right
            invariant
                self.wf(),
                d == self.data@,
                d.len() == 2 * n_,
                left <= right <= 2 * n_,
                1 <= left || (left == 0 && right == 0),
                T::op(res_l, T::op(fold_range(d, left as int, right as int), res_r)) == goal,
            decreases right,
        {
            if left % 2 == 1 {
                proof {
                    lemma_fold_range_front::<T>(d, left as int, right as int);
                    let rest = fold_range(d, left + 1, right as int);
                    T::lemma_assoc(res_l, d[left as int], T::op(rest, res_r));
                    T::lemma_assoc(d[left as int], rest, res_r);
                }
                res_l = T::combine(res_l, self.data[left]);
                left += 1;
            }
            if right % 2 == 1 {
                proof {
                    T::lemma_assoc(fold_range(d, left as int, right - 1), d[right - 1], res_r);
                }
                right -= 1;
                res_r = T::combine(self.data[right], res_r);
            }
            proof {
                lemma_fold_level::<T>(d, left as int / 2, right as int / 2);
            }
            left /= 2;
            right /= 2;
        }
        proof {
            T::lemma_unit(res_r);
            lemma_fold_range_subrange::<T>(d, n_, n_, l as int, r as int);
        }
        T::combine(res_l, res_r)
    }
}

} // verus!
