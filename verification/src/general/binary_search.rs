//! Binary search over a partitioned index range, and bound queries over
//! sorted vectors.

use vstd::prelude::*;

verus! {

/// Examines the partitioned index range `[first, last)` and locates the first
/// index of the second partition: the returned `r` is such that the predicate
/// cannot return `false` below `r` and cannot return `true` at or above `r`.
/// The caller promises the range is partitioned: the predicate never returns
/// `true` at some index and `false` at a lower one.
pub fn partition_point<F: Fn(usize) -> bool>(first: usize, last: usize, pred: F) -> (r: usize)
    requires
        first <= last,
        forall|i: usize| first <= i < last ==> call_requires(pred, (i,)),
        forall|i: usize, j: usize|
            first <= i <= j < last ==> !(call_ensures(pred, (j,), true) && call_ensures(
                pred,
                (i,),
                false,
            )),
    ensures
        first <= r <= last,
        forall|i: usize| first <= i < r ==> !call_ensures(pred, (i,), false),
        forall|i: usize| r <= i < last ==> !call_ensures(pred, (i,), true),
{
    let mut left = first;
    let mut right = last;
    while left != right
        invariant
            first <= left <= right <= last,
            forall|i: usize| first <= i < last ==> call_requires(pred, (i,)),
            forall|i: usize, j: usize|
                first <= i <= j < last ==> !(call_ensures(pred, (j,), true) && call_ensures(
                    pred,
                    (i,),
                    false,
                )),
            forall|i: usize| first <= i < left ==> !call_ensures(pred, (i,), false),
            forall|i: usize| right <= i < last ==> !call_ensures(pred, (i,), true),
        decreases right - left,
    {
        let mid = left + (right - left) / 2;
        if pred(mid) {
            left = mid + 1;
        } else {
            right = mid;
        }
    }
    left
}

/// Bound queries over a sorted container: the first position not below a
/// value, the first position above it, and the pair of both.
pub trait BinarySearch<T>: Sized {
    /// The elements searched, in order.
    spec fn elems(&self) -> Seq<T>;

    /// The strict order the elements are sorted by.
    spec fn val_lt(a: T, b: T) -> bool;

    /// The first index whose element is not below `value`.
    fn lower_bound(&self, value: &T) -> (r: usize)
        requires
            forall|i: int, j: int|
                0 <= i <= j < self.elems().len() ==> !Self::val_lt(
                    #[trigger] self.elems()[j],
                    #[trigger] self.elems()[i],
                ),
        ensures
            r <= self.elems().len(),
            forall|i: int| 0 <= i < r ==> Self::val_lt(#[trigger] self.elems()[i], *value),
            forall|i: int|
                r <= i < self.elems().len() ==> !Self::val_lt(#[trigger] self.elems()[i], *value),
    ;

    /// The first index whose element is above `value`.
    fn upper_bound(&self, value: &T) -> (r: usize)
        requires
            forall|i: int, j: int|
                0 <= i <= j < self.elems().len() ==> !Self::val_lt(
                    #[trigger] self.elems()[j],
                    #[trigger] self.elems()[i],
                ),
        ensures
            r <= self.elems().len(),
            forall|i: int| 0 <= i < r ==> !Self::val_lt(*value, #[trigger] self.elems()[i]),
            forall|i: int|
                r <= i < self.elems().len() ==> Self::val_lt(*value, #[trigger] self.elems()[i]),
    ;

    /// Both bounds: the half-open range of positions whose element equals
    /// `value` under the order.
    fn equal_range(&self, value: &T) -> (r: (usize, usize))
        requires
            forall|i: int, j: int|
                0 <= i <= j < self.elems().len() ==> !Self::val_lt(
                    #[trigger] self.elems()[j],
                    #[trigger] self.elems()[i],
                ),
        ensures
            r.0 <= self.elems().len(),
            r.1 <= self.elems().len(),
            forall|i: int| 0 <= i < r.0 ==> Self::val_lt(#[trigger] self.elems()[i], *value),
            forall|i: int|
                r.0 <= i < self.elems().len() ==> !Self::val_lt(
                    #[trigger] self.elems()[i],
                    *value,
                ),
            forall|i: int| 0 <= i < r.1 ==> !Self::val_lt(*value, #[trigger] self.elems()[i]),
            forall|i: int|
                r.1 <= i < self.elems().len() ==> Self::val_lt(*value, #[trigger] self.elems()[i]),
    ;
}

impl BinarySearch<i64> for Vec<i64> {
    open spec fn elems(&self) -> Seq<i64> {
        self@
    }

    open spec fn val_lt(a: i64, b: i64) -> bool {
        a < b
    }

    fn lower_bound(&self, value: &i64) -> (r: usize) {
        let mut left: usize = 0;
        let mut right: usize = self.len();
        while left != right
            invariant
                self.elems() == self@,
                left <= right <= self@.len(),
                forall|i: int| 0 <= i < left ==> #[trigger] self@[i] < *value,
                forall|i: int| right <= i < self@.len() ==> !(#[trigger] self@[i] < *value),
                forall|i: int, j: int| 0 <= i <= j < self@.len() ==> !((#[trigger] self@[j]) < (
                #[trigger] self@[i])),
            decreases right - left,
        {
            let mid = left + (right - left) / 2;
            if self[mid] < *value {
                left = mid + 1;
            } else {
                right = mid;
            }
        }
        left
    }

    fn upper_bound(&self, value: &i64) -> (r: usize) {
        let mut left: usize = 0;
        let mut right: usize = self.len();
        while left != right
            invariant
                self.elems() == self@,
                left <= right <= self@.len(),
                forall|i: int| 0 <= i < left ==> !(*value < #[trigger] self@[i]),
                forall|i: int| right <= i < self@.len() ==> *value < #[trigger] self@[i],
                forall|i: int, j: int| 0 <= i <= j < self@.len() ==> !((#[trigger] self@[j]) < (
                #[trigger] self@[i])),
            decreases right - left,
        {
            let mid = left + (right - left) / 2;
            if *value < self[mid] {
                right = mid;
            } else {
                left = mid + 1;
            }
        }
        left
    }

    fn equal_range(&self, value: &i64) -> (r: (usize, usize)) {
        (self.lower_bound(value), self.upper_bound(value))
    }
}

} // verus!
