//! Immutable range-fold sparse table over an associative idempotent
//! operation: linear-log precomputation, constant-time range queries, no
//! updates.

use crate::algebra::{
    fold_range1, lemma_fold_range1_overlap, lemma_fold_range1_split, IdempotentOp,
};
use vstd::prelude::*;

verus! {

/// Two to the power `k`.
pub open spec fn pow2(k: nat) -> nat
    decreases k,
{
    if k == 0 {
        1
    } else {
        2 * pow2((k - 1) as nat)
    }
}

/// Powers of two are positive and monotonic in the exponent.
pub proof fn lemma_pow2_mono(a: nat, b: nat)
    requires
        a <= b,
    ensures
        1 <= pow2(a) <= pow2(b),
    decreases b,
{
    if a < b {
        lemma_pow2_mono(a, (b - 1) as nat);
    } else if b > 0 {
        lemma_pow2_mono((a - 1) as nat, (b - 1) as nat);
    }
}

/// The floor of the base-two logarithm of `x`, returned together with the
/// corresponding power of two: `out.1 == 2^out.0 <= x < 2^(out.0 + 1)`.
fn floor_log2(x: usize) -> (out: (usize, usize))
    requires
        x >= 1,
    ensures
        out.1 == pow2(out.0 as nat),
        out.1 <= x < 2 * out.1,
{
    let mut k: usize = 0;
    let mut p: usize = 1;
    while p <= x / 2
        invariant
            x >= 1,
            p == pow2(k as nat),
            1 <= p <= x,
            k < p,
        decreases x - p,
    {
        p = 2 * p;
        k = k + 1;
    }
    (k, p)
}

/// Level `k` of the table holds, at entry `j`, the fold of `d[j..j + 2^k]`.
pub open spec fn level_ok<T: IdempotentOp>(row: Seq<T>, d: Seq<T>, k: int) -> bool {
    &&& pow2(k as nat) <= d.len()
    &&& row.len() == d.len() - pow2(k as nat) + 1
    &&& forall|j: int| 0 <= j < row.len() ==> row[j] == fold_range1(d, j, j + pow2(k as nat))
}

/// A sparse table: level `0` is the input array, and level `k` entry `j`
/// holds the fold over the half-open range `[j, j + 2^k)`. A query combines
/// two precomputed ranges that may overlap, which is sound because the
/// operation is idempotent. Immutable after construction.
pub struct SparseTable<T> {
    table: Vec<Vec<T>>,
}

impl<T: IdempotentOp> View for SparseTable<T> {
    type V = Seq<T>;

    /// The abstract state is the underlying array, level `0` of the table.
    closed spec fn view(&self) -> Seq<T> {
        self.table@[0]@
    }
}

impl<T: IdempotentOp> SparseTable<T> {
    /// Every level folds the right ranges, and there are enough levels to
    /// answer any query up to the array length.
    pub closed spec fn wf(&self) -> bool {
        &&& self.table@.len() >= 1
        &&& self@.len() >= 1
        &&& self@.len() < pow2(self.table@.len() as nat)
        &&& forall|k: int|
            0 <= k < self.table@.len() ==> #[trigger] level_ok(self.table@[k]@, self@, k)
    }

    /// Precomputes `floor(log2(n)) + 1` levels over a nonempty array, each
    /// entry combining the two half-length entries below it.
    pub fn new(data: &Vec<T>) -> (t: Self)
        requires
            data@.len() >= 1,
        ensures
            t.wf(),
            t@ == data@,
    {
        let n = data.len();
        let (log_n, p_max) = floor_log2(n);
        let mut level0: Vec<T> = Vec::new();
        let mut j: usize = 0;
        while j < n
            invariant
                j <= n,
                n == data@.len(),
                level0@.len() == j,
                forall|m: int| 0 <= m < j ==> level0@[m] == data@[m],
            decreases n - j,
        {
            level0.push(data[j]);
            j += 1;
        }
        let mut table: Vec<Vec<T>> = Vec::new();
        table.push(level0);
        proof {
            assert(level_ok(table@[0]@, data@, 0));
        }
        let mut i: usize = 0;
        let mut p: usize = 1;
        while i < log_n
            invariant
                i <= log_n,
                n == data@.len(),
                n >= 1,
                p == pow2(i as nat),
                pow2(log_n as nat) <= n,
                table@.len() == i + 1,
                table@[0]@ == data@,
                forall|k: int| 0 <= k <= i ==> #[trigger] level_ok(table@[k]@, data@, k),
            decreases log_n - i,
        {
            proof {
                lemma_pow2_mono((i + 1) as nat, log_n as nat);
            }
            let prev_len = n - p;
            let mut row: Vec<T> = Vec::new();
            let mut j: usize = 0;
            while j <= n - 2 * p
                invariant
                    n == data@.len(),
                    p == pow2(i as nat),
                    1 <= p,
                    2 * p <= n,
                    j <= n + 1 - 2 * p,
                    table@.len() == i + 1,
                    level_ok(table@[i as int]@, data@, i as int),
                    row@.len() == j,
                    forall|m: int|
                        0 <= m < j ==> row@[m] == fold_range1(data@, m, m + pow2((i + 1) as nat)),
                decreases n - j,
            {
                let a = table[i][j];
                let b = table[i][j + p];
                row.push(T::combine(a, b));
                proof {
                    lemma_fold_range1_split::<T>(
                        data@,
                        j as int,
                        j + p,
                        j + 2 * p,
                    );
                }
                j += 1;
            }
            table.push(row);
            proof {
                assert(level_ok(table@[i + 1]@, data@, i + 1));
                assert(forall|k: int|
                    0 <= k <= i ==> #[trigger] level_ok(table@[k]@, data@, k));
            }
            p = 2 * p;
            i += 1;
        }
        let t = SparseTable { table };
        t
    }

    /// Folds the nonempty half-open range `[left, right)`: picks the largest
    /// power of two not exceeding the range length and combines the two
    /// precomputed folds that start at `left` and end at `right`. They cover
    /// the range and may overlap, so idempotence makes the result exact.
    pub fn fold(&self, left: usize, right: usize) -> (out: T)
        requires
            self.wf(),
            left < right <= self@.len(),
        ensures
            out == fold_range1(self@, left as int, right as int),
    {
        let (log, p) = floor_log2(right - left);
        proof {
            if log >= self.table@.len() {
                lemma_pow2_mono(self.table@.len() as nat, log as nat);
            }
            assert(level_ok(self.table@[log as int]@, self@, log as int));
        }
        let a = self.table[log][left];
        let b = self.table[log][right - p];
        proof {
            lemma_fold_range1_overlap::<T>(
                self@,
                left as int,
                right - p,
                left + p,
                right as int,
            );
        }
        T::combine(a, b)
    }
}

} // verus!
