//! Algebraic operator contracts shared by the range-fold structures, and the
//! numeric contract used by the weighted disjoint-set structure.

use vstd::prelude::*;

verus! {

/// A monoid over a copyable value type: an associative binary operation `op`
/// with a two-sided identity `unit`. Commutativity is not assumed, so folds
/// must apply `op` strictly left to right.
pub trait Monoid: Sized + Copy {
    /// The operation, as specifications see it.
    spec fn op(a: Self, b: Self) -> Self;

    /// The identity element, as specifications see it.
    spec fn unit() -> Self;

    /// `op` is associative.
    proof fn lemma_assoc(a: Self, b: Self, c: Self)
        ensures
            Self::op(Self::op(a, b), c) == Self::op(a, Self::op(b, c)),
    ;

    /// `unit` is a two-sided identity for `op`.
    proof fn lemma_unit(a: Self)
        ensures
            Self::op(Self::unit(), a) == a,
            Self::op(a, Self::unit()) == a,
    ;

    /// Executable form of `op`.
    fn combine(a: Self, b: Self) -> (r: Self)
        ensures
            r == Self::op(a, b),
    ;

    /// Executable form of `unit`.
    fn identity() -> (r: Self)
        ensures
            r == Self::unit(),
    ;
}

/// The left-to-right fold of `s[lo..hi]` under a monoid: `unit` for an empty
/// range, and otherwise `op(fold(s[lo..hi-1]), s[hi-1])`.
pub open spec fn fold_range<T: Monoid>(s: Seq<T>, lo: int, hi: int) -> T
    decreases hi - lo,
{
    if lo >= hi {
        T::unit()
    } else {
        T::op(fold_range(s, lo, hi - 1), s[hi - 1])
    }
}

/// An empty range folds to the identity element, whatever the sequence and
/// the position.
pub proof fn lemma_fold_range_empty<T: Monoid>(s: Seq<T>, i: int)
    ensures
        fold_range(s, i, i) == T::unit(),
{
}

/// A fold splits at any midpoint: folding `[lo, hi)` equals combining the
/// folds of `[lo, mid)` and `[mid, hi)`.
pub proof fn lemma_fold_range_split<T: Monoid>(s: Seq<T>, lo: int, mid: int, hi: int)
    requires
        lo <= mid <= hi,
    ensures
        fold_range(s, lo, hi) == T::op(fold_range(s, lo, mid), fold_range(s, mid, hi)),
    decreases hi - mid,
{
    if mid == hi {
        T::lemma_unit(fold_range(s, lo, mid));
    } else {
        lemma_fold_range_split(s, lo, mid, hi - 1);
        T::lemma_assoc(fold_range(s, lo, mid), fold_range(s, mid, hi - 1), s[hi - 1]);
    }
}

/// A nonempty fold can be peeled at the front: folding `[lo, hi)` equals
/// `op(s[lo], fold(s[lo+1..hi]))`.
pub proof fn lemma_fold_range_front<T: Monoid>(s: Seq<T>, lo: int, hi: int)
    requires
        lo < hi,
    ensures
        fold_range(s, lo, hi) == T::op(s[lo], fold_range(s, lo + 1, hi)),
{
    lemma_fold_range_split(s, lo, lo + 1, hi);
    assert(fold_range(s, lo, lo) == T::unit());
    assert(fold_range(s, lo, lo + 1) == T::op(T::unit(), s[lo]));
    T::lemma_unit(s[lo]);
}

/// Folding inside a subrange equals folding the corresponding positions of
/// the underlying sequence.
pub proof fn lemma_fold_range_subrange<T: Monoid>(s: Seq<T>, off: int, len: int, lo: int, hi: int)
    requires
        0 <= off,
        0 <= lo <= hi <= len,
        off + len <= s.len(),
    ensures
        fold_range(s.subrange(off, off + len), lo, hi) == fold_range(s, off + lo, off + hi),
    decreases hi - lo,
{
    if lo < hi {
        lemma_fold_range_subrange(s, off, len, lo, hi - 1);
    }
}

/// An associative and idempotent binary operation, the contract the sparse
/// table needs: it answers a query by combining two precomputed sub-ranges
/// that may overlap, so duplicated elements must not change the result.
/// No identity element is required.
pub trait IdempotentOp: Sized + Copy {
    /// The operation, as specifications see it.
    spec fn op(a: Self, b: Self) -> Self;

    /// `op` is associative.
    proof fn lemma_assoc(a: Self, b: Self, c: Self)
        ensures
            Self::op(Self::op(a, b), c) == Self::op(a, Self::op(b, c)),
    ;

    /// `op` is idempotent.
    proof fn lemma_idem(a: Self)
        ensures
            Self::op(a, a) == a,
    ;

    /// Executable form of `op`.
    fn combine(a: Self, b: Self) -> (r: Self)
        ensures
            r == Self::op(a, b),
    ;
}

/// The left-to-right fold of the nonempty range `s[lo..hi]` under an
/// idempotent operation: `s[lo]` alone for a single element, and otherwise
/// `op(fold(s[lo..hi-1]), s[hi-1])`.
pub open spec fn fold_range1<T: IdempotentOp>(s: Seq<T>, lo: int, hi: int) -> T
    decreases hi - lo,
{
    if hi <= lo + 1 {
        s[lo]
    } else {
        T::op(fold_range1(s, lo, hi - 1), s[hi - 1])
    }
}

/// A nonempty fold splits at any interior midpoint.
pub proof fn lemma_fold_range1_split<T: IdempotentOp>(s: Seq<T>, lo: int, mid: int, hi: int)
    requires
        lo < mid < hi,
    ensures
        fold_range1(s, lo, hi) == T::op(fold_range1(s, lo, mid), fold_range1(s, mid, hi)),
    decreases hi - mid,
{
    if mid + 1 == hi {
    } else {
        lemma_fold_range1_split(s, lo, mid, hi - 1);
        T::lemma_assoc(fold_range1(s, lo, mid), fold_range1(s, mid, hi - 1), s[hi - 1]);
    }
}

/// Two sub-ranges that together cover `[lo, hi)` and may overlap fold to the
/// fold of the whole range: the crux of the sparse-table query, and the place
/// where idempotence is needed.
pub proof fn lemma_fold_range1_overlap<T: IdempotentOp>(
    s: Seq<T>,
    lo: int,
    m2: int,
    m1: int,
    hi: int,
)
    requires
        lo <= m2 <= m1 <= hi,
        lo < m1,
        m2 < hi,
    ensures
        T::op(fold_range1(s, lo, m1), fold_range1(s, m2, hi)) == fold_range1(s, lo, hi),
{
    if m2 == m1 {
        lemma_fold_range1_split(s, lo, m2, hi);
    } else if lo == m2 && m1 == hi {
        T::lemma_idem(fold_range1(s, lo, hi));
    } else if lo == m2 {
        let y = fold_range1(s, lo, m1);
        let z = fold_range1(s, m1, hi);
        lemma_fold_range1_split(s, lo, m1, hi);
        T::lemma_assoc(y, y, z);
        T::lemma_idem(y);
    } else if m1 == hi {
        let a = fold_range1(s, lo, m2);
        let y = fold_range1(s, m2, hi);
        lemma_fold_range1_split(s, lo, m2, hi);
        T::lemma_assoc(a, y, y);
        T::lemma_idem(y);
    } else {
        let a = fold_range1(s, lo, m2);
        let y = fold_range1(s, m2, m1);
        let z = fold_range1(s, m1, hi);
        lemma_fold_range1_split(s, lo, m2, m1);
        lemma_fold_range1_split(s, m2, m1, hi);
        T::lemma_assoc(a, y, T::op(y, z));
        T::lemma_assoc(y, y, z);
        T::lemma_idem(y);
        lemma_fold_range1_split(s, m2, m1, hi);
        lemma_fold_range1_split(s, lo, m2, hi);
    }
}

/// `i64` under minimum, with `i64::MAX` as the identity. Minimum is
/// associative and idempotent, so this type serves both range-fold structures.
#[derive(Clone, Copy, Debug, PartialEq, Eq, Structural)]
pub struct MinI64 {
    pub v: i64,
}

impl Monoid for MinI64 {
    open spec fn op(a: Self, b: Self) -> Self {
        if a.v <= b.v {
            a
        } else {
            b
        }
    }

    open spec fn unit() -> Self {
        MinI64 { v: i64::MAX }
    }

    proof fn lemma_assoc(a: Self, b: Self, c: Self) {
    }

    proof fn lemma_unit(a: Self) {
    }

    fn combine(a: Self, b: Self) -> (r: Self) {
        if a.v <= b.v {
            a
        } else {
            b
        }
    }

    fn identity() -> (r: Self) {
        MinI64 { v: i64::MAX }
    }
}

impl IdempotentOp for MinI64 {
    open spec fn op(a: Self, b: Self) -> Self {
        if a.v <= b.v {
            a
        } else {
            b
        }
    }

    proof fn lemma_assoc(a: Self, b: Self, c: Self) {
    }

    proof fn lemma_idem(a: Self) {
    }

    fn combine(a: Self, b: Self) -> (r: Self) {
        if a.v <= b.v {
            a
        } else {
            b
        }
    }
}

/// The first and last element of a folded range, or nothing for an empty one.
/// This monoid is not commutative, which makes it a sharp check that folds
/// apply their operator strictly left to right.
#[derive(Clone, Copy, Debug, PartialEq, Eq, Structural)]
pub enum Ends {
    Empty,
    Span { first: i64, last: i64 },
}

impl Monoid for Ends {
    open spec fn op(a: Self, b: Self) -> Self {
        match (a, b) {
            (Ends::Empty, _) => b,
            (_, Ends::Empty) => a,
            (Ends::Span { first: f, last: _ }, Ends::Span { first: _, last: l }) => Ends::Span {
                first: f,
                last: l,
            },
        }
    }

    open spec fn unit() -> Self {
        Ends::Empty
    }

    proof fn lemma_assoc(a: Self, b: Self, c: Self) {
    }

    proof fn lemma_unit(a: Self) {
    }

    fn combine(a: Self, b: Self) -> (r: Self) {
        match (a, b) {
            (Ends::Empty, _) => b,
            (_, Ends::Empty) => a,
            (Ends::Span { first: f, last: _ }, Ends::Span { first: _, last: l }) => Ends::Span {
                first: f,
                last: l,
            },
        }
    }

    fn identity() -> (r: Self) {
        Ends::Empty
    }
}

/// An abelian group over a copyable value type: addition, negation and a zero
/// element. The weighted disjoint-set structure stores its potentials in such
/// a type; wraparound behaviour on overflow is the implementor's choice.
pub trait GroupValue: Sized + Copy {
    /// Addition, as specifications see it.
    spec fn plus(a: Self, b: Self) -> Self;

    /// Negation, as specifications see it.
    spec fn negate(a: Self) -> Self;

    /// The additive identity, as specifications see it.
    spec fn zero() -> Self;

    /// `plus` is associative.
    proof fn lemma_plus_assoc(a: Self, b: Self, c: Self)
        ensures
            Self::plus(Self::plus(a, b), c) == Self::plus(a, Self::plus(b, c)),
    ;

    /// `plus` is commutative.
    proof fn lemma_plus_comm(a: Self, b: Self)
        ensures
            Self::plus(a, b) == Self::plus(b, a),
    ;

    /// `zero` is an identity for `plus`.
    proof fn lemma_plus_zero(a: Self)
        ensures
            Self::plus(a, Self::zero()) == a,
    ;

    /// `negate` gives the inverse under `plus`.
    proof fn lemma_plus_negate(a: Self)
        ensures
            Self::plus(a, Self::negate(a)) == Self::zero(),
    ;

    /// Executable addition.
    fn add_value(a: Self, b: Self) -> (r: Self)
        ensures
            r == Self::plus(a, b),
    ;

    /// Executable subtraction: `a` plus the negation of `b`.
    fn sub_value(a: Self, b: Self) -> (r: Self)
        ensures
            r == Self::plus(a, Self::negate(b)),
    ;

    /// Executable additive identity.
    fn zero_value() -> (r: Self)
        ensures
            r == Self::zero(),
    ;
}

/// Difference of two group values: `b` minus `a`.
pub open spec fn group_diff<T: GroupValue>(a: T, b: T) -> T {
    T::plus(b, T::negate(a))
}

/// `zero` is also a left identity.
pub proof fn lemma_zero_left<T: GroupValue>(a: T)
    ensures
        T::plus(T::zero(), a) == a,
{
    T::lemma_plus_comm(T::zero(), a);
    T::lemma_plus_zero(a);
}

/// Inverses are unique: whatever cancels `a` equals `negate(a)`.
pub proof fn lemma_negate_unique<T: GroupValue>(a: T, b: T)
    requires
        T::plus(a, b) == T::zero(),
    ensures
        b == T::negate(a),
{
    // b == zero + b == (a + -a) + b == (-a + a) + b == -a + (a + b) == -a + zero == -a
    lemma_zero_left(b);
    T::lemma_plus_negate(a);
    T::lemma_plus_comm(a, T::negate(a));
    T::lemma_plus_assoc(T::negate(a), a, b);
    T::lemma_plus_zero(T::negate(a));
}

/// Negation distributes over addition.
pub proof fn lemma_negate_plus<T: GroupValue>(a: T, b: T)
    ensures
        T::negate(T::plus(a, b)) == T::plus(T::negate(a), T::negate(b)),
{
    let na = T::negate(a);
    let nb = T::negate(b);
    let n = T::plus(na, nb);
    // (a + b) + (-a + -b) == zero, so n is the inverse of a + b.
    T::lemma_plus_assoc(T::plus(a, b), na, nb);
    T::lemma_plus_comm(T::plus(a, b), na);
    T::lemma_plus_assoc(na, a, b);
    T::lemma_plus_comm(na, a);
    T::lemma_plus_negate(a);
    lemma_zero_left(b);
    T::lemma_plus_negate(b);
    lemma_negate_unique(T::plus(a, b), n);
}

/// Negation is an involution.
pub proof fn lemma_negate_negate<T: GroupValue>(a: T)
    ensures
        T::negate(T::negate(a)) == a,
{
    T::lemma_plus_negate(a);
    T::lemma_plus_comm(a, T::negate(a));
    lemma_negate_unique(T::negate(a), a);
}

/// The span of `i64`, used to state two's-complement wraparound.
pub open spec fn i64_span() -> int {
    0x1_0000_0000_0000_0000
}

/// Normalises a sum or difference of two `i64` values back into `i64` range,
/// as two's-complement wraparound does.
pub open spec fn wrap_i64(x: int) -> int
    recommends
        -i64_span() <= x < i64_span(),
{
    if x > i64::MAX {
        x - i64_span()
    } else if x < i64::MIN {
        x + i64_span()
    } else {
        x
    }
}

/// `i64` with wrapping addition forms an abelian group, so it can carry the
/// potentials of the weighted disjoint-set structure; on overflow the values
/// wrap around, exactly as the primitive wrapping operations do.
impl GroupValue for i64 {
    open spec fn plus(a: Self, b: Self) -> Self {
        wrap_i64(a + b) as i64
    }

    open spec fn negate(a: Self) -> Self {
        wrap_i64(-a) as i64
    }

    open spec fn zero() -> Self {
        0
    }

    proof fn lemma_plus_assoc(a: Self, b: Self, c: Self) {
    }

    proof fn lemma_plus_comm(a: Self, b: Self) {
    }

    proof fn lemma_plus_zero(a: Self) {
    }

    proof fn lemma_plus_negate(a: Self) {
    }

    fn add_value(a: Self, b: Self) -> (r: Self) {
        a.wrapping_add(b)
    }

    fn sub_value(a: Self, b: Self) -> (r: Self) {
        a.wrapping_sub(b)
    }

    fn zero_value() -> (r: Self) {
        0
    }
}

/// The last two summands of a left-nested sum can be swapped.
pub proof fn lemma_plus_swap<T: GroupValue>(a: T, b: T, c: T)
    ensures
        T::plus(T::plus(a, b), c) == T::plus(T::plus(a, c), b),
{
    T::lemma_plus_assoc(a, b, c);
    T::lemma_plus_comm(b, c);
    T::lemma_plus_assoc(a, c, b);
}

/// Relative offsets compose along a chain: the offset from `a` to `b` plus
/// the offset from `b` to `c` is the offset from `a` to `c`.
pub proof fn lemma_group_diff_chain<T: GroupValue>(a: T, b: T, c: T)
    ensures
        T::plus(group_diff(a, b), group_diff(b, c)) == group_diff(a, c),
{
    let na = T::negate(a);
    let nb = T::negate(b);
    // (b + -a) + (c + -b) == ((b + -a) + c) + -b == ((b + c) + -a) + -b
    //   == ((b + c) + -b) + -a == ((c + b) + -b) + -a == (c + (b + -b)) + -a
    //   == c + -a
    T::lemma_plus_assoc(T::plus(b, na), c, nb);
    lemma_plus_swap::<T>(b, na, c);
    lemma_plus_swap::<T>(T::plus(b, c), na, nb);
    T::lemma_plus_comm(b, c);
    T::lemma_plus_assoc(c, b, nb);
    T::lemma_plus_negate(b);
    T::lemma_plus_zero(c);
}

/// A difference is unchanged when both sides are shifted by the same value.
pub proof fn lemma_diff_shift<T: GroupValue>(a: T, b: T, t: T)
    ensures
        group_diff(T::plus(a, t), T::plus(b, t)) == group_diff(a, b),
{
    let na = T::negate(a);
    let nt = T::negate(t);
    lemma_negate_plus(a, t);
    // (b + t) + (-a + -t) == (b + -a) + (t + -t) == b + -a
    T::lemma_plus_assoc(T::plus(b, t), na, nt);
    T::lemma_plus_assoc(b, t, na);
    T::lemma_plus_comm(t, na);
    T::lemma_plus_assoc(b, na, t);
    T::lemma_plus_assoc(T::plus(b, na), t, nt);
    T::lemma_plus_negate(t);
    T::lemma_plus_zero(T::plus(b, na));
}

} // verus!
