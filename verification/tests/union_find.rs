use complib_rs::data_structure::union_find::UnionFind;

// A fresh structure has no two elements unified and every set of size one.
#[test]
fn test_fresh_structure_is_singletons() {
    let mut uf = UnionFind::<i64>::new(5);
    for i in 0..5 {
        for j in 0..5 {
            if i != j {
                assert!(!uf.equiv(i, j));
            }
        }
        assert_eq!(uf.size(i), 1);
    }
}

// The example from the offset contract: unite(a, b, w) records
// value(b) == value(a) + w.
#[test]
fn test_unite_records_offset() {
    let mut uf = UnionFind::<i64>::new(2);
    assert!(uf.unite(0, 1, 5));
    assert!(uf.equiv(0, 1));
    assert_eq!(uf.diff(0, 1), 5);
    assert_eq!(uf.diff(1, 0), -5);
}

// Offsets compose along chains of constraints, whatever the union order or
// the compression history.
#[test]
fn test_offsets_compose_along_chains() {
    let mut a = UnionFind::<i64>::new(6);
    assert!(a.unite(0, 1, 5));
    assert!(a.unite(1, 2, 7));
    assert!(a.unite(4, 3, 2));
    assert!(a.unite(2, 3, 10));
    assert_eq!(a.diff(0, 2), 12);
    assert_eq!(a.diff(0, 3), 22);
    assert_eq!(a.diff(0, 4), 20);
    assert_eq!(a.diff(3, 1), -17);

    // Same constraints, different order: the same offsets come out.
    let mut b = UnionFind::<i64>::new(6);
    assert!(b.unite(2, 3, 10));
    assert!(b.unite(4, 3, 2));
    assert!(b.unite(1, 2, 7));
    assert!(b.unite(0, 1, 5));
    assert_eq!(b.diff(0, 2), 12);
    assert_eq!(b.diff(0, 3), 22);
    assert_eq!(b.diff(0, 4), 20);
    assert_eq!(b.diff(3, 1), -17);
}

// Re-uniting already unified elements is a no-op that returns false and does
// not re-validate the constraint.
#[test]
fn test_reunite_is_noop() {
    let mut uf = UnionFind::<i64>::new(3);
    assert!(uf.unite(0, 1, 4));
    assert!(uf.unite(1, 2, 6));
    assert!(!uf.unite(0, 2, 999));
    assert_eq!(uf.diff(0, 2), 10);
}

// Repeated find calls return the same root and leave every query unchanged.
#[test]
fn test_find_is_idempotent() {
    let mut uf = UnionFind::<i64>::new(8);
    uf.unite(0, 1, 1);
    uf.unite(1, 2, 2);
    uf.unite(2, 3, 3);
    uf.unite(5, 6, -4);
    let r1 = uf.find(3);
    let d1 = uf.diff(0, 3);
    let s1 = uf.size(3);
    for _ in 0..3 {
        assert_eq!(uf.find(3), r1);
        assert_eq!(uf.diff(0, 3), d1);
        assert_eq!(uf.size(3), s1);
    }
}

// After any sequence of unions, size(x) counts the elements sharing x's root.
#[test]
fn test_size_accounting() {
    let mut uf = UnionFind::<i64>::new(7);
    uf.unite(0, 1, 0);
    uf.unite(2, 3, 0);
    uf.unite(4, 5, 0);
    assert_eq!(uf.size(0), 2);
    assert_eq!(uf.size(3), 2);
    assert_eq!(uf.size(6), 1);
    uf.unite(1, 2, 0);
    assert_eq!(uf.size(0), 4);
    assert_eq!(uf.size(3), 4);
    assert_eq!(uf.size(4), 2);
    uf.unite(6, 0, 0);
    assert_eq!(uf.size(6), 5);
    uf.unite(5, 6, 0);
    for i in 0..7 {
        assert_eq!(uf.size(i), 7);
    }
}

// Potentials live in wrapping 64-bit arithmetic: overflowing offsets wrap
// around instead of failing.
#[test]
fn test_offsets_wrap_on_overflow() {
    let mut uf = UnionFind::<i64>::new(3);
    assert!(uf.unite(0, 1, i64::MAX));
    assert!(uf.unite(1, 2, 1));
    assert_eq!(uf.diff(0, 2), i64::MIN);
    assert_eq!(uf.diff(2, 0), i64::MIN);
}
