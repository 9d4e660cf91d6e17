use complib_rs::algebra::{Ends, MinI64, Monoid};
use complib_rs::data_structure::segment_tree::SegmentTree;

fn min_tree(values: &[i64]) -> SegmentTree<MinI64> {
    SegmentTree::new(values.iter().map(|&v| MinI64 { v }).collect())
}

fn ends_tree(values: &[i64]) -> SegmentTree<Ends> {
    SegmentTree::new(
        values.iter().map(|&v| Ends::Span { first: v, last: v }).collect(),
    )
}

// The fold of any range equals the left-to-right combine of the leaves it
// covers, here checked against a direct recomputation.
#[test]
fn test_fold_matches_naive_combine() {
    let values: [i64; 7] = [5, 3, 8, 1, 9, 2, 7];
    let tree = min_tree(&values);
    for l in 0..=7 {
        for r in l..=7 {
            let mut expected = MinI64::identity();
            for i in l..r {
                expected = MinI64::combine(expected, tree.get(i));
            }
            assert_eq!(tree.fold(l, r), expected);
        }
    }
}

// A non-commutative operator: the fold must keep left-to-right order.
#[test]
fn test_fold_keeps_order() {
    let values: [i64; 6] = [10, 20, 30, 40, 50, 60];
    let tree = ends_tree(&values);
    assert_eq!(tree.fold(1, 5), Ends::Span { first: 20, last: 50 });
    assert_eq!(tree.fold(0, 6), Ends::Span { first: 10, last: 60 });
    assert_eq!(tree.fold(3, 4), Ends::Span { first: 40, last: 40 });
}

// An empty range folds to the identity, at every position.
#[test]
fn test_empty_range_gives_identity() {
    let tree = min_tree(&[4, 4, 4]);
    for i in 0..=3 {
        assert_eq!(tree.fold(i, i), MinI64::identity());
    }
    let empty = min_tree(&[]);
    assert_eq!(empty.fold(0, 0), MinI64::identity());
}

// Setting a leaf is visible through get, through every fold that covers the
// index, and through no fold that excludes it.
#[test]
fn test_set_then_get_and_fold() {
    let values: [i64; 5] = [9, 7, 5, 3, 1];
    let mut tree = min_tree(&values);
    tree.set(2, MinI64 { v: -4 });
    assert_eq!(tree.get(2).v, -4);
    assert_eq!(tree.fold(0, 5).v, -4);
    assert_eq!(tree.fold(1, 3).v, -4);
    assert_eq!(tree.fold(0, 2).v, 7);
    assert_eq!(tree.fold(3, 5).v, 1);
    tree.set(4, MinI64 { v: -10 });
    assert_eq!(tree.get(4).v, -10);
    assert_eq!(tree.fold(0, 5).v, -10);
    assert_eq!(tree.fold(0, 4).v, -4);
}

// Interleaved updates keep the equivalence with the naive combine.
#[test]
fn test_interleaved_updates() {
    let mut tree = ends_tree(&[1, 2, 3, 4]);
    tree.set(1, Ends::Span { first: 20, last: 25 });
    tree.set(3, Ends::Span { first: 40, last: 45 });
    assert_eq!(tree.fold(0, 4), Ends::Span { first: 1, last: 45 });
    assert_eq!(tree.fold(1, 3), Ends::Span { first: 20, last: 3 });
    assert_eq!(tree.fold(2, 2), Ends::Empty);
}
