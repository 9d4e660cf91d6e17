use complib_rs::algebra::MinI64;
use complib_rs::data_structure::sparse_table::SparseTable;
use rand::seq::SliceRandom;
use rand::Rng;

fn wrap(values: &[i64]) -> Vec<MinI64> {
    values.iter().map(|&v| MinI64 { v }).collect()
}

#[test]
fn test_sparse_table_simple() {
    let data = wrap(&[2, 10, 1, 100]);
    let sparse_table = SparseTable::new(&data);
    assert_eq!(sparse_table.fold(0, 1).v, 2);
    assert_eq!(sparse_table.fold(0, 2).v, 2);
    assert_eq!(sparse_table.fold(0, 3).v, 1);
    assert_eq!(sparse_table.fold(0, 4).v, 1);
    assert_eq!(sparse_table.fold(1, 2).v, 10);
    assert_eq!(sparse_table.fold(1, 3).v, 1);
    assert_eq!(sparse_table.fold(1, 4).v, 1);
    assert_eq!(sparse_table.fold(2, 3).v, 1);
    assert_eq!(sparse_table.fold(2, 4).v, 1);
    assert_eq!(sparse_table.fold(3, 4).v, 100);
}

#[test]
fn test_sparse_table_random() {
    let mut rng = rand::thread_rng();
    let mut data = (0..1000).collect::<Vec<i64>>();
    data.shuffle(&mut rng);
    let sparse_table = SparseTable::new(&wrap(&data));
    for _ in 0..100 {
        let left = rng.gen_range(0..1000 - 1);
        let right = rng.gen_range(left + 1..1000);
        let actual = sparse_table.fold(left, right).v;
        let expected = *data[left..right].iter().min().unwrap();
        assert_eq!(actual, expected);
    }
}

#[test]
fn test_sparse_table_single_element() {
    let data = wrap(&[7]);
    let sparse_table = SparseTable::new(&data);
    assert_eq!(sparse_table.fold(0, 1).v, 7);
}

#[test]
fn test_sparse_table_equal_keys() {
    let data = wrap(&[5, 5, 5, 5, 5]);
    let sparse_table = SparseTable::new(&data);
    for l in 0..5 {
        for r in (l + 1)..=5 {
            assert_eq!(sparse_table.fold(l, r).v, 5);
        }
    }
}
