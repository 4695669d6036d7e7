//! The COO staging matrix: accumulation, sorting, and densification.

use pixie::sparse::CooMatrix;

fn bits(x: f64) -> u64 {
    x.to_bits()
}

#[test]
fn coo_accumulates_repeated_cells() {
    let mut m = CooMatrix::new(2, 2);
    m.add(0, 0, bits(1.5));
    m.add(0, 0, bits(2.5));
    let d = m.to_dense();
    assert_eq!(d.get(0, 0), bits(4.0));
    assert_eq!(d.get(0, 1), bits(0.0));
    assert_eq!(d.get(1, 1), bits(0.0));
}

#[test]
fn coo_keeps_entries_sorted() {
    let mut m = CooMatrix::new(3, 3);
    m.add(2, 1, bits(1.0));
    m.add(0, 2, bits(2.0));
    m.add(2, 0, bits(3.0));
    m.add(0, 1, bits(4.0));
    let entries = m.iter();
    assert_eq!(entries.len(), 4);
    for w in entries.windows(2) {
        let earlier = (w[0].row, w[0].col);
        let later = (w[1].row, w[1].col);
        assert!(earlier < later);
    }
}

#[test]
fn coo_cell_is_independent_of_insertion_order() {
    let mut m1 = CooMatrix::new(2, 2);
    m1.add(0, 0, bits(1.0));
    m1.add(1, 1, bits(10.0));
    m1.add(0, 0, bits(2.0));
    m1.add(0, 1, bits(20.0));
    m1.add(0, 0, bits(4.0));

    let mut m2 = CooMatrix::new(2, 2);
    m2.add(0, 0, bits(1.0));
    m2.add(0, 0, bits(2.0));
    m2.add(0, 0, bits(4.0));
    m2.add(0, 1, bits(20.0));
    m2.add(1, 1, bits(10.0));

    let d1 = m1.to_dense();
    let d2 = m2.to_dense();
    for r in 0..2 {
        for c in 0..2 {
            assert_eq!(d1.get(r, c), d2.get(r, c));
        }
    }
    assert_eq!(d1.get(0, 0), bits(7.0));
}

#[test]
fn coo_to_dense_shape() {
    let m = CooMatrix::new(2, 3);
    let d = m.to_dense();
    assert_eq!(d.m.num_rows, 2);
    assert_eq!(d.m.num_col, 3);
    for r in 0..2 {
        for c in 0..3 {
            assert_eq!(d.get(r, c), 0u64);
        }
    }
}

#[test]
fn coo_duplicate_copies_cells() {
    let mut m = CooMatrix::new(2, 2);
    m.add(1, 0, bits(3.0));
    let copy = m.duplicate();
    m.add(1, 0, bits(1.0));
    assert_eq!(copy.to_dense().get(1, 0), bits(3.0));
    assert_eq!(m.to_dense().get(1, 0), bits(4.0));
}
