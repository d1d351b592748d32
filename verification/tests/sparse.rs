use lightmapper::glim::seams::{Row, SparseMat};

#[test]
fn empty_row_reads_zero() {
    let r: Row<f32> = Row::new(0.0);
    assert_eq!(r.get(0), 0.0);
    assert_eq!(r.get(12345), 0.0);
    assert_eq!(r.size, 0);
}

#[test]
fn row_read_after_write() {
    let mut r: Row<f32> = Row::new(0.0);
    r.set(7, 1.5);
    r.set(3, 2.5);
    r.set(11, -1.0);
    assert_eq!(r.get(7), 1.5);
    assert_eq!(r.get(3), 2.5);
    assert_eq!(r.get(11), -1.0);
    assert_eq!(r.get(4), 0.0);
    r.set(7, 9.0);
    assert_eq!(r.get(7), 9.0);
    assert_eq!(r.get(3), 2.5);
    assert_eq!(r.size, 3);
    assert_eq!(&r.indices[..3], &[3, 7, 11]);
}

#[test]
fn row_grows_past_its_first_capacity() {
    let mut r: Row<u64> = Row::new(0);
    for c in (0..40).rev() {
        r.set(c * 2, c as u64 + 100);
    }
    assert_eq!(r.size, 40);
    assert_eq!(r.capacity, 54);
    for c in 0..40 {
        assert_eq!(r.get(c * 2), c as u64 + 100);
        assert_eq!(r.get(c * 2 + 1), 0);
    }
    for i in 1..40 {
        assert!(r.indices[i - 1] < r.indices[i]);
    }
}

#[test]
fn row_column_zero() {
    let mut r: Row<i32> = Row::new(-1);
    r.set(5, 50);
    r.set(0, 10);
    assert_eq!(r.get(0), 10);
    assert_eq!(r.get(5), 50);
    assert_eq!(r.get(1), -1);
}

#[test]
fn sparse_matrix_read_after_write() {
    let mut m: SparseMat<f32> = SparseMat::new(3, 3, 0.0);
    m.set(0, 2, 4.0);
    m.set(2, 0, -4.0);
    let v = m.get(0, 2);
    m.set(0, 2, v + 1.0);
    assert_eq!(m.get(0, 2), 5.0);
    assert_eq!(m.get(2, 0), -4.0);
    assert_eq!(m.get(1, 1), 0.0);
    assert_eq!(m.num_rows, 3);
}

#[test]
fn row_grows_to_sixteen_then_by_half() {
    let mut r: Row<f32> = Row::new(0.0);
    r.set(3, 1.0);
    assert_eq!(r.capacity, 16);
    r.set(3, 2.0);
    assert_eq!((r.size, r.capacity), (1, 16));
    for c in 0..16 {
        r.set(100 + c, c as f32);
    }
    assert_eq!((r.size, r.capacity), (17, 24));
    assert_eq!(r.get(3), 2.0);
    assert_eq!(r.get(115), 15.0);
}
