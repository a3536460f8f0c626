use mpicd::datatype::{ManualPack, MessageCount};
use mpicd::jagged::ComplexVec;

#[test]
fn complex_vec_new_shapes() {
    let cv = ComplexVec::new(7, 3);
    assert_eq!(cv.0, vec![vec![0, 1, 2], vec![0, 1, 2], vec![0]]);
    assert_eq!(cv.count(), 3);
    let cv = ComplexVec::new(6, 3);
    assert_eq!(cv.0, vec![vec![0, 1, 2], vec![0, 1, 2]]);
    let cv = ComplexVec::new(0, 4);
    assert_eq!(cv.0, Vec::<Vec<i32>>::new());
}

#[test]
fn complex_vec_update_reaches_total() {
    let mut cv = ComplexVec::new(4, 3);
    cv.update(10, 3);
    let total: usize = cv.0.iter().map(|r| r.len()).sum();
    assert_eq!(total, 10);
    assert!(cv.0.iter().all(|r| r.len() <= 3));

    // Shrinking below one sub-vector collapses to a single short row.
    let mut cv = ComplexVec::new(9, 3);
    cv.update(2, 3);
    assert_eq!(cv.0, vec![vec![0, 1]]);
}

#[test]
fn complex_vec_pack_flattens_in_order() {
    let cv = ComplexVec(vec![vec![10, 11, 12], vec![20], vec![30, 31]]);
    assert_eq!(cv.pack(), vec![10, 11, 12, 20, 30, 31]);
}

#[test]
fn complex_vec_unpack_from_keeps_shape() {
    let mut cv = ComplexVec(vec![vec![0, 0], vec![0], vec![0, 0, 0]]);
    cv.unpack_from(&[1, 2, 3, 4, 5, 6]);
    assert_eq!(cv.0, vec![vec![1, 2], vec![3], vec![4, 5, 6]]);
}

#[test]
fn manual_pack_is_big_endian() {
    let cv = ComplexVec(vec![vec![1], vec![-2]]);
    assert_eq!(cv.packed_size(), 2);
    let bytes = cv.manual_pack();
    assert_eq!(bytes, vec![0, 0, 0, 1, 0xff, 0xff, 0xff, 0xfe]);
}

#[test]
fn manual_pack_unpack_inverse() {
    // Packing and unpacking into a fresh destination of the same shape gives
    // back the source, element for element.
    let src = ComplexVec(vec![vec![10, -11, 12], vec![], vec![i32::MIN, i32::MAX]]);
    let bytes = src.manual_pack();
    assert_eq!(bytes.len(), 4 * 5);
    let mut dst = ComplexVec(vec![vec![0, 0, 0], vec![], vec![0, 0]]);
    dst.manual_unpack(&bytes);
    assert_eq!(dst.0, src.0);
}

#[test]
fn manual_unpack_ignores_trailing_bytes() {
    let mut dst = ComplexVec(vec![vec![0]]);
    dst.manual_unpack(&[0, 0, 0, 5, 9, 9, 9, 9]);
    assert_eq!(dst.0, vec![vec![5]]);
}
