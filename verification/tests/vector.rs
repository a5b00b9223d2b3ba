use semantica::vector::{Dot, SizeMismatch};

#[test]
pub fn dot() {
    let a: Vec<i32> = vec![1, 2, 3];
    let b: Vec<i32> = vec![4, 5, 6];
    assert_eq!(a.dot(&b).unwrap(), 32);
}

#[test]
#[should_panic]
pub fn dot_panic() {
    let a: Vec<i32> = vec![1, 2, 3, 4];
    let b: Vec<i32> = vec![4, 5, 6];
    assert_eq!(a.dot(&b).unwrap(), 32);
}

#[test]
fn dot_size_mismatch() {
    let a: Vec<i32> = vec![1, 2, 3, 4];
    let b: Vec<i32> = vec![4, 5, 6];
    assert_eq!(a.dot(&b), Err(SizeMismatch));
    let c: Vec<i32> = vec![];
    assert_eq!(c.dot(&b), Err(SizeMismatch));
}

#[test]
fn dot_empty_and_negative() {
    let a: Vec<i32> = vec![];
    let b: Vec<i32> = vec![];
    assert_eq!(a.dot(&b).unwrap(), 0);

    let c: Vec<i32> = vec![-2, 7];
    let d: Vec<i32> = vec![3, -1];
    assert_eq!(c.dot(&d).unwrap(), -13);
}

#[test]
fn dot_extremes() {
    let a: Vec<i32> = vec![i32::MIN, i32::MAX];
    let b: Vec<i32> = vec![i32::MIN, i32::MAX];
    let expected: i128 = (i32::MIN as i128) * (i32::MIN as i128)
        + (i32::MAX as i128) * (i32::MAX as i128);
    assert_eq!(a.dot(&b).unwrap(), expected);
}

#[test]
fn size_mismatch_message() {
    let e = SizeMismatch;
    assert_eq!(e.message(), "Input Vecs were not the same size.");
}
