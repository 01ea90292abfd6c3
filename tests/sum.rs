use ir_algorithms::sum::{sum_slice, sum_slice_boxed};

#[test]
fn sum_slice_works() {
    let arr = &[1, 2, 3, 4, 5];
    assert_eq!(sum_slice(arr), 15);
}

#[test]
fn sum_slice_boxed_works() {
    let arr = &[Box::new(1), Box::new(2), Box::new(3), Box::new(4), Box::new(5)];
    assert_eq!(sum_slice_boxed(arr), 15);
}

#[test]
fn sum_of_nothing_and_negatives() {
    assert_eq!(sum_slice(&[]), 0);
    assert_eq!(sum_slice(&[-4, 10, -6]), 0);
    assert_eq!(sum_slice_boxed(&[Box::new(-3)]), -3);
}
