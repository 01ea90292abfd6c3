use ir_algorithms::bubble::{bubble_sort, bubble_sort0};

#[test]
fn both_bubble_sorts_sort() {
    let cases: Vec<Vec<i64>> = vec![
        vec![],
        vec![1],
        vec![2, 1],
        vec![5, -1, 3, 3, 0, 9, -7],
        vec![1, 2, 3, 4],
        vec![4, 3, 2, 1],
    ];
    for case in cases {
        let mut expected = case.clone();
        expected.sort();
        let mut a = case.clone();
        bubble_sort0(&mut a);
        assert_eq!(a, expected);
        let mut b = case.clone();
        bubble_sort(&mut b);
        assert_eq!(b, expected);
    }
}
