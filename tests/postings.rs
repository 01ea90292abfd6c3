use ir_algorithms::postings::{is_sorted_uniq, PostingList};

fn pl(v: &[u32]) -> PostingList {
    PostingList::from_sorted(v.to_vec())
}

#[test]
fn set_operations_on_postings() {
    let a = pl(&[1, 3, 5, 7, 9, 11]);
    let b = pl(&[2, 3, 4, 9, 10, 11, 12]);
    assert_eq!(a.intersect(&b).docs(), &[3, 9, 11]);
    assert_eq!(a.intersect_naive(&b).docs(), &[3, 9, 11]);
    assert_eq!(a.intersect_binsearch(&b).docs(), &[3, 9, 11]);
    assert_eq!(b.intersect_binsearch(&a).docs(), &[3, 9, 11]);
    assert_eq!(a.union(&b).docs(), &[1, 2, 3, 4, 5, 7, 9, 10, 11, 12]);
    assert_eq!(a.difference(&b).docs(), &[1, 5, 7]);
    assert_eq!(a.difference_binsearch(&b).docs(), &[1, 5, 7]);
    assert_eq!(b.difference(&a).docs(), &[2, 4, 10, 12]);
    assert_eq!(b.difference_binsearch(&a).docs(), &[2, 4, 10, 12]);
}

#[test]
fn set_operations_with_empty_lists() {
    let a = pl(&[]);
    let b = pl(&[4, 8]);
    assert_eq!(a.intersect(&b).docs(), &[] as &[u32]);
    assert_eq!(a.union(&b).docs(), &[4, 8]);
    assert_eq!(b.difference(&a).docs(), &[4, 8]);
    assert_eq!(b.difference_binsearch(&a).docs(), &[4, 8]);
    assert_eq!(a.difference(&b).docs(), &[] as &[u32]);
}

#[test]
fn sorted_uniq_check() {
    assert!(is_sorted_uniq(&[]));
    assert!(is_sorted_uniq(&[1]));
    assert!(is_sorted_uniq(&[1, 2, 5]));
    assert!(!is_sorted_uniq(&[1, 1]));
    assert!(!is_sorted_uniq(&[3, 2]));
}
