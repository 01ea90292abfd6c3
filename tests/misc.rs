use ir_algorithms::filters::{PTBStopwordFilter, StopwordFilter};
use ir_algorithms::index::{posting_from_ref, posting_from_vec};
use ir_algorithms::numberer::Numberer;
use ir_algorithms::text::reverse;
use ir_algorithms::wildcard::{plan_query, split_wildcard, wildcard_fits, QueryPlan};

#[test]
fn numberer_numbers_in_order_of_first_addition() {
    let mut n = Numberer::new(1);
    assert_eq!(n.add(40), 1);
    assert_eq!(n.add(7), 2);
    assert_eq!(n.add(40), 1);
    assert_eq!(n.add(9), 3);
    assert_eq!(n.number(&7), Some(2));
    assert_eq!(n.number(&8), None);
    assert_eq!(n.value(0), None);
    assert_eq!(n.value(1), Some(&40));
    assert_eq!(n.value(2), Some(&7));
    assert_eq!(n.value(3), Some(&9));
    assert_eq!(n.value(4), None);
}

#[test]
fn ptb_stopwords() {
    let f = PTBStopwordFilter;
    assert!(f.is_stopword("DT", "the"));
    assert!(f.is_stopword("IN", "of"));
    assert!(!f.is_stopword("NN", "house"));
    assert!(!f.is_stopword("NNS", "houses"));
    assert!(!f.is_stopword("CD", "three"));
    assert!(f.is_stopword("VBZ", "be"));
    assert!(f.is_stopword("VBP", "have"));
    assert!(!f.is_stopword("VBD", "walked"));
    assert!(f.is_stopword("C", "x"));
}

#[test]
fn reversing_text() {
    assert_eq!(reverse("abc"), "cba");
    assert_eq!(reverse(""), "");
    assert_eq!(reverse("héllo"), "olléh");
}

#[test]
fn posting_intersections() {
    let a = posting_from_ref(&[1, 2, 3, 4, 5, 6, 7, 8, 9, 10, 11, 12, 13, 14, 15, 16, 17, 18]);
    let b = posting_from_vec(vec![4, 17]);
    let i = a.intersect(&b);
    assert_eq!(i.len(), 2);
    assert_eq!(i.iter().copied().collect::<Vec<u32>>(), vec![4, 17]);
    let c = posting_from_vec(vec![2, 3, 5, 7, 11, 13, 17, 19]);
    let j = a.intersect(&c);
    assert_eq!(j.iter().copied().collect::<Vec<u32>>(), vec![2, 3, 5, 7, 11, 13, 17]);
    assert_eq!(c.intersect(&a).len(), 7);
}

#[test]
fn wildcard_queries_split_and_fit() {
    assert_eq!(split_wildcard("ab*cd"), Some(("ab".to_string(), "cd".to_string())));
    assert_eq!(split_wildcard("*x"), Some((String::new(), "x".to_string())));
    assert_eq!(split_wildcard("x*"), Some(("x".to_string(), String::new())));
    assert_eq!(split_wildcard("abc"), None);
    assert_eq!(split_wildcard("a*b*"), None);
    assert!(wildcard_fits("abcd", "ab", "cd"));
    assert!(!wildcard_fits("aba", "ab", "ba"));
    assert!(wildcard_fits("abba", "ab", "ba"));
    assert!(!wildcard_fits("abce", "ab", "cd"));
}

#[test]
fn query_plans() {
    assert!(matches!(plan_query("ab*"), Some(QueryPlan::Prefix(ref p)) if p == "ab"));
    assert!(matches!(plan_query("*"), Some(QueryPlan::Prefix(ref p)) if p.is_empty()));
    assert!(matches!(plan_query("*ing"), Some(QueryPlan::Suffix(ref s)) if s == "gni"));
    assert!(matches!(plan_query("a*z"), Some(QueryPlan::Infix(ref p, ref s)) if p == "a" && s == "z"));
    assert!(plan_query("a*b*c").is_none());
    assert!(plan_query("abc").is_none());
}
