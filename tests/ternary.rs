use ir_algorithms::{TernaryTree, TrieContains, TrieInsert, TriePrefixIter, TrieType};
use rand::rngs::StdRng;
use rand::SeedableRng;

fn tree() -> TernaryTree {
    TernaryTree::new(StdRng::seed_from_u64(7))
}

fn listed(t: &TernaryTree, prefix: &str) -> Vec<String> {
    let mut it = t.prefix_iter(prefix);
    let mut out = Vec::new();
    while let Some(w) = it.next() {
        out.push(w);
    }
    out
}

#[test]
fn scenario_a_ab_b() {
    let mut t = tree();
    for w in ["a", "ab", "b"] {
        t.insert(w);
    }
    assert!(t.contains("a"));
    assert!(!t.contains("ac"));
    assert_eq!(listed(&t, "a"), vec!["a", "ab"]);
    assert_eq!(listed(&t, ""), vec!["a", "ab", "b"]);
}

#[test]
fn scenario_cat_cats_car() {
    let mut t = tree();
    for w in ["cat", "cats", "car"] {
        t.insert(w);
    }
    assert_eq!(listed(&t, "ca"), vec!["car", "cat", "cats"]);
}

#[test]
fn members_and_non_members() {
    let words = ["banana", "band", "bandana", "apple", "app", "zebra", "b"];
    let mut t = tree();
    for w in words {
        t.insert(w);
    }
    for w in words {
        assert!(t.contains(w), "{}", w);
    }
    for w in ["ban", "bananas", "ap", "appl", "zebr", "c", "bandanas", "a"] {
        assert!(!t.contains(w), "{}", w);
    }
}

#[test]
fn prefix_listing_is_the_sorted_matching_subset() {
    let words = [
        "tea", "ten", "to", "inn", "in", "i", "tend", "tenant", "a", "t", "zz", "te",
    ];
    let mut t = tree();
    for w in words {
        t.insert(w);
    }
    for p in ["", "t", "te", "ten", "i", "in", "x", "tenx", "z", "a"] {
        let mut expected: Vec<String> = words
            .iter()
            .filter(|w| w.starts_with(p))
            .map(|w| w.to_string())
            .collect();
        expected.sort();
        assert_eq!(listed(&t, p), expected, "prefix {:?}", p);
    }
}

#[test]
fn empty_prefix_lists_everything_ascending() {
    let words = ["delta", "alpha", "charlie", "bravo", "alp", "échelle", "zulu"];
    let mut t = tree();
    for w in words {
        t.insert(w);
    }
    let mut expected: Vec<String> = words.iter().map(|w| w.to_string()).collect();
    expected.sort();
    let got = listed(&t, "");
    assert_eq!(got, expected);
    for pair in got.windows(2) {
        assert!(pair[0] < pair[1]);
    }
}

#[test]
fn inserting_twice_changes_nothing() {
    let mut once = tree();
    let mut twice = tree();
    for w in ["one", "two", "three", "on"] {
        once.insert(w);
        twice.insert(w);
        twice.insert(w);
    }
    for p in ["", "o", "t", "th"] {
        assert_eq!(listed(&once, p), listed(&twice, p));
    }
    assert!(twice.contains("on"));
    assert_eq!(listed(&twice, "on"), vec!["on", "one"]);
}

#[test]
fn empty_tree_lists_nothing() {
    let t = tree();
    assert!(listed(&t, "").is_empty());
    assert!(listed(&t, "a").is_empty());
    assert!(!t.contains("a"));
}

#[test]
fn many_words_stay_consistent() {
    let mut t = TernaryTree::new_with_prio(StdRng::seed_from_u64(99));
    let mut words = Vec::new();
    for i in 0..300u32 {
        let w = format!("w{}", (i * 7919) % 1000);
        t.insert(&w);
        words.push(w);
    }
    words.sort();
    words.dedup();
    assert_eq!(listed(&t, ""), words);
    assert!(t.contains("w0"));
    assert!(!t.contains("w"));
}

#[test]
fn trait_calls_reach_the_tree() {
    let mut t = tree();
    TrieInsert::insert(&mut t, "abc");
    assert!(TrieContains::contains(&t, "abc"));
    let mut it = TriePrefixIter::prefix_iter(&t, "ab");
    assert_eq!(it.next(), Some("abc".to_string()));
    assert_eq!(it.next(), None);
}

#[test]
fn trie_type_names() {
    assert_eq!(TrieType::from_str("simple"), Some(TrieType::Simple));
    assert_eq!(TrieType::from_str("array"), Some(TrieType::Array));
    assert_eq!(TrieType::from_str("ternary"), Some(TrieType::Ternary));
    assert_eq!(TrieType::from_str("Ternary"), None);
    assert_eq!(TrieType::from_str(""), None);
}

#[test]
fn prefix_iter_of_absent_prefix_is_empty() {
    let mut t = tree();
    for w in ["ab", "abc"] {
        t.insert(w);
    }
    assert!(listed(&t, "abd").is_empty());
    assert!(listed(&t, "abcd").is_empty());
    assert_eq!(listed(&t, "abc"), vec!["abc"]);
}
