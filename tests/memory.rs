use ir_algorithms::index::{InvertedIndex, InvertedIndexMut, TextReadError};
use ir_algorithms::memory::MemoryIndex;

fn docs_of(index: &MemoryIndex, term: &str) -> Option<Vec<u32>> {
    index.posting(term).map(|p| p.iter().copied().collect())
}

#[test]
fn terms_collect_sorted_unique_documents() {
    let mut index = MemoryIndex::new();
    index.add_term("cat", 5);
    index.add_term("cat", 2);
    index.add_term("dog", 3);
    index.add_term("cat", 9);
    index.add_term("cat", 5);
    assert_eq!(docs_of(&index, "cat"), Some(vec![2, 5, 9]));
    assert_eq!(docs_of(&index, "dog"), Some(vec![3]));
    assert_eq!(docs_of(&index, "cow"), None);
    assert_eq!(index.len(), 2);
}

#[test]
fn postings_lists_replace_earlier_ones() {
    let mut index = MemoryIndex::new();
    index.add_postings_list("a", vec![1, 2, 3]);
    index.add_postings_list("b", vec![7]);
    index.add_postings_list("a", vec![4]);
    assert_eq!(docs_of(&index, "a"), Some(vec![4]));
    assert_eq!(InvertedIndex::len(&index), 2);
    InvertedIndexMut::add_term(&mut index, "b", 1);
    assert_eq!(docs_of(&index, "b"), Some(vec![1, 7]));
}

#[test]
fn iterating_over_entries() {
    let mut index = MemoryIndex::new();
    index.add_postings_list("x", vec![1]);
    index.add_postings_list("y", vec![2, 3]);
    let mut it = index.iter();
    let (t, p) = it.next().unwrap();
    assert_eq!((t, p.len()), ("x", 1));
    let (t, p) = it.next().unwrap();
    assert_eq!(t, "y");
    assert_eq!(p.iter().copied().collect::<Vec<u32>>(), vec![2, 3]);
    assert!(it.next().is_none());

    let mut owned = index.into_iter();
    assert_eq!(owned.next().map(|(t, _)| t), Some("x".to_string()));
    assert_eq!(owned.next().map(|(t, p)| (t, p.len())), Some(("y".to_string(), 2)));
    assert!(owned.next().is_none());
}

#[test]
fn reading_and_writing_text() {
    let lines = vec!["apple 1 4 9".to_string(), "pear\t2".to_string(), "fig".to_string()];
    let index = match MemoryIndex::from_text(&lines) {
        Ok(index) => index,
        Err(e) => panic!("{:?}", e),
    };
    assert_eq!(docs_of(&index, "apple"), Some(vec![1, 4, 9]));
    assert_eq!(docs_of(&index, "pear"), Some(vec![2]));
    assert_eq!(docs_of(&index, "fig"), Some(vec![]));
    assert_eq!(index.to_text(), "apple\t1 4 9\npear\t2\nfig\t\n");
}

#[test]
fn reading_faulty_text() {
    let no_term = vec!["a 1".to_string(), "   ".to_string()];
    assert!(matches!(MemoryIndex::from_text(&no_term), Err(TextReadError::NoTerm)));
    let bad_doc = vec!["a 1 x".to_string()];
    assert!(matches!(MemoryIndex::from_text(&bad_doc), Err(TextReadError::Parse)));
    let unsorted = vec!["a 1".to_string(), "b 3 2".to_string()];
    match MemoryIndex::from_text(&unsorted) {
        Err(TextReadError::NotSortedOrUnique(line)) => assert_eq!(line, "b 3 2"),
        _ => panic!("expected an unsorted postings list"),
    }
    let repeated = vec!["b 2 2".to_string()];
    assert!(matches!(MemoryIndex::from_text(&repeated), Err(TextReadError::NotSortedOrUnique(_))));
}

#[test]
fn decimal_text_of_large_numbers() {
    let mut index = MemoryIndex::new();
    index.add_postings_list("z", vec![0, 10, 4294967295]);
    assert_eq!(index.to_text(), "z\t0 10 4294967295\n");
}
