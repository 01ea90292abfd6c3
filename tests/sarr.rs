use ir_algorithms::sarr::SuffixArray;

#[test]
fn test_contains() {
    let example = "bananabread";
    let sarr = SuffixArray::new(example.as_bytes());

    // Check all substrings
    for i in 0..example.len() + 1 {
        for j in i + 1..example.len() + 1 {
            assert!(sarr.contains(example[i..j].as_bytes()));
        }
    }

    // Things that should not be there
    assert!(!sarr.contains("x".as_bytes()));
    assert!(!sarr.contains("breads".as_bytes()));
    assert!(!sarr.contains("bn".as_bytes()));
}

#[test]
fn test_find() {
    let sarr = SuffixArray::new("bananabread".as_bytes());
    let positions = sarr.find("a".as_bytes());
    assert_eq!(positions, &[5, 9, 3, 1]);

    let positions = sarr.find("na".as_bytes());
    assert_eq!(positions, &[4, 2]);

    let positions = sarr.find("foobar".as_bytes());
    assert_eq!(positions, &[]);

    let positions = sarr.find("".as_bytes());
    assert_eq!(positions, &[5, 9, 3, 1, 0, 6, 10, 8, 4, 2, 7]);
}

#[test]
fn positions_follow_sorted_suffixes() {
    let text = "mississippi".as_bytes();
    let sarr = SuffixArray::new(text);
    let mut expected: Vec<usize> = (0..text.len()).collect();
    expected.sort_by(|&a, &b| text[a..].cmp(&text[b..]));
    assert_eq!(sarr.positions(), expected.as_slice());
    assert_eq!(sarr.data(), text);
    assert_eq!(sarr.find("ssi".as_bytes()), &[5, 2]);
    assert!(sarr.contains("ppi".as_bytes()));
    assert!(!sarr.contains("ppii".as_bytes()));
}

#[test]
fn empty_text() {
    let sarr = SuffixArray::new(&[]);
    assert!(sarr.positions().is_empty());
    assert!(!sarr.contains(&[]));
    assert!(!sarr.contains(&[1]));
    assert!(sarr.find(&[]).is_empty());
}
