use ir_algorithms::docid::{doc_entry, parse_doc_line, split_doc_line, DocIdError, DocIdentifiers};

#[test]
fn lines_split_at_tabs() {
    assert_eq!(split_doc_line("12\tA title"), ("12".to_string(), Some("A title".to_string())));
    assert_eq!(split_doc_line("1\ta\tb"), ("1".to_string(), Some("a".to_string())));
    assert_eq!(split_doc_line("7"), ("7".to_string(), None));
    assert_eq!(split_doc_line(""), (String::new(), None));
}

#[test]
fn entries_and_their_errors() {
    assert!(matches!(doc_entry(None, Some("t".to_string())), Err(DocIdError::Parse)));
    assert!(matches!(doc_entry(None, None), Err(DocIdError::Parse)));
    assert!(matches!(doc_entry(Some(3), None), Err(DocIdError::NoTitle)));
    assert!(matches!(doc_entry(Some(3), Some("t".to_string())), Ok((3, ref t)) if t == "t"));
    assert!(matches!(parse_doc_line("42\tThe answer"), Ok((42, ref t)) if t == "The answer"));
    assert!(matches!(parse_doc_line("x\tTitle"), Err(DocIdError::Parse)));
    assert!(matches!(parse_doc_line("-1\tTitle"), Err(DocIdError::Parse)));
    assert!(matches!(parse_doc_line("5"), Err(DocIdError::NoTitle)));
}

#[test]
fn identifiers_from_lines() {
    let lines = vec!["1\tFirst".to_string(), "2\tSecond".to_string(), "1\tAgain".to_string()];
    let ids = match DocIdentifiers::from_buf_read(&lines) {
        Ok(ids) => ids,
        Err(e) => panic!("{:?}", e),
    };
    assert_eq!(ids.get(1), Some("Again"));
    assert_eq!(ids.get(2), Some("Second"));
    assert_eq!(ids.get(3), None);

    let bad = vec!["1\tFirst".to_string(), "oops".to_string(), "2".to_string()];
    assert!(matches!(DocIdentifiers::from_buf_read(&bad), Err(DocIdError::Parse)));
    let untitled = vec!["1\tFirst".to_string(), "2".to_string()];
    assert!(matches!(DocIdentifiers::from_buf_read(&untitled), Err(DocIdError::NoTitle)));
}
