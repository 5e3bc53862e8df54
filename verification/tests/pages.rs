use capdag_orchestrator::pages::parse_index_range;

#[test]
fn test0060_index_range_grammar() {
    assert_eq!(parse_index_range(None, 3).unwrap(), vec![0, 1, 2]);
    assert_eq!(parse_index_range(Some(""), 3).unwrap(), vec![0, 1, 2]);
    assert_eq!(parse_index_range(Some("2"), 5).unwrap(), vec![1]);
    assert_eq!(parse_index_range(Some("2-4"), 5).unwrap(), vec![1, 2, 3]);
    assert_eq!(parse_index_range(Some("3-"), 5).unwrap(), vec![2, 3, 4]);
    assert_eq!(
        parse_index_range(Some("1,3,5-7"), 10).unwrap(),
        vec![0, 2, 4, 5, 6]
    );
    // Written order is preserved; duplicates keep first occurrence.
    assert_eq!(
        parse_index_range(Some("5,1,3,1-2"), 10).unwrap(),
        vec![4, 0, 2, 1]
    );
}

#[test]
fn test0061_index_range_clamps_past_end() {
    assert_eq!(
        parse_index_range(Some("1-100"), 10).unwrap(),
        (0..10).collect::<Vec<_>>()
    );
    assert_eq!(parse_index_range(Some("8-100"), 10).unwrap(), vec![7, 8, 9]);
}

#[test]
fn test0062_index_range_hard_errors() {
    // Starts past the end of the document.
    let err = parse_index_range(Some("11-20"), 10).unwrap_err();
    assert!(err.contains("starts at page 11"), "got: {err}");
    assert!(err.contains("10 pages"), "got: {err}");
    // 0 is not a page.
    assert!(parse_index_range(Some("0-3"), 10).is_err());
    // Backwards.
    assert!(parse_index_range(Some("5-2"), 10).is_err());
    // Garbage.
    assert!(parse_index_range(Some("abc"), 10).is_err());
    assert!(parse_index_range(Some("1,,3"), 10).is_err());
    // Any selection from an empty document.
    assert!(parse_index_range(Some("1"), 0).is_err());
}

#[test]
fn white_space_around_segments_is_ignored() {
    assert_eq!(parse_index_range(Some(" 2 , 4 "), 5).unwrap(), vec![1, 3]);
}

#[test]
fn a_selection_lists_no_page_twice() {
    let pages = parse_index_range(Some("3,1-5,2-4"), 5).unwrap();
    assert_eq!(pages, vec![2, 0, 1, 3, 4]);
}

#[test]
fn a_longer_document_keeps_what_was_selected() {
    for spec in ["5,1,3,1-2", "3-", "2-100", ""] {
        let short = parse_index_range(Some(spec), 6).unwrap();
        let long = parse_index_range(Some(spec), 9).unwrap();
        let kept: Vec<usize> = long.into_iter().filter(|i| *i < 6).collect();
        assert_eq!(kept, short, "{spec}");
    }
}
