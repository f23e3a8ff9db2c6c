use mjx_sml::address::{AddressError, Anchoring, CellReference, CellSpans};

#[test]
fn a_reference_reads_and_writes_its_text() {
    let reference = CellReference::parse("$AB$12").expect("a reference");
    assert_eq!(reference.column(), 27);
    assert_eq!(reference.row(), 11);
    assert_eq!(reference.column_anchoring(), Anchoring::Absolute);
    assert_eq!(reference.row_anchoring(), Anchoring::Absolute);
    assert_eq!(reference.text(), b"$AB$12".to_vec());
    assert_eq!(CellReference::parse("XFD1048576").expect("the last cell").column(), 16383);
}

#[test]
fn a_reference_outside_the_grid_or_misspelled_is_refused() {
    assert_eq!(CellReference::parse("XFE1"), Err(AddressError::Malformed));
    assert_eq!(CellReference::parse("A0"), Err(AddressError::Malformed));
    assert_eq!(CellReference::parse("A01"), Err(AddressError::Malformed));
    assert_eq!(CellReference::parse("a1"), Err(AddressError::Malformed));
    assert_eq!(CellReference::parse(""), Err(AddressError::Malformed));
    assert_eq!(
        CellReference::new(16384, 0, Anchoring::Relative, Anchoring::Relative),
        Err(AddressError::ColumnOutOfGrid)
    );
    assert_eq!(
        CellReference::new(0, 1048576, Anchoring::Relative, Anchoring::Relative),
        Err(AddressError::RowOutOfGrid)
    );
    assert!(CellReference::relative(16383, 1048575).is_some());
    assert!(CellReference::relative(16384, 0).is_none());
}

#[test]
fn a_spans_list_reads_and_writes_its_text() {
    let spans = CellSpans::parse("1:5 7:16384").expect("a list");
    assert_eq!(spans.ranges(), &[(1, 5), (7, 16384)]);
    assert_eq!(spans.to_text(), b"1:5 7:16384".to_vec());
    assert_eq!(CellSpans::new(vec![(2, 3)]).expect("one span").to_text(), b"2:3".to_vec());
}

#[test]
fn a_spans_list_that_is_not_one_is_refused() {
    assert_eq!(CellSpans::parse("").map(|s| s.to_text()), Err(AddressError::Malformed));
    assert_eq!(CellSpans::parse("1:2 ").map(|s| s.to_text()), Err(AddressError::Malformed));
    assert_eq!(CellSpans::parse("3:2").map(|s| s.to_text()), Err(AddressError::Malformed));
    assert_eq!(CellSpans::parse("1-2").map(|s| s.to_text()), Err(AddressError::Malformed));
    assert_eq!(
        CellSpans::parse("1:16385").map(|s| s.to_text()),
        Err(AddressError::ColumnOutOfGrid)
    );
    assert_eq!(CellSpans::new(Vec::new()).map(|s| s.to_text()), Err(AddressError::Malformed));
    assert_eq!(
        CellSpans::new(vec![(0, 1)]).map(|s| s.to_text()),
        Err(AddressError::ColumnOutOfGrid)
    );
}

#[test]
fn a_spans_lists_text_reads_back_as_the_list() {
    for ranges in [vec![(1u16, 1u16)], vec![(1, 5), (7, 16384)], vec![(3, 3), (4, 9), (12, 12)]] {
        let spans = CellSpans::new(ranges.clone()).expect("in the grid");
        let text = spans.to_text();
        let read = CellSpans::parse_bytes(&text).expect("its own text reads");
        assert_eq!(read.ranges(), &ranges[..]);
    }
}
