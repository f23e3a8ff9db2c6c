use mjx_sml::arena::text::{TextArena, TextSpan};
use mjx_sml::error::SmlError;

fn arena(source: &[u8]) -> TextArena {
    TextArena::new(Some(source.to_vec())).expect("a small buffer is addressable")
}

#[test]
fn a_source_span_and_an_edited_span_live_in_one_address_space() {
    let mut arena = arena(b"<c r=\"A1\"><v>12</v></c>");
    let from_source = arena.span_in_source(13, 15);
    assert_eq!(arena.bytes(from_source), b"12");

    let authored = arena.store(b"99").expect("the arena has room");
    assert_eq!(arena.bytes(authored), b"99");
    assert!(
        authored.start() >= 23,
        "an authored span addresses past the source, not into it: {authored:?}"
    );
    assert_ne!(arena.bytes(from_source), arena.bytes(authored));
}

#[test]
fn an_untouched_arena_owns_no_bytes() {
    let arena = arena(b"<sheetData/>");
    assert_eq!(
        arena.edited_bytes(),
        0,
        "a store that has not been edited must hold no bytes of its own"
    );
}

#[test]
fn absent_and_empty_are_different_things() {
    let arena = arena(b"<v></v>");
    assert!(TextSpan::none().is_none());
    assert_eq!(arena.bytes(TextSpan::none()), b"");
    let empty = arena.span_in_source(3, 3);
    assert!(!empty.is_none(), "`<v></v>` is present and empty");
    assert_eq!(empty.length(), 0);
    assert_eq!(arena.bytes(empty), b"");
}

#[test]
fn a_span_that_does_not_fit_resolves_to_nothing_rather_than_panicking() {
    let arena = arena(b"<v>1</v>");
    assert_eq!(arena.bytes(TextSpan::new(3, 10_000)), b"");
    assert_eq!(arena.bytes(TextSpan::new(9_999, 1)), b"");
    assert_eq!(
        arena.span_in_source(5, 2),
        TextSpan::none(),
        "an inverted range is not a range"
    );
    assert_eq!(
        arena.span_in_source(0, 9_999),
        TextSpan::none(),
        "a range past the buffer is not a range"
    );
}

#[test]
fn a_span_over_authored_bytes_is_addressable_and_a_span_past_the_end_is_not() {
    let mut arena = arena(b"<si><t>a</t></si>");
    let authored = arena
        .store(b"<si><t>b</t></si>")
        .expect("the arena has room");
    let over = arena.span_over(authored.start(), authored.end());
    assert_eq!(arena.bytes(over), b"<si><t>b</t></si>");
    assert_eq!(
        arena.span_in_source(authored.start(), authored.end()),
        TextSpan::none(),
        "the source-only constructor must refuse an authored range, which is why both exist"
    );
    assert_eq!(arena.span_over(0, 9_999), TextSpan::none());
    assert_eq!(arena.span_over(5, 2), TextSpan::none());
}

#[test]
fn spans_are_eight_bytes() {
    assert_eq!(
        core::mem::size_of::<TextSpan>(),
        8,
        "a cell record holds three of these; their size is the design"
    );
}

#[test]
fn an_arena_with_no_source_addresses_only_what_it_stored() {
    let mut arena = TextArena::new(None).expect("nothing is always addressable");
    assert_eq!(arena.total_length(), 0);
    let span = arena.store(b"abc").expect("room");
    assert_eq!(span.start(), 0);
    assert_eq!(span.end(), 3);
    assert_eq!(arena.bytes(span), b"abc");
    assert_eq!(arena.edited_bytes(), 3);
    assert_eq!(arena.total_length(), 3);
}

#[test]
fn a_stored_span_reads_back_what_was_stored_and_leaves_earlier_spans_alone() {
    let mut arena = arena(b"<v>1</v>");
    let first = arena.store(b"alpha").expect("room");
    let second = arena.store(b"beta").expect("room");
    assert_eq!(arena.bytes(first), b"alpha");
    assert_eq!(arena.bytes(second), b"beta");
    assert_eq!(second.start(), first.end());
    assert_eq!(arena.bytes(arena.span_in_source(3, 4)), b"1");
}

#[test]
fn the_too_large_error_names_the_bytes_asked_for() {
    let error = SmlError::SheetDataTooLarge { bytes: 5 };
    assert_eq!(error, SmlError::SheetDataTooLarge { bytes: 5 });
}
