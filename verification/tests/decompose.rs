use mjx_sml::arena::decompose::{attribute_run_of, decompose, qualified_name_of};

fn parts(markup: &str, qname: &str) -> Option<(String, String, bool)> {
    let parsed = decompose(markup.as_bytes(), qname.as_bytes())?;
    Some((
        markup[parsed.attribute_run].to_owned(),
        markup[parsed.inner].to_owned(),
        parsed.self_closing,
    ))
}

#[test]
fn an_attribute_run_is_readable_without_knowing_the_element_name() {
    assert_eq!(
        attribute_run_of(br#"<phoneticPr fontId="1" type="Hiragana"/>"#),
        Some(&br#" fontId="1" type="Hiragana""#[..])
    );
    assert_eq!(
        attribute_run_of(br#"<x:phoneticPr fontId="1"/>"#),
        Some(&br#" fontId="1""#[..]),
        "the prefix is not the caller's business here — that is the whole point"
    );
    assert_eq!(attribute_run_of(b"<t/>"), Some(&b""[..]));
    assert_eq!(attribute_run_of(b"<t>x</t>"), Some(&b""[..]));
    assert_eq!(
        attribute_run_of(br#"<c note="a>b"/>"#),
        Some(&br#" note="a>b""#[..]),
        "a `>` inside a quoted value does not end the tag"
    );
    assert_eq!(attribute_run_of(b"phoneticPr/>"), None);
    assert_eq!(
        attribute_run_of(b"<t"),
        None,
        "a start tag that never closes"
    );
}

#[test]
fn decompose_splits_a_start_tag_from_its_content() {
    assert_eq!(
        parts(r#"<c r="A1"><v>12</v></c>"#, "c"),
        Some((" r=\"A1\"".to_owned(), "<v>12</v>".to_owned(), false))
    );
    assert_eq!(
        parts(r#"<x:c r="A1"/>"#, "x:c"),
        Some((" r=\"A1\"".to_owned(), String::new(), true))
    );
    assert_eq!(
        parts("<c></c>", "c"),
        Some((String::new(), String::new(), false))
    );
}

#[test]
fn decompose_an_angle_bracket_inside_an_attribute_value_does_not_end_the_tag() {
    assert_eq!(
        parts(r#"<c note="a>b" r="A1">x</c>"#, "c"),
        Some((r#" note="a>b" r="A1""#.to_owned(), "x".to_owned(), false))
    );
}

#[test]
fn decompose_whitespace_an_end_tag_is_allowed_to_carry_is_not_content() {
    assert_eq!(
        parts("<v>12</v >", "v"),
        Some((String::new(), "12".to_owned(), false))
    );
    assert_eq!(
        parts("<v >12</v>", "v"),
        Some((" ".to_owned(), "12".to_owned(), false))
    );
}

#[test]
fn decompose_bytes_that_do_not_describe_this_element_are_refused() {
    assert_eq!(parts("<cc r=\"A1\"/>", "c"), None, "a longer name");
    assert_eq!(parts("<b/>", "c"), None, "a different name");
    assert_eq!(parts("c/>", "c"), None, "no opening angle bracket");
    assert_eq!(parts("<c><v>1</v></b>", "c"), None, "a mismatched end tag");
    assert_eq!(parts("<c/><c/>", "c"), None, "more than one element");
    assert_eq!(parts("<c>", "c"), None, "no end tag at all");
}

#[test]
fn read_splits_a_start_tag_from_its_content() {
    assert_eq!(
        parts(r#"<c r="A1"><v>12</v></c>"#, "c"),
        Some((" r=\"A1\"".to_owned(), "<v>12</v>".to_owned(), false))
    );
    assert_eq!(
        parts(r#"<x:c r="A1"/>"#, "x:c"),
        Some((" r=\"A1\"".to_owned(), String::new(), true))
    );
    assert_eq!(
        parts("<c></c>", "c"),
        Some((String::new(), String::new(), false))
    );
}

#[test]
fn read_an_angle_bracket_inside_an_attribute_value_does_not_end_the_tag() {
    assert_eq!(
        parts(r#"<c note="a>b" r="A1">x</c>"#, "c"),
        Some((r#" note="a>b" r="A1""#.to_owned(), "x".to_owned(), false))
    );
}

#[test]
fn read_whitespace_an_end_tag_is_allowed_to_carry_is_not_content() {
    assert_eq!(
        parts("<v>12</v >", "v"),
        Some((String::new(), "12".to_owned(), false))
    );
    assert_eq!(
        parts("<v >12</v>", "v"),
        Some((" ".to_owned(), "12".to_owned(), false))
    );
}

#[test]
fn read_bytes_that_do_not_describe_this_element_are_refused() {
    assert_eq!(parts("<cc r=\"A1\"/>", "c"), None, "a longer name");
    assert_eq!(parts("<b/>", "c"), None, "a different name");
    assert_eq!(parts("c/>", "c"), None, "no opening angle bracket");
    assert_eq!(parts("<c><v>1</v></b>", "c"), None, "a mismatched end tag");
    assert_eq!(parts("<c/><c/>", "c"), None, "more than one element");
    assert_eq!(parts("<c>", "c"), None, "no end tag at all");
}

#[test]
fn a_qualified_name_is_read_up_to_its_delimiter() {
    assert_eq!(qualified_name_of(br#"<x:c r="A1"/>"#), Some(&b"x:c"[..]));
    assert_eq!(qualified_name_of(b"<row>"), Some(&b"row"[..]));
    assert_eq!(qualified_name_of(b"row>"), None);
}
