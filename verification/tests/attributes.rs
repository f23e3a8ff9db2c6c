use mjx_sml::arena::attributes::{iter, set_attribute, value};

fn names_and_values(run: &[u8]) -> Vec<(String, String)> {
    let mut scan = iter(run);
    let mut found = Vec::new();
    while let Some(attribute) = scan.next() {
        found.push((
            String::from_utf8_lossy(attribute.name).into_owned(),
            String::from_utf8_lossy(attribute.value).into_owned(),
        ));
    }
    found
}

fn rewritten(run: &[u8], name: &str, value: Option<&[u8]>) -> String {
    let mut out = Vec::new();
    set_attribute(run, name, value, &mut out);
    String::from_utf8(out).expect("the run stays UTF-8")
}

#[test]
fn reads_order_prefixes_and_both_quote_characters() {
    let run = br#" r="A1" s='3' x14ac:dyDescent="0.25""#;
    assert_eq!(
        names_and_values(run),
        vec![
            ("r".to_owned(), "A1".to_owned()),
            ("s".to_owned(), "3".to_owned()),
            ("x14ac:dyDescent".to_owned(), "0.25".to_owned()),
        ]
    );
    assert_eq!(value(run, "s"), Some(&b"3"[..]));
    assert_eq!(value(run, "t"), None);
}

#[test]
fn a_value_may_carry_the_other_quote_and_a_bare_angle_bracket() {
    // `>` is legal unescaped inside an attribute value, and a single-quoted value may hold `"`.
    let run = br#" note='a > b "c"' r="A1""#;
    assert_eq!(
        names_and_values(run),
        vec![
            ("note".to_owned(), r#"a > b "c""#.to_owned()),
            ("r".to_owned(), "A1".to_owned()),
        ]
    );
}

#[test]
fn setting_an_attribute_leaves_every_other_byte_alone() {
    let run = br#" r="A1"  s='3' x14ac:dyDescent="0.25""#;
    assert_eq!(
        rewritten(run, "s", Some(b"7")),
        r#" r="A1"  s='7' x14ac:dyDescent="0.25""#,
        "the double space, the single quotes and the unmodelled attribute all survive"
    );
}

#[test]
fn setting_an_absent_attribute_appends_it_and_touches_nothing_else() {
    let run = br#" r="A1""#;
    assert_eq!(rewritten(run, "t", Some(b"s")), r#" r="A1" t="s""#);
    assert_eq!(
        rewritten(b"", "r", Some(b"B2")),
        r#" r="B2""#,
        "an element with no attributes gains exactly one"
    );
}

#[test]
fn removing_an_attribute_takes_its_whitespace_with_it() {
    let run = br#" r="A1" s="3" t="s""#;
    assert_eq!(rewritten(run, "s", None), r#" r="A1" t="s""#);
    assert_eq!(rewritten(run, "r", None), r#" s="3" t="s""#);
    assert_eq!(rewritten(run, "t", None), r#" r="A1" s="3""#);
    assert_eq!(
        rewritten(run, "missing", None),
        r#" r="A1" s="3" t="s""#,
        "removing what is not there changes nothing"
    );
}

#[test]
fn a_run_that_is_not_well_formed_stops_rather_than_guessing() {
    assert_eq!(names_and_values(b" r"), Vec::new(), "no `=`");
    assert_eq!(names_and_values(b" r="), Vec::new(), "no value");
    assert_eq!(names_and_values(b" r=A1"), Vec::new(), "unquoted value");
    assert_eq!(
        names_and_values(br#" r="A1"#),
        Vec::new(),
        "unterminated value"
    );
    assert_eq!(
        names_and_values(br#" r="A1" s"#),
        vec![("r".to_owned(), "A1".to_owned())],
        "what was understood is kept; what was not stops the scan"
    );
}

#[test]
fn a_duplicated_attribute_is_rewritten_once_and_the_copy_is_dropped() {
    // Not well-formed XML, but the rewriter must still produce one attribute rather than two
    // disagreeing ones.
    let run = br#" s="1" s="2""#;
    assert_eq!(rewritten(run, "s", Some(b"9")), r#" s="9""#);
}

#[test]
fn an_attribute_extent_covers_its_name_through_its_closing_quote() {
    let run = br#" r="A1"  s='3'"#;
    let mut scan = iter(run);
    let first = scan.next().expect("r");
    assert_eq!(first.extent, 1..7);
    assert_eq!(first.value_extent, 4..6);
    let second = scan.next().expect("s");
    assert_eq!(second.extent, 9..14);
    assert!(scan.next().is_none());
}

#[test]
fn a_value_set_is_read_back_and_the_others_are_kept() {
    let run = br#" r="A1" s='3' x14ac:dyDescent="0.25""#;
    let mut out = Vec::new();
    set_attribute(run, "t", Some(b"inlineStr"), &mut out);
    assert_eq!(value(&out, "t"), Some(&b"inlineStr"[..]));
    assert_eq!(value(&out, "r"), Some(&b"A1"[..]));
    assert_eq!(value(&out, "s"), Some(&b"3"[..]));
    assert_eq!(value(&out, "x14ac:dyDescent"), Some(&b"0.25"[..]));
}

#[test]
fn an_attribute_the_run_lacks_is_appended_and_removing_it_changes_nothing() {
    let run = br#" r="3" ht='9'"#;
    assert_eq!(rewritten(run, "spans", Some(b"1:2")), r#" r="3" ht='9' spans="1:2""#);
    assert_eq!(rewritten(run, "spans", None), r#" r="3" ht='9'"#);
    let written = rewritten(run, "spans", Some(b"1:2"));
    assert_eq!(value(written.as_bytes(), "spans"), Some(&b"1:2"[..]));
    assert_eq!(
        names_and_values(written.as_bytes()),
        vec![
            ("r".to_owned(), "3".to_owned()),
            ("ht".to_owned(), "9".to_owned()),
            ("spans".to_owned(), "1:2".to_owned()),
        ]
    );
}
