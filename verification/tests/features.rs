use mjx_sml::escape::{escape_attribute, escape_text};
use mjx_sml::features::print::{HeaderFooterSection, HeaderFooterSlot};
use mjx_sml::features::table_specs::TableStyleReferenceSpec;

#[test]
fn each_section_has_its_letter() {
    assert_eq!(HeaderFooterSection::Left.code(), 'L');
    assert_eq!(HeaderFooterSection::Center.code(), 'C');
    assert_eq!(HeaderFooterSection::Right.code(), 'R');
}

#[test]
fn each_slot_names_its_element() {
    assert_eq!(HeaderFooterSlot::OddHeader.wire_local(), "oddHeader");
    assert_eq!(HeaderFooterSlot::OddFooter.wire_local(), "oddFooter");
    assert_eq!(HeaderFooterSlot::EvenHeader.wire_local(), "evenHeader");
    assert_eq!(HeaderFooterSlot::EvenFooter.wire_local(), "evenFooter");
    assert_eq!(HeaderFooterSlot::FirstHeader.wire_local(), "firstHeader");
    assert_eq!(HeaderFooterSlot::FirstFooter.wire_local(), "firstFooter");
}

#[test]
fn a_named_style_states_nothing_else() {
    let spec = TableStyleReferenceSpec::named("TableStyleMedium2".to_owned());
    assert_eq!(spec.name.as_deref(), Some("TableStyleMedium2"));
    assert_eq!(spec.show_first_column, None);
    assert_eq!(spec.show_last_column, None);
    assert_eq!(spec.show_row_stripes, None);
    assert_eq!(spec.show_column_stripes, None);
    assert!(TableStyleReferenceSpec::default().name.is_none());
}

#[test]
fn escaping_is_minimal() {
    assert_eq!(escape_text("a<b&c>\"d'"), b"a&lt;b&amp;c>\"d'".to_vec());
    assert_eq!(escape_attribute("a<b&c>\"d'"), b"a&lt;b&amp;c>&quot;d'".to_vec());
    assert_eq!(escape_text("plain"), b"plain".to_vec());
}
