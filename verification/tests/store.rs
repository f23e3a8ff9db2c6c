use mjx_sml::address::{AddressError, CellReference, CellSpans};
use mjx_sml::cells::anomaly::SheetDataAnomaly;
use mjx_sml::cells::cell_type::CellType;
use mjx_sml::cells::store::SheetData;
use mjx_sml::cells::view::CellValue;

fn at(text: &str) -> CellReference {
    CellReference::parse(text).expect("a reference")
}

fn markup(sheet: &SheetData) -> String {
    String::from_utf8(sheet.to_markup()).expect("UTF-8")
}

#[test]
fn an_authored_sheet_writes_an_empty_element() {
    let sheet = SheetData::authored(None);
    assert_eq!(markup(&sheet), "<sheetData></sheetData>");
    assert_eq!(sheet.row_count(), 0);
    assert_eq!(sheet.cell_count(), 0);
    assert!(!sheet.is_verbatim());
    assert_eq!(sheet.edited_bytes(), 0);
}

#[test]
fn a_number_is_written_in_a_value_element_without_a_type() {
    let mut sheet = SheetData::authored(None);
    sheet.set_cell_value(at("B2"), CellValue::NumberText("3.5")).expect("room");
    assert_eq!(
        markup(&sheet),
        r#"<sheetData><row r="2"><c r="B2"><v>3.5</v></c></row></sheetData>"#
    );
    let cell = sheet.cell(at("B2")).expect("the cell just written");
    assert_eq!(cell.raw_value(), Some(&b"3.5"[..]));
    assert_eq!(cell.cell_type(), CellType::Number);
    assert_eq!(cell.written_cell_type(), None);
}

#[test]
fn each_value_writes_the_type_that_goes_with_it() {
    let mut sheet = SheetData::authored(None);
    sheet.set_cell_value(at("A1"), CellValue::SharedString(7)).expect("room");
    sheet.set_cell_value(at("B1"), CellValue::Boolean(true)).expect("room");
    sheet.set_cell_value(at("C1"), CellValue::Error("#N/A")).expect("room");
    sheet.set_cell_value(at("D1"), CellValue::FormulaString("a&b")).expect("room");
    assert_eq!(
        markup(&sheet),
        [
            r#"<sheetData><row r="1">"#,
            r#"<c r="A1" t="s"><v>7</v></c>"#,
            r#"<c r="B1" t="b"><v>1</v></c>"#,
            r#"<c r="C1" t="e"><v>#N/A</v></c>"#,
            r#"<c r="D1" t="str"><v>a&amp;b</v></c>"#,
            r#"</row></sheetData>"#,
        ]
        .concat()
    );
    assert_eq!(sheet.cell(at("A1")).expect("A1").shared_string_index(), Some(7));
    assert_eq!(sheet.cell(at("B1")).expect("B1").boolean(), Some(true));
    assert_eq!(sheet.cell(at("A1")).expect("A1").boolean(), None);
}

#[test]
fn an_inline_string_is_written_with_the_sheet_prefix_and_escaped() {
    let mut sheet = SheetData::authored(Some("x"));
    sheet.set_cell_value(at("A1"), CellValue::InlineString("a<b")).expect("room");
    assert_eq!(
        markup(&sheet),
        r#"<x:sheetData><x:row r="1"><x:c r="A1" t="inlineStr"><x:is><x:t>a&lt;b</x:t></x:is></x:c></x:row></x:sheetData>"#
    );
    let cell = sheet.cell(at("A1")).expect("A1");
    assert_eq!(
        cell.inline_string_markup(),
        Some(&b"<x:is><x:t>a&lt;b</x:t></x:is>"[..])
    );
    assert_eq!(cell.raw_value(), None);
}

#[test]
fn a_value_set_twice_keeps_one_cell_and_the_last_value() {
    let mut sheet = SheetData::authored(None);
    sheet.set_cell_value(at("A1"), CellValue::SharedString(1)).expect("room");
    sheet.set_cell_value(at("A1"), CellValue::NumberText("2")).expect("room");
    assert_eq!(sheet.cell_count(), 1);
    assert_eq!(
        markup(&sheet),
        r#"<sheetData><row r="1"><c r="A1"><v>2</v></c></row></sheetData>"#
    );
}

#[test]
fn a_blank_value_removes_the_value_element_but_keeps_the_cell() {
    let mut sheet = SheetData::authored(None);
    sheet.set_cell_value(at("A1"), CellValue::Boolean(false)).expect("room");
    sheet.set_cell_value(at("A1"), CellValue::Blank).expect("room");
    assert_eq!(
        markup(&sheet),
        r#"<sheetData><row r="1"><c r="A1"></c></row></sheetData>"#
    );
    assert_eq!(sheet.cell(at("A1")).expect("A1").raw_value(), None);
}

#[test]
fn a_style_is_read_back_and_removed() {
    let mut sheet = SheetData::authored(None);
    sheet.set_cell_style(at("C3"), Some(4)).expect("room");
    let cell = sheet.cell(at("C3")).expect("C3");
    assert_eq!(cell.style(), 4);
    assert!(cell.has_written_style());
    assert_eq!(cell.raw_attribute("s"), Some(b"4".to_vec()));
    assert_eq!(cell.raw_attribute("r"), Some(b"C3".to_vec()));
    assert_eq!(
        markup(&sheet),
        r#"<sheetData><row r="3"><c r="C3" s="4"></c></row></sheetData>"#
    );
    sheet.set_cell_style(at("C3"), None).expect("room");
    let cell = sheet.cell(at("C3")).expect("C3");
    assert_eq!(cell.style(), 0);
    assert!(!cell.has_written_style());
    assert_eq!(cell.raw_attribute("s"), None);
}

#[test]
fn rows_and_cells_are_placed_in_ascending_order_whatever_order_they_come_in() {
    let mut sheet = SheetData::authored(None);
    sheet.set_cell_value(at("C5"), CellValue::NumberText("1")).expect("room");
    sheet.set_cell_value(at("A2"), CellValue::NumberText("2")).expect("room");
    sheet.set_cell_value(at("A5"), CellValue::NumberText("3")).expect("room");
    let rows = sheet.rows();
    assert_eq!(rows.len(), 2);
    assert_eq!(rows[0].number(), Some(2));
    assert_eq!(rows[1].number(), Some(5));
    let cells = rows[1].cells();
    assert_eq!(cells.len(), 2);
    assert_eq!(cells[0].reference(), at("A5"));
    assert_eq!(cells[1].reference(), at("C5"));
    assert_eq!(rows[1].cell_count(), 2);
    assert_eq!(rows[1].cell(2).expect("C5").raw_value(), Some(&b"1"[..]));
    assert!(rows[1].cell(1).is_none());
    assert!(sheet.anomalies().is_empty());
    let all: Vec<CellReference> = sheet.cells().iter().map(|cell| cell.reference()).collect();
    assert_eq!(all, vec![at("A2"), at("A5"), at("C5")]);
}

#[test]
fn anchoring_is_not_part_of_the_key() {
    let mut sheet = SheetData::authored(None);
    sheet.set_cell_value(at("$B$7"), CellValue::NumberText("1")).expect("room");
    let cell = sheet.cell(at("B7")).expect("the same cell");
    assert_eq!(cell.reference(), at("$B$7"));
    assert_eq!(cell.raw_attribute("r"), Some(b"$B$7".to_vec()));
}

#[test]
fn removing_a_cell_keeps_its_row() {
    let mut sheet = SheetData::authored(None);
    sheet.set_cell_value(at("A1"), CellValue::NumberText("1")).expect("room");
    sheet.set_cell_value(at("B1"), CellValue::NumberText("2")).expect("room");
    assert!(sheet.remove_cell(at("A1")));
    assert!(!sheet.remove_cell(at("A1")), "there is nothing left to remove");
    assert!(sheet.cell(at("A1")).is_none());
    assert_eq!(sheet.cell_count(), 1);
    assert!(sheet.remove_cell(at("B1")));
    assert_eq!(sheet.row_count(), 1, "the row survives its cells");
    assert_eq!(markup(&sheet), r#"<sheetData><row r="1"></row></sheetData>"#);
}

#[test]
fn removing_a_row_removes_its_cells_and_leaves_the_others() {
    let mut sheet = SheetData::authored(None);
    sheet.set_cell_value(at("A1"), CellValue::NumberText("1")).expect("room");
    sheet.set_cell_value(at("A2"), CellValue::NumberText("2")).expect("room");
    sheet.set_cell_value(at("A3"), CellValue::NumberText("3")).expect("room");
    assert!(sheet.remove_row(2));
    assert!(!sheet.remove_row(2));
    assert_eq!(sheet.row_count(), 2);
    assert_eq!(sheet.cell_count(), 2);
    assert!(sheet.row(2).is_none());
    assert_eq!(sheet.cell(at("A3")).expect("A3").raw_value(), Some(&b"3"[..]));
    assert_eq!(
        markup(&sheet),
        r#"<sheetData><row r="1"><c r="A1"><v>1</v></c></row><row r="3"><c r="A3"><v>3</v></c></row></sheetData>"#
    );
}

#[test]
fn row_attributes_are_written_in_place_and_read_back() {
    let mut sheet = SheetData::authored(None);
    sheet.set_row_hidden(4, Some(true)).expect("room");
    sheet.set_row_style(4, Some(9)).expect("room");
    sheet.set_row_attribute(4, "outlineLevel", Some("2")).expect("room");
    sheet.set_row_attribute(4, "note", Some("a\"b<c")).expect("room");
    let row = sheet.row(4).expect("row 4");
    assert!(row.is_hidden());
    assert_eq!(row.style(), 9);
    assert_eq!(row.outline_level(), 2);
    assert!(!row.is_collapsed());
    assert_eq!(row.raw_attribute("note"), Some(&b"a&quot;b&lt;c"[..]));
    assert_eq!(
        markup(&sheet),
        r#"<sheetData><row r="4" hidden="true" s="9" outlineLevel="2" note="a&quot;b&lt;c"></row></sheetData>"#
    );
    sheet.set_row_hidden(4, None).expect("room");
    assert!(!sheet.row(4).expect("row 4").is_hidden());
}

#[test]
fn boolean_row_attributes_read_true_and_one_and_nothing_else() {
    let mut sheet = SheetData::authored(None);
    sheet.set_row_attribute(1, "customHeight", Some("1")).expect("room");
    sheet.set_row_attribute(1, "customFormat", Some("on")).expect("room");
    sheet.set_row_attribute(1, "thickTop", Some("true")).expect("room");
    sheet.set_row_attribute(1, "thickBot", Some("0")).expect("room");
    sheet.set_row_attribute(1, "ph", Some("false")).expect("room");
    sheet.set_row_attribute(1, "collapsed", Some("TRUE")).expect("room");
    let row = sheet.row(1).expect("row 1");
    assert!(row.uses_custom_height());
    assert!(!row.uses_custom_format(), "`on` is not xsd:boolean");
    assert!(row.has_thick_top_border());
    assert!(!row.has_thick_bottom_border());
    assert!(!row.shows_phonetic());
    assert!(!row.is_collapsed(), "xsd:boolean is case-sensitive");
}

#[test]
fn setting_r_moves_the_row_in_the_index() {
    let mut sheet = SheetData::authored(None);
    sheet.set_cell_value(at("A1"), CellValue::NumberText("1")).expect("room");
    sheet.set_cell_value(at("A2"), CellValue::NumberText("2")).expect("room");
    sheet.set_row_attribute(1, "r", Some("7")).expect("room");
    assert!(sheet.row(1).is_none());
    assert_eq!(sheet.row(7).expect("renumbered").number(), Some(7));
    assert_eq!(
        sheet.anomalies(),
        vec![
            SheetDataAnomaly::CellRowDisagreesWithRow { cell: at("A1"), row: 7 },
            SheetDataAnomaly::RowsOutOfOrder { row: 2, previous_row: 7 },
        ]
    );
    sheet.set_row_attribute(7, "r", Some("x")).expect("room");
    let first = &sheet.rows()[0];
    assert_eq!(first.number(), None, "an `r` that is not a number leaves the row unnumbered");
}

#[test]
fn spans_are_set_and_read_back_but_never_derived() {
    let mut sheet = SheetData::authored(None);
    sheet.set_cell_value(at("B1"), CellValue::NumberText("1")).expect("room");
    assert_eq!(sheet.row(1).expect("row 1").spans(), Ok(None));
    let spans = CellSpans::parse("1:3 5:5").expect("a spans list");
    sheet.set_row_spans(1, Some(&spans)).expect("room");
    let read = sheet.row(1).expect("row 1").spans().expect("parses").expect("present");
    assert_eq!(read.ranges(), &[(1, 3), (5, 5)]);
    assert_eq!(
        markup(&sheet),
        r#"<sheetData><row r="1" spans="1:3 5:5"><c r="B1"><v>1</v></c></row></sheetData>"#
    );
    sheet.set_row_attribute(1, "spans", Some("0:2")).expect("room");
    assert_eq!(
        sheet.row(1).expect("row 1").spans(),
        Err(AddressError::ColumnOutOfGrid)
    );
}

#[test]
fn an_edit_leaves_every_other_row_untouched() {
    let mut sheet = SheetData::authored(None);
    sheet.set_cell_value(at("A1"), CellValue::NumberText("1")).expect("room");
    sheet.set_cell_value(at("A3"), CellValue::NumberText("3")).expect("room");
    let before = sheet.row(3).expect("row 3").markup();
    sheet.set_cell_value(at("A2"), CellValue::NumberText("2")).expect("room");
    assert_eq!(sheet.row(3).expect("row 3").markup(), before);
    assert_eq!(sheet.row(1).expect("row 1").markup(), b"<row r=\"1\"><c r=\"A1\"><v>1</v></c></row>".to_vec());
}

#[test]
fn the_store_owns_the_bytes_it_authored() {
    let mut sheet = SheetData::authored(None);
    sheet.set_cell_value(at("A1"), CellValue::NumberText("12")).expect("room");
    // ` r="1"` for the row, then `12` for the value.
    assert_eq!(sheet.edited_bytes(), 8);
    assert!(sheet.reserved_bytes() >= sheet.edited_bytes());
}

#[test]
fn a_fresh_cell_is_not_verbatim_and_has_no_source_markup() {
    let mut sheet = SheetData::authored(None);
    sheet.set_cell_value(at("A1"), CellValue::NumberText("1")).expect("room");
    let cell = sheet.cell(at("A1")).expect("A1");
    assert!(!cell.is_verbatim());
    assert!(cell.source_markup().is_none());
    assert_eq!(cell.markup(), b"<c r=\"A1\"><v>1</v></c>".to_vec());
    assert_eq!(cell.leading_markup(), b"");
    assert_eq!(cell.markup_before_value(), b"");
    assert_eq!(cell.markup_after_value(), b"");
    assert!(!cell.has_formula());
    assert!(cell.formula_markup().is_none());
    assert!(cell.has_written_reference());
    let row = sheet.row(1).expect("row 1");
    assert!(!row.is_verbatim());
    assert!(row.source_markup().is_none());
}

#[test]
fn edits_from_an_authored_sheet_leave_nothing_to_report() {
    let mut sheet = SheetData::authored(Some("x"));
    sheet.set_cell_value(at("C3"), CellValue::InlineString("a")).expect("room");
    sheet.set_cell_value(at("A3"), CellValue::SharedString(2)).expect("room");
    sheet.set_cell_value(at("B1"), CellValue::Boolean(true)).expect("room");
    sheet.set_cell_style(at("B3"), Some(4)).expect("room");
    sheet.set_row_spans(3, Some(&CellSpans::parse("1:3").expect("spans"))).expect("room");
    sheet.set_row_hidden(2, Some(true)).expect("room");
    sheet.set_row_style(1, Some(7)).expect("room");
    assert!(sheet.remove_cell(at("A3")));
    assert!(sheet.remove_row(2));
    let before = sheet.to_markup();
    assert!(sheet.anomalies().is_empty());
    assert_eq!(sheet.to_markup(), before, "asking changes nothing");
}

#[test]
fn edited_bytes_never_shrink_and_an_edited_sheet_stays_reflowed() {
    let mut sheet = SheetData::authored(None);
    let mut seen = sheet.edited_bytes();
    sheet.set_cell_value(at("A1"), CellValue::NumberText("12")).expect("room");
    assert!(sheet.edited_bytes() >= seen);
    seen = sheet.edited_bytes();
    assert!(seen > 0);
    assert!(sheet.remove_cell(at("A1")));
    assert!(sheet.edited_bytes() >= seen);
    seen = sheet.edited_bytes();
    sheet.set_cell_style(at("B2"), None).expect("room");
    assert!(sheet.edited_bytes() >= seen);
    assert!(sheet.remove_row(2));
    assert!(!sheet.is_verbatim());
}

#[test]
fn the_sheets_cells_are_its_rows_cells_row_after_row() {
    let mut sheet = SheetData::authored(None);
    for (reference, value) in [("B2", "1"), ("A1", "2"), ("C2", "3"), ("A2", "4")] {
        sheet.set_cell_value(at(reference), CellValue::NumberText(value)).expect("room");
    }
    let flat: Vec<Vec<u8>> = sheet.cells().iter().map(|c| c.reference().text()).collect();
    let by_row: Vec<Vec<u8>> = sheet
        .rows()
        .iter()
        .flat_map(|row| row.cells().into_iter().map(|c| c.reference().text()).collect::<Vec<_>>())
        .collect();
    assert_eq!(flat, by_row);
    assert_eq!(flat, vec![b"A1".to_vec(), b"A2".to_vec(), b"B2".to_vec(), b"C2".to_vec()]);
    assert_eq!(sheet.cell_count(), flat.len());
}
