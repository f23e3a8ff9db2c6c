use mjx_sml::address::{AddressError, CellReference};
use mjx_sml::cells::anomaly::SheetDataAnomaly;
use mjx_sml::cells::cell_type::CellType;
use mjx_sml::cells::read::{SourceAttribute, SourceElement, SourceNode};
use mjx_sml::cells::store::SheetData;
use mjx_sml::cells::view::CellValue;
use mjx_sml::error::SmlError;

/// A small reader for well-formed test markup: elements, double- or single-quoted attributes,
/// character data and comments. Every element keeps its byte range and its own markup, the way a
/// parser hands a tree to the store.
struct Parser<'a> {
    bytes: &'a [u8],
    at: usize,
}

impl<'a> Parser<'a> {
    fn new(text: &'a str) -> Self {
        Self { bytes: text.as_bytes(), at: 0 }
    }

    fn name(&mut self) -> (Option<Vec<u8>>, Vec<u8>) {
        let start = self.at;
        while !matches!(self.bytes[self.at], b' ' | b'\n' | b'/' | b'>' | b'=') {
            self.at += 1;
        }
        let name = &self.bytes[start..self.at];
        match name.iter().position(|&byte| byte == b':') {
            Some(colon) => (Some(name[..colon].to_vec()), name[colon + 1..].to_vec()),
            None => (None, name.to_vec()),
        }
    }

    fn skip_space(&mut self) {
        while matches!(self.bytes[self.at], b' ' | b'\n') {
            self.at += 1;
        }
    }

    fn element(&mut self) -> SourceElement {
        let start = self.at;
        assert_eq!(self.bytes[self.at], b'<');
        self.at += 1;
        let (prefix, local) = self.name();
        let mut attributes = Vec::new();
        loop {
            self.skip_space();
            match self.bytes[self.at] {
                b'/' => {
                    self.at += 2;
                    return SourceElement {
                        prefix,
                        local,
                        attributes,
                        children: Vec::new(),
                        span: Some((start as u32, self.at as u32)),
                        empty: true,
                        markup: self.bytes[start..self.at].to_vec(),
                    };
                }
                b'>' => {
                    self.at += 1;
                    break;
                }
                _ => {
                    let (attribute_prefix, attribute_local) = self.name();
                    assert_eq!(self.bytes[self.at], b'=');
                    let quote = self.bytes[self.at + 1];
                    let value_start = self.at + 2;
                    let mut value_end = value_start;
                    while self.bytes[value_end] != quote {
                        value_end += 1;
                    }
                    let value = self.bytes[value_start..value_end].to_vec();
                    self.at = value_end + 1;
                    attributes.push(SourceAttribute {
                        prefix: attribute_prefix,
                        local: attribute_local,
                        quote,
                        text: Some(unescape(&value)),
                        value,
                    });
                }
            }
        }
        let mut children = Vec::new();
        loop {
            if self.bytes[self.at..].starts_with(b"</") {
                while self.bytes[self.at] != b'>' {
                    self.at += 1;
                }
                self.at += 1;
                break;
            }
            if self.bytes[self.at..].starts_with(b"<!--") {
                let comment_start = self.at;
                while !self.bytes[self.at..].starts_with(b"-->") {
                    self.at += 1;
                }
                self.at += 3;
                children.push(SourceNode::Other(self.bytes[comment_start..self.at].to_vec()));
            } else if self.bytes[self.at] == b'<' {
                children.push(SourceNode::Element(self.element()));
            } else {
                let text_start = self.at;
                while self.bytes[self.at] != b'<' {
                    self.at += 1;
                }
                children.push(SourceNode::Text(self.bytes[text_start..self.at].to_vec()));
            }
        }
        SourceElement {
            prefix,
            local,
            attributes,
            children,
            span: Some((start as u32, self.at as u32)),
            empty: false,
            markup: self.bytes[start..self.at].to_vec(),
        }
    }
}

fn unescape(value: &[u8]) -> Vec<u8> {
    String::from_utf8(value.to_vec())
        .expect("UTF-8")
        .replace("&lt;", "<")
        .replace("&gt;", ">")
        .replace("&quot;", "\"")
        .replace("&amp;", "&")
        .into_bytes()
}

/// Parses `text` into its root element.
fn tree(text: &str) -> SourceElement {
    Parser::new(text).element()
}

/// The same tree with every byte range cleared, as an authored or edited tree has them.
fn without_ranges(mut element: SourceElement) -> SourceElement {
    element.span = None;
    element.children = element
        .children
        .into_iter()
        .map(|child| match child {
            SourceNode::Element(inner) => SourceNode::Element(without_ranges(inner)),
            other => other,
        })
        .collect();
    element
}

fn read(text: &str) -> SheetData {
    SheetData::read(&tree(text), Some(text.as_bytes().to_vec())).expect("a readable sheet")
}

fn markup(sheet: &SheetData) -> String {
    String::from_utf8(sheet.to_markup()).expect("UTF-8")
}

fn at(text: &str) -> CellReference {
    CellReference::parse(text).expect("a reference")
}

const ROW_ONE: &str =
    r#"<row r="1" spans="1:2" ht="20"><c r="A1" s="3"><v>1</v></c><c r="B1" t="s"><v>0</v></c></row>"#;

fn sheet_text(second_row: &str) -> String {
    ["<sheetData>\n  ", ROW_ONE, "\n  <!-- kept -->\n  ", second_row, "\n</sheetData>"].concat()
}

const ROW_TWO: &str = r#"<row r='2'><c r="A2"><f>A1+1</f><v>2</v></c></row>"#;

#[test]
fn a_read_sheet_writes_its_own_bytes() {
    let sheet = read(&sheet_text(ROW_TWO));
    assert!(sheet.is_verbatim());
    assert_eq!(markup(&sheet), sheet_text(ROW_TWO));
    assert_eq!(sheet.edited_bytes(), 0);
    assert_eq!(sheet.row_count(), 2);
    assert_eq!(sheet.cell_count(), 3);
}

#[test]
fn a_read_sheet_answers_for_its_rows_and_cells() {
    let sheet = read(&sheet_text(ROW_TWO));
    let row = sheet.row(1).expect("row 1");
    assert_eq!(row.number(), Some(1));
    assert_eq!(row.raw_attribute("ht"), Some(&b"20"[..]));
    assert!(row.is_verbatim());
    let a1 = sheet.cell(at("A1")).expect("A1");
    assert_eq!(a1.raw_value(), Some(&b"1"[..]));
    assert_eq!(a1.style(), 3);
    assert!(a1.has_written_style());
    let b1 = sheet.cell(at("B1")).expect("B1");
    assert_eq!(b1.cell_type(), CellType::SharedString);
    assert_eq!(b1.shared_string_index(), Some(0));
    let a2 = sheet.cell(at("A2")).expect("A2");
    assert_eq!(a2.formula_markup(), Some(&b"<f>A1+1</f>"[..]));
    assert_eq!(a2.raw_value(), Some(&b"2"[..]));
}

#[test]
fn an_edit_rewrites_its_own_row_and_copies_the_rest() {
    let mut sheet = read(&sheet_text(ROW_TWO));
    sheet
        .set_cell_value(at("B2"), CellValue::NumberText("7"))
        .expect("room");
    assert!(!sheet.is_verbatim());
    assert_eq!(
        markup(&sheet),
        sheet_text(r#"<row r='2'><c r="A2"><f>A1+1</f><v>2</v></c><c r="B2"><v>7</v></c></row>"#)
    );
}

#[test]
fn a_sheet_written_from_its_rows_is_the_sheet_it_was_read_from() {
    // Editing a cell and putting its value back rewrites the row from the model; the bytes around
    // every row come from the ranges between them.
    let mut sheet = read(&sheet_text(ROW_TWO));
    sheet
        .set_cell_value(at("A1"), CellValue::NumberText("1"))
        .expect("room");
    assert_eq!(markup(&sheet), sheet_text(ROW_TWO));
}

#[test]
fn a_tree_without_ranges_is_read_from_its_markup() {
    let sheet = SheetData::read(&without_ranges(tree(&sheet_text(ROW_TWO))), None).expect("a readable sheet");
    assert!(!sheet.is_verbatim());
    assert_eq!(markup(&sheet), sheet_text(ROW_TWO));
    assert!(sheet.edited_bytes() > 0);
    assert_eq!(
        sheet.cell(at("A2")).expect("A2").formula_markup(),
        Some(&b"<f>A1+1</f>"[..])
    );
}

#[test]
fn cells_and_rows_without_a_reference_are_addressed_by_position() {
    let text = "<sheetData><row><c><v>1</v></c><c><v>2</v></c></row><row><c t=\"b\"><v>1</v></c></row></sheetData>";
    let sheet = read(text);
    let rows = sheet.rows();
    assert_eq!(rows[0].number(), None);
    let first = rows[0].cells();
    assert_eq!(first[0].reference(), at("A1"));
    assert_eq!(first[1].reference(), at("B1"));
    assert_eq!(first[1].raw_value(), Some(&b"2"[..]));
    assert!(!first[1].has_written_reference());
    let second = rows[1].cells();
    assert_eq!(second[0].reference(), at("A2"));
    assert_eq!(second[0].boolean(), Some(true));
    // A row without `r` is found by position, not by number.
    assert!(sheet.row(1).is_none());
    assert_eq!(markup(&sheet), text);
}

#[test]
fn a_cell_reference_that_does_not_parse_is_refused() {
    let text = r#"<sheetData><row r="1"><c r="A1"/><c r="1A"/></row></sheetData>"#;
    let read = SheetData::read(&tree(text), Some(text.as_bytes().to_vec()));
    assert!(matches!(read, Err(SmlError::Address(AddressError::Malformed))));
}

#[test]
fn a_positional_cell_past_the_last_column_is_refused() {
    let text = r#"<sheetData><row r="1"><c r="XFD1"/><c/></row></sheetData>"#;
    let read = SheetData::read(&tree(text), Some(text.as_bytes().to_vec()));
    assert!(matches!(
        read,
        Err(SmlError::Address(AddressError::ColumnOutOfGrid))
    ));
}

#[test]
fn what_a_file_gets_wrong_is_read_as_it_stands_and_reported() {
    let text = r#"<sheetData><row r="3"><c r="B3"/><c r="A3"/></row><row r="2"><c r="A9"/></row></sheetData>"#;
    let sheet = read(text);
    assert_eq!(markup(&sheet), text);
    let anomalies = sheet.anomalies();
    assert!(anomalies.contains(&SheetDataAnomaly::RowsOutOfOrder { row: 2, previous_row: 3 }));
    assert!(anomalies.contains(&SheetDataAnomaly::CellsOutOfOrder { row: 3 }));
    assert!(anomalies.contains(&SheetDataAnomaly::CellRowDisagreesWithRow { cell: at("A9"), row: 2 }));
    // Out of order, the cells are still found.
    assert_eq!(sheet.cell(at("A3")).expect("A3").reference(), at("A3"));
}

#[test]
fn a_prefixed_self_closing_sheet_keeps_its_prefix() {
    let text = r#"<x:sheetData a="1"/>"#;
    let mut sheet = read(text);
    assert_eq!(markup(&sheet), text);
    assert_eq!(sheet.row_count(), 0);
    sheet
        .set_cell_value(at("A1"), CellValue::Boolean(false))
        .expect("room");
    assert_eq!(
        markup(&sheet),
        r#"<x:sheetData a="1"><x:row r="1"><x:c r="A1" t="b"><x:v>0</x:v></x:c></x:row></x:sheetData>"#
    );
}

#[test]
fn a_worksheet_without_sheet_data_has_none() {
    let text = "<worksheet><dimension ref=\"A1\"/></worksheet>";
    let read = SheetData::read_worksheet(&tree(text), Some(text.as_bytes().to_vec()));
    assert!(matches!(read, Ok(None)));
    let text = "<worksheet><dimension ref=\"A1\"/><sheetData><row r=\"4\"/></sheetData></worksheet>";
    let sheet = SheetData::read_worksheet(&tree(text), Some(text.as_bytes().to_vec()))
        .expect("readable")
        .expect("a sheetData");
    assert_eq!(sheet.row_count(), 1);
    assert_eq!(markup(&sheet), "<sheetData><row r=\"4\"/></sheetData>");
}

#[test]
fn a_cell_rewritten_with_what_it_held_comes_back_as_it_was_read() {
    let text = r#"<sheetData><row r="1"><c r="A1" s='3' x="y"><f>1+1</f><v>2</v></c><c r="B1"/></row></sheetData>"#;
    let mut sheet = read(text);
    sheet.set_cell_style(at("A1"), Some(3)).expect("room");
    assert!(!sheet.is_verbatim());
    assert!(!sheet.cell(at("A1")).expect("A1").is_verbatim());
    assert_eq!(markup(&sheet), text);
}

#[test]
fn a_new_value_changes_the_value_and_nothing_around_it() {
    let text = r#"<sheetData><row r="1"><c r="A1"><f>A2</f><v>1</v><extLst/></c></row></sheetData>"#;
    let mut sheet = read(text);
    sheet
        .set_cell_value(at("A1"), CellValue::NumberText("5"))
        .expect("room");
    assert_eq!(
        markup(&sheet),
        r#"<sheetData><row r="1"><c r="A1"><f>A2</f><v>5</v><extLst/></c></row></sheetData>"#
    );
    let cell = sheet.cell(at("A1")).expect("A1");
    assert_eq!(cell.markup_before_value(), &b"<f>A2</f>"[..]);
    assert_eq!(cell.markup_after_value(), &b"<extLst/>"[..]);
}

#[test]
fn a_row_rewritten_keeps_its_attributes_and_the_gaps_between_its_cells() {
    let text = "<sheetData><row r=\"1\" ht='9' customHeight=\"1\">\n  <c r=\"A1\"><v>1</v></c>\n  <c r=\"C1\"><v>3</v></c>\n</row></sheetData>";
    let mut sheet = read(text);
    sheet
        .set_cell_value(at("C1"), CellValue::NumberText("4"))
        .expect("room");
    assert_eq!(
        markup(&sheet),
        "<sheetData><row r=\"1\" ht='9' customHeight=\"1\">\n  <c r=\"A1\"><v>1</v></c>\n  <c r=\"C1\"><v>4</v></c>\n</row></sheetData>"
    );
    assert_eq!(sheet.cell(at("C1")).expect("C1").leading_markup(), &b"\n  "[..]);
}

#[test]
fn an_edit_replaces_the_bytes_of_its_own_cell_and_no_others() {
    let text = sheet_text(ROW_TWO);
    let mut sheet = read(&text);
    sheet
        .set_cell_value(at("A1"), CellValue::NumberText("9"))
        .expect("room");
    let expected = text.replacen(r#"<c r="A1" s="3"><v>1</v></c>"#, r#"<c r="A1" s="3"><v>9</v></c>"#, 1);
    assert_ne!(expected, text);
    assert_eq!(markup(&sheet), expected);
}
