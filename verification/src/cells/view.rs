//! Borrowed views onto the packed records — [`Row`], [`Cell`] — and the [`CellValue`] a caller
//! writes.
//!
//! The store is three flat arrays and a byte arena, which is the right shape for a million cells
//! and the wrong shape to hand to a caller. These are the reading surface: two-word handles that
//! resolve a record and its byte ranges on demand, so nothing is decoded until somebody asks and
//! nothing is copied when they do.

use vstd::prelude::*;
use vstd::string::StringSliceAdditionalSpecFns;

use crate::address::{AddressError, CellReference, CellSpans, parse_spans_from};
use crate::arena::attributes::{bytes_equal, value, value_of};
use crate::decimal::{decimal, parse_decimal, parse_decimal_spec, push_decimal};

use super::cell_type::CellType;
use super::edits::{optional_bytes, type_wire};
use super::model::{CellModel, RowModel, find_cell, lemma_find_cell_found};
use super::record::{CellFlags, PayloadShape, RowFlags, has_flag, shape_of_flags, type_of_code};
use super::store::SheetData;
use super::write::{cell_markup, or_empty, row_markup, write_cell, write_row};

verus! {

/// A value a caller writes into a cell.
///
/// The `c@t` that goes with each is decided here rather than by the caller, because the pair *is*
/// the value: a `<v>` reading `3` is a number, a shared-string index or an error code depending
/// entirely on the `t` beside it.
///
/// A number is written through [`NumberText`](Self::NumberText), in the spelling the caller gives;
/// it carries no `t`, because `n` is the schema default and a file that would not have written the
/// attribute must not gain one.
#[derive(Debug, Clone, Copy)]
pub enum CellValue<'a> {
    /// No value element at all. The cell survives — a blank cell still carries a style.
    Blank,
    /// A number written exactly as given — `1.0`, `1e-7`, `0.30000000000000004`. Escaped as
    /// character data before it is written.
    NumberText(&'a str),
    /// An index into the shared-string table. Writes `t="s"`.
    SharedString(u32),
    /// A boolean, written `1` or `0`. Writes `t="b"`.
    Boolean(bool),
    /// An error code — `#DIV/0!`, `#N/A`. Writes `t="e"`.
    Error(&'a str),
    /// The string result of a formula. Writes `t="str"`.
    FormulaString(&'a str),
    /// A string stored in the cell itself rather than in the shared-string table. Writes
    /// `t="inlineStr"` and an `<is><t>…</t></is>`.
    InlineString(&'a str),
}

/// The number the attribute `name` of `run` spells, or zero when it is absent or spells none
/// within `max`.
pub open spec fn number_value(run: Seq<u8>, name: Seq<u8>, max: u32) -> u32 {
    match value_of(run, name) {
        Some(text) => match parse_decimal_spec(text, max) {
            Some(number) => number,
            None => 0,
        },
        None => 0,
    }
}

/// Whether the `xsd:boolean` attribute `name` of `run` reads `true` or `1`; anything else,
/// absence included, is the schema default `false`.
pub open spec fn flag_value(run: Seq<u8>, name: Seq<u8>) -> bool {
    match value_of(run, name) {
        Some(text) => text == seq![116u8, 114u8, 117u8, 101u8] || text == seq![49u8],
        None => false,
    }
}

/// A cell's type with the schema default applied.
pub open spec fn type_or_number(kind: u8) -> CellType {
    match type_of_code(kind) {
        Some(cell_type) => cell_type,
        None => CellType::Number,
    }
}

/// The value of attribute `name` of a cell: from its verbatim run when it keeps one, and
/// otherwise from the fields its start tag is regenerated from.
pub open spec fn cell_attribute(cell: CellModel, name: Seq<u8>) -> Option<Seq<u8>> {
    match cell.attributes {
        Some(run) => value_of(run, name),
        None => if name == seq![114u8] && has_flag(cell.flags, 1u8) {
            Some(cell.reference.spec_text())
        } else if name == seq![115u8] && has_flag(cell.flags, 2u8) {
            Some(decimal(cell.style as nat))
        } else if name == seq![116u8] {
            type_wire(cell.kind)
        } else {
            None
        },
    }
}

/// A cell's `<v>` text, when its value is one.
pub open spec fn value_text(cell: CellModel) -> Option<Seq<u8>> {
    if shape_of_flags(cell.flags) == PayloadShape::ValueText {
        Some(or_empty(cell.payload))
    } else {
        None
    }
}

/// One row of a [`SheetData`] — `CT_Row`.
///
/// `CT_Row` declares twelve attributes. The store decodes exactly one of them, `r`, because `r` is
/// the key it is indexed by; the other eleven are read straight out of the bytes the file wrote,
/// by the accessors below, which is what lets a row's start tag come back byte-identical.
#[derive(Debug)]
pub struct Row<'a> {
    sheet: &'a SheetData,
    index: usize,
}

impl<'a> Row<'a> {
    /// A row view is always of a well-formed sheet and one of its rows.
    #[verifier::type_invariant]
    spec fn inv(self) -> bool {
        &&& self.sheet.wf()
        &&& self.index < self.sheet@.rows.len()
    }

    /// The sheet this row belongs to.
    pub closed spec fn sheet(self) -> SheetData {
        *self.sheet
    }

    /// Where this row stands in the sheet.
    pub closed spec fn position(self) -> int {
        self.index as int
    }

    /// What this row means.
    pub open spec fn model(self) -> RowModel {
        self.sheet()@.rows[self.position()]
    }

    /// The row's start-tag attribute run.
    pub open spec fn run(self) -> Seq<u8> {
        or_empty(self.model().attributes)
    }

    /// A view of the row at `index`.
    pub(crate) fn new(sheet: &'a SheetData, index: usize) -> (row: Self)
        requires
            sheet.wf(),
            index < sheet@.rows.len(),
        ensures
            row.sheet() == *sheet,
            row.position() == index,
    {
        Row { sheet, index }
    }

    /// `row@r` — the one-based row number the file wrote, or `None` if it wrote none.
    ///
    /// A row without an `r` is legal: its position in the sheet is its number. It is returned as
    /// `None` rather than filled in, because a row that gained an `r` on the way out would be a
    /// silent repair.
    pub fn number(&self) -> (number: Option<u32>)
        ensures
            number == if has_flag(self.model().flags, 1u8) {
                Some(self.model().number)
            } else {
                None
            },
    {
        proof {
            use_type_invariant(self);
        }
        let record = self.sheet.row_record(self.index);
        if record.has(RowFlags::HAS_NUMBER) {
            Some(record.number)
        } else {
            None
        }
    }

    /// The still-escaped bytes of the attribute `name`, exactly as the file wrote them between the
    /// quotes.
    pub fn raw_attribute(&self, name: &str) -> (found: Option<&'a [u8]>)
        ensures
            optional_bytes(found) == value_of(self.run(), name.spec_bytes()),
    {
        proof {
            use_type_invariant(self);
        }
        let run = self.sheet.row_attribute_run(self.index);
        value(run, name)
    }

    /// `row@spans` — the advisory hint naming the columns this row occupies, or `None` if the
    /// file wrote none.
    ///
    /// # Errors
    ///
    /// [`AddressError`] if the value is not a `ST_CellSpans` list.
    pub fn spans(&self) -> (spans: Result<Option<CellSpans>, AddressError>)
        ensures
            match value_of(self.run(), "spans".spec_bytes()) {
                Some(text) => match parse_spans_from(text, 0) {
                    Ok(read) => spans matches Ok(Some(found)) && found@ == read,
                    Err(error) => spans == Err::<Option<CellSpans>, AddressError>(error),
                },
                None => spans matches Ok(None),
            },
    {
        match self.raw_attribute("spans") {
            Some(text) => match CellSpans::parse_bytes(text) {
                Ok(found) => Ok(Some(found)),
                Err(error) => Err(error),
            },
            None => Ok(None),
        }
    }

    /// `row@s` — the `cellXfs` index this row's cells inherit. Zero, the schema default, when the
    /// attribute is absent or unreadable.
    pub fn style(&self) -> (style: u32)
        ensures
            style == number_value(self.run(), "s".spec_bytes(), u32::MAX),
    {
        self.number_attribute("s", u32::MAX)
    }

    /// `row@outlineLevel` — the outline group depth. Zero, the schema default, when absent.
    pub fn outline_level(&self) -> (level: u8)
        ensures
            level == number_value(self.run(), "outlineLevel".spec_bytes(), 255),
    {
        let level = self.number_attribute("outlineLevel", 255);
        level as u8
    }

    /// `row@customFormat` — whether the row carries a format of its own rather than the column's.
    pub fn uses_custom_format(&self) -> (set: bool)
        ensures
            set == flag_value(self.run(), "customFormat".spec_bytes()),
    {
        self.boolean_attribute("customFormat")
    }

    /// `row@hidden`.
    pub fn is_hidden(&self) -> (set: bool)
        ensures
            set == flag_value(self.run(), "hidden".spec_bytes()),
    {
        self.boolean_attribute("hidden")
    }

    /// `row@customHeight` — whether the height was set by hand rather than fitted.
    pub fn uses_custom_height(&self) -> (set: bool)
        ensures
            set == flag_value(self.run(), "customHeight".spec_bytes()),
    {
        self.boolean_attribute("customHeight")
    }

    /// `row@collapsed` — whether the outline group this row ends is collapsed.
    pub fn is_collapsed(&self) -> (set: bool)
        ensures
            set == flag_value(self.run(), "collapsed".spec_bytes()),
    {
        self.boolean_attribute("collapsed")
    }

    /// `row@thickTop` — whether the row shows a thick border above it.
    pub fn has_thick_top_border(&self) -> (set: bool)
        ensures
            set == flag_value(self.run(), "thickTop".spec_bytes()),
    {
        self.boolean_attribute("thickTop")
    }

    /// `row@thickBot` — whether the row shows a thick border below it.
    pub fn has_thick_bottom_border(&self) -> (set: bool)
        ensures
            set == flag_value(self.run(), "thickBot".spec_bytes()),
    {
        self.boolean_attribute("thickBot")
    }

    /// `row@ph` — whether phonetic guides are shown for this row's East Asian text.
    pub fn shows_phonetic(&self) -> (set: bool)
        ensures
            set == flag_value(self.run(), "ph".spec_bytes()),
    {
        self.boolean_attribute("ph")
    }

    /// This row's cells, in the order the file wrote them.
    pub fn cells(&self) -> (cells: Vec<Cell<'a>>)
        ensures
            cells@.len() == self.model().cells.len(),
            forall|k: int| 0 <= k < cells@.len() ==> (#[trigger] cells@[k]).model() == self.model().cells[k],
    {
        proof {
            use_type_invariant(self);
        }
        let record = self.sheet.row_record(self.index);
        let first = record.first_cell as usize;
        let count = record.cell_count as usize;
        let mut cells: Vec<Cell<'a>> = Vec::new();
        let mut k: usize = 0;
        while k < count
            invariant
                self.sheet.wf(),
                self.index < self.sheet@.rows.len(),
                first == self.sheet.raw_rows()[self.index as int].first_cell,
                count == self.model().cells.len(),
                k <= count,
                cells@.len() == k,
                forall|j: int| 0 <= j < k ==> (#[trigger] cells@[j]).model() == self.model().cells[j],
            decreases count - k,
        {
            proof {
                self.sheet.lemma_cell_in_row(self.index as int, k as int);
            }
            cells.push(Cell::new(self.sheet, first + k));
            k = k + 1;
        }
        cells
    }

    /// How many cells this row holds.
    pub fn cell_count(&self) -> (count: usize)
        ensures
            count == self.model().cells.len(),
    {
        proof {
            use_type_invariant(self);
        }
        self.sheet.row_record(self.index).cell_count as usize
    }

    /// The cell in this row at `column` (zero-based): the first such, or `None`.
    pub fn cell(&self, column: u16) -> (found: Option<Cell<'a>>)
        ensures
            match find_cell(self.model().cells, column, 0) {
                Some(k) => found matches Some(cell) && cell.model() == self.model().cells[k],
                None => found is None,
            },
    {
        proof {
            use_type_invariant(self);
            lemma_find_cell_found(self.model().cells, column, 0);
        }
        match self.sheet.cell_position(self.index, column) {
            Some(index) => {
                proof {
                    let k = find_cell(self.model().cells, column, 0)->0;
                    self.sheet.lemma_cell_in_row(self.index as int, k);
                }
                Some(Cell::new(self.sheet, index))
            },
            None => None,
        }
    }

    /// Whether this row can still be written straight out of the part's bytes — nothing in it has
    /// been edited since it was read.
    pub fn is_verbatim(&self) -> (verbatim: bool)
        ensures
            verbatim == self.model().extent is Some,
    {
        proof {
            use_type_invariant(self);
        }
        self.sheet.verbatim_row(self.index).is_some()
    }

    /// The bytes this row occupied in the part, or `None` for a row that was authored or has been
    /// edited.
    pub fn source_markup(&self) -> (bytes: Option<&'a [u8]>)
        ensures
            optional_bytes(bytes) == self.model().extent,
    {
        proof {
            use_type_invariant(self);
        }
        self.sheet.verbatim_row(self.index)
    }

    /// This row as it would be written — a copy of the part's bytes when the row is untouched, and
    /// a rebuild otherwise.
    pub fn markup(&self) -> (markup: Vec<u8>)
        ensures
            markup@ == row_markup(self.sheet()@.prefix, self.model()),
    {
        proof {
            use_type_invariant(self);
        }
        let mut out: Vec<u8> = Vec::new();
        write_row(self.sheet, self.index, &mut out);
        out
    }

    /// A numeric attribute, zero when absent or unreadable.
    fn number_attribute(&self, name: &str, max: u32) -> (number: u32)
        ensures
            number == number_value(self.run(), name.spec_bytes(), max),
            number <= max,
    {
        match self.raw_attribute(name) {
            Some(text) => match parse_decimal(text, max) {
                Some(number) => number,
                None => 0,
            },
            None => 0,
        }
    }

    /// An `xsd:boolean` attribute, defaulting to `false` when absent or unreadable.
    ///
    /// `xsd:boolean` is exactly `true`, `false`, `1` and `0` — not the wider `ST_OnOff` family.
    fn boolean_attribute(&self, name: &str) -> (set: bool)
        ensures
            set == flag_value(self.run(), name.spec_bytes()),
    {
        let yes = vec![116u8, 114u8, 117u8, 101u8];
        let one = vec![49u8];
        proof {
            assert(yes@ =~= seq![116u8, 114u8, 117u8, 101u8]);
            assert(one@ =~= seq![49u8]);
        }
        match self.raw_attribute(name) {
            Some(text) => bytes_equal(text, yes.as_slice()) || bytes_equal(text, one.as_slice()),
            None => false,
        }
    }
}

/// One cell of a [`SheetData`] — `CT_Cell`.
#[derive(Debug)]
pub struct Cell<'a> {
    sheet: &'a SheetData,
    index: usize,
}

impl<'a> Cell<'a> {
    /// A cell view is always of a well-formed sheet and one of its cells.
    #[verifier::type_invariant]
    spec fn inv(self) -> bool {
        &&& self.sheet.wf()
        &&& self.index < self.sheet.raw_cells().len()
    }

    /// The sheet this cell belongs to.
    pub closed spec fn sheet(self) -> SheetData {
        *self.sheet
    }

    /// Where this cell stands in the sheet's cell arena.
    pub closed spec fn position(self) -> int {
        self.index as int
    }

    /// What this cell means.
    pub open spec fn model(self) -> CellModel {
        self.sheet().cell_at(self.position())
    }

    /// A view of the cell at `index` of the cell arena.
    pub(crate) fn new(sheet: &'a SheetData, index: usize) -> (cell: Self)
        requires
            sheet.wf(),
            index < sheet.raw_cells().len(),
        ensures
            cell.sheet() == *sheet,
            cell.position() == index,
    {
        Cell { sheet, index }
    }

    /// The cell's address: `c@r` when the file wrote one — anchoring and all, so `$B$7` comes back
    /// `$B$7` — and the address its position implies when it did not.
    pub fn reference(&self) -> (reference: CellReference)
        ensures
            reference == self.model().reference,
    {
        proof {
            use_type_invariant(self);
        }
        self.sheet.cell_record(self.index).reference
    }

    /// Whether `c@r` was written. A cell without one takes its address from its position, and must
    /// not gain the attribute on the way out.
    pub fn has_written_reference(&self) -> (written: bool)
        ensures
            written == has_flag(self.model().flags, 1u8),
    {
        proof {
            use_type_invariant(self);
        }
        self.sheet.cell_record(self.index).has(CellFlags::HAS_REFERENCE)
    }

    /// `c@t`, with the schema default applied — [`CellType::Number`] for a cell that wrote none.
    pub fn cell_type(&self) -> (cell_type: CellType)
        ensures
            cell_type == type_or_number(self.model().kind),
    {
        match self.written_cell_type() {
            Some(cell_type) => cell_type,
            None => CellType::Number,
        }
    }

    /// `c@t` exactly as written, or `None` when the attribute was absent.
    ///
    /// `n` *is* the default, so an absent `t` and `t="n"` mean the same thing and are different
    /// bytes, and a file that wrote nothing must come back writing nothing.
    pub fn written_cell_type(&self) -> (cell_type: Option<CellType>)
        ensures
            cell_type == type_of_code(self.model().kind),
    {
        proof {
            use_type_invariant(self);
        }
        self.sheet.cell_record(self.index).written_cell_type()
    }

    /// `c@s` — the `cellXfs` index. Zero, the schema default, when absent.
    pub fn style(&self) -> (style: u32)
        ensures
            style == self.model().style,
    {
        proof {
            use_type_invariant(self);
        }
        self.sheet.cell_record(self.index).style
    }

    /// Whether `c@s` was written, even as the default `0`.
    pub fn has_written_style(&self) -> (written: bool)
        ensures
            written == has_flag(self.model().flags, 2u8),
    {
        proof {
            use_type_invariant(self);
        }
        self.sheet.cell_record(self.index).has(CellFlags::HAS_STYLE)
    }

    /// The still-escaped bytes of the attribute `name` — including `cm`, `vm`, `ph` and anything
    /// this workspace does not model.
    ///
    /// Copied from the cell's verbatim attribute run when it keeps one, and spelled from its
    /// decoded fields when its start tag is regenerated from them.
    pub fn raw_attribute(&self, name: &str) -> (found: Option<Vec<u8>>)
        ensures
            match found {
                Some(bytes) => cell_attribute(self.model(), name.spec_bytes()) == Some(bytes@),
                None => cell_attribute(self.model(), name.spec_bytes()) is None,
            },
    {
        proof {
            use_type_invariant(self);
        }
        match self.sheet.cell_attribute_run(self.index) {
            Some(run) => {
                return match value(run, name) {
                    Some(found) => Some(vstd::slice::slice_to_vec(found)),
                    None => None,
                };
            },
            None => {},
        }
        let cell = self.sheet.cell_record(self.index);
        let wanted = name.as_bytes();
        if wanted.len() == 1 && wanted[0] == 114u8 && cell.has(CellFlags::HAS_REFERENCE) {
            proof {
                assert(wanted@ =~= seq![114u8]);
            }
            return Some(cell.reference.text());
        }
        if wanted.len() == 1 && wanted[0] == 115u8 && cell.has(CellFlags::HAS_STYLE) {
            proof {
                assert(wanted@ =~= seq![115u8]);
            }
            let mut digits: Vec<u8> = Vec::new();
            push_decimal(&mut digits, cell.style as u64);
            return Some(digits);
        }
        if wanted.len() == 1 && wanted[0] == 116u8 {
            proof {
                assert(wanted@ =~= seq![116u8]);
            }
            return match cell.written_cell_type() {
                Some(cell_type) => Some(cell_type.to_wire()),
                None => None,
            };
        }
        proof {
            if wanted@ == seq![114u8] || wanted@ == seq![115u8] || wanted@ == seq![116u8] {
                assert(wanted@.len() == 1);
            }
        }
        None
    }

    /// The raw, still-escaped text inside the cell's `<v>`, or `None` when it has none.
    pub fn raw_value(&self) -> (text: Option<&'a [u8]>)
        ensures
            optional_bytes(text) == value_text(self.model()),
    {
        proof {
            use_type_invariant(self);
        }
        let record = self.sheet.cell_record(self.index);
        if record.payload_shape() == PayloadShape::ValueText {
            Some(self.sheet.cell_payload_bytes(self.index))
        } else {
            None
        }
    }

    /// The shared-string index this cell names, for a cell whose `t` is `s`.
    ///
    /// `None` for any other type, and for an `s` cell whose `<v>` does not hold an index — which
    /// a file can do, and which this reports as absence rather than repairing.
    pub fn shared_string_index(&self) -> (index: Option<u32>)
        ensures
            index == if type_or_number(self.model().kind) == CellType::SharedString {
                match value_text(self.model()) {
                    Some(text) => parse_decimal_spec(text, u32::MAX),
                    None => None,
                }
            } else {
                None
            },
    {
        if self.cell_type() != CellType::SharedString {
            return None;
        }
        match self.raw_value() {
            Some(text) => parse_decimal(text, u32::MAX),
            None => None,
        }
    }

    /// The boolean this cell holds, for a cell whose `t` is `b`: `1` or `true`, `0` or `false`.
    pub fn boolean(&self) -> (flag: Option<bool>)
        ensures
            flag == if type_or_number(self.model().kind) == CellType::Boolean {
                match value_text(self.model()) {
                    Some(text) => if text == seq![49u8] || text == seq![116u8, 114u8, 117u8, 101u8] {
                        Some(true)
                    } else if text == seq![48u8] || text == seq![102u8, 97u8, 108u8, 115u8, 101u8] {
                        Some(false)
                    } else {
                        None
                    },
                    None => None,
                }
            } else {
                None
            },
    {
        if self.cell_type() != CellType::Boolean {
            return None;
        }
        let text = match self.raw_value() {
            Some(text) => text,
            None => {
                return None;
            },
        };
        let one = vec![49u8];
        let yes = vec![116u8, 114u8, 117u8, 101u8];
        let zero = vec![48u8];
        let no = vec![102u8, 97u8, 108u8, 115u8, 101u8];
        proof {
            assert(one@ =~= seq![49u8]);
            assert(yes@ =~= seq![116u8, 114u8, 117u8, 101u8]);
            assert(zero@ =~= seq![48u8]);
            assert(no@ =~= seq![102u8, 97u8, 108u8, 115u8, 101u8]);
        }
        if bytes_equal(text, one.as_slice()) || bytes_equal(text, yes.as_slice()) {
            Some(true)
        } else if bytes_equal(text, zero.as_slice()) || bytes_equal(text, no.as_slice()) {
            Some(false)
        } else {
            None
        }
    }

    /// The whole `<is>…</is>` of an inline-string cell, verbatim.
    pub fn inline_string_markup(&self) -> (markup: Option<&'a [u8]>)
        ensures
            optional_bytes(markup) == if shape_of_flags(self.model().flags)
                == PayloadShape::InlineString {
                Some(or_empty(self.model().payload))
            } else {
                None
            },
    {
        proof {
            use_type_invariant(self);
        }
        let record = self.sheet.cell_record(self.index);
        if record.payload_shape() == PayloadShape::InlineString {
            Some(self.sheet.cell_payload_bytes(self.index))
        } else {
            None
        }
    }

    /// The cell's `<f …>…</f>`, verbatim, or `None` if it has no formula.
    ///
    /// A formula is preserved byte for byte — its `t`, `ref`, `si`, `ca` and text alike — and
    /// nothing here reads into it.
    pub fn formula_markup(&self) -> (markup: Option<&'a [u8]>)
        ensures
            optional_bytes(markup) == self.model().formula,
    {
        proof {
            use_type_invariant(self);
        }
        self.sheet.cell_formula_bytes(self.index)
    }

    /// Whether this cell carries a formula.
    pub fn has_formula(&self) -> (has: bool)
        ensures
            has == self.model().formula is Some,
    {
        self.formula_markup().is_some()
    }

    /// Everything the cell holds **before** its value element — its formula, and any markup this
    /// workspace does not model that the file put ahead of the value.
    pub fn markup_before_value(&self) -> (markup: &'a [u8])
        ensures
            markup@ == or_empty(self.model().before_payload),
    {
        proof {
            use_type_invariant(self);
        }
        self.sheet.cell_before_payload_bytes(self.index)
    }

    /// Everything the cell holds **after** its value element — its `extLst`, and any other markup
    /// this workspace does not model.
    pub fn markup_after_value(&self) -> (markup: &'a [u8])
        ensures
            markup@ == or_empty(self.model().after_payload),
    {
        proof {
            use_type_invariant(self);
        }
        self.sheet.cell_after_payload_bytes(self.index)
    }

    /// The bytes between the previous sibling and this cell — the whitespace a pretty-printer
    /// wrote, a comment, or an element that is not a `c`.
    pub fn leading_markup(&self) -> (markup: &'a [u8])
        ensures
            markup@ == or_empty(self.model().leading),
    {
        proof {
            use_type_invariant(self);
        }
        self.sheet.cell_leading_bytes(self.index)
    }

    /// Whether this cell can still be written straight out of the part's bytes.
    pub fn is_verbatim(&self) -> (verbatim: bool)
        ensures
            verbatim == self.model().extent is Some,
    {
        self.source_markup().is_some()
    }

    /// The bytes this cell occupied in the part, or `None` once it is edited or if it was
    /// authored.
    pub fn source_markup(&self) -> (bytes: Option<&'a [u8]>)
        ensures
            optional_bytes(bytes) == self.model().extent,
    {
        proof {
            use_type_invariant(self);
        }
        self.sheet.verbatim_cell(self.index)
    }

    /// This cell as it would be written.
    pub fn markup(&self) -> (markup: Vec<u8>)
        ensures
            markup@ == cell_markup(self.sheet()@.prefix, self.model()),
    {
        proof {
            use_type_invariant(self);
        }
        let mut out: Vec<u8> = Vec::new();
        write_cell(self.sheet, self.index, &mut out);
        out
    }
}

} // verus!
