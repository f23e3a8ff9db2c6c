//! [`SheetData`] itself: the rows, the cell arena, the sparse index and the edit surface.
//!
//! # What "sparse" means here, exactly
//!
//! Rows are stored **by their `r`, never by grid position**. A sheet whose only cell is
//! `XFD1048576` holds one row record and one cell record.
//!
//! The index that answers *"the cell at B7"* is the ordering itself: rows are kept in the order the
//! file wrote them, that order is ascending for every file any producer writes, and a flag records
//! whether it actually is. When it is, a lookup is a binary search; when a file wrote its rows or
//! its cells out of order, the lookup falls back to a scan of that one dimension: **the answer stays
//! right and nothing is re-sorted**.
//!
//! # Copy-on-write, three deep
//!
//! The sheet, each row and each cell carry a byte range of their own — the extent they occupied in
//! the part's source — and a range that is still present means "these bytes still say exactly this".
//! Every mutation clears the extent on the cell it touched, on its row and on the sheet.

use vstd::layout::size_of;
use vstd::prelude::*;
use vstd::string::StringSliceAdditionalSpecFns;
use vstd::string::is_ascii_spec_bytes;

use crate::address::{CellReference, CellSpans, spans_text};
use crate::arena::attributes::{set_attribute, set_attribute_spec};
use crate::arena::text::{MAXIMUM_ADDRESS, TextArena, TextSpan, too_large};
use crate::decimal::{parse_decimal, push_decimal};
use crate::escape::{escape_attribute_bytes, escape_text};
use crate::error::SmlError;

use super::edits::{
    blank_cell, decimal_of, dirtied, lemma_edited_cell, lemma_with_cell_at_same,
    lemma_with_cell_at_twice, optional_bytes, rewritten_run, run_growth, slot_cell, styled,
    with_cell_at, with_edited_cell, edit_cell_offset, edit_row_index, first_cell_right_of,
    first_row_above, holds_cell,
    lemma_first_cell_right_of, lemma_first_cell_right_of_is, lemma_first_row_above,
    lemma_first_row_above_is, lemma_insert_cell_ascending, lemma_insert_row_ascending, new_row,
    row_growth, row_number_of, row_number_run, row_slot_in, row_with_cell, with_cell, with_row,
    without_cell, without_row, attribute_growth, escaped_value, name_r, optional_text,
    row_with_attribute, run_or_empty, with_row_attribute, boolean_wire, name_hidden,
    payload_growth, type_growth, type_wire, value_kind, value_payload, value_shape, valued, cell_of,
};
use super::cell_type::CellType;
use super::view::{Cell, CellValue, Row};
use super::read::{
    SourceElement, SourceNode, first_element_named, read_sheet_data, sheet_read_outcome, source_view,
};
use super::write::{
    local_sheet_data, or_empty, sheet_markup, write_inline_string, write_sheet_data,
};
use super::model::{
    CellModel, RowModel, SheetModel, cell_model, cells_strictly_ascending, columns_ascend_in,
    extras_unshared, find_cell, find_row, lemma_find_cell, lemma_find_cell_found,
    lemma_find_cell_none, lemma_find_row, lemma_find_row_found, lemma_find_row_none,
    lemma_insert_cell, lemma_insert_row, lemma_row_ascends, lemma_rows_stable, lemma_span_stable,
    lemma_store_extends, lemma_unshared_insert, lemma_unshared_update, lemma_update_cell,
    lemma_update_extras, lemma_update_row, lemma_remove_cell, lemma_remove_row,
    lemma_unshared_remove, lemma_partition_order, rows_after_remove, rows_after_row_removal,
    lemma_extras_of_ok, extras_of,
    rows_after_insert,
    order_flags_hold, records_wf, row_model, rows_model, rows_strictly_ascending, span_bytes,
    span_ok,
};
use super::record::{
    CellExtras, CellFlags, CellTypeCode, PackedCell, PackedRow, PayloadShape, RowFlags, NO_EXTRAS,
    code_of, has_flag,
};

verus! {

/// `CT_SheetData` — every row and every cell of one worksheet, held as packed records over one byte
/// arena.
#[derive(Debug)]
pub struct SheetData {
    /// Every byte the store preserves, source and edited alike.
    arena: TextArena,
    /// The rows, in the order the file wrote them.
    rows: Vec<PackedRow>,
    /// Every row's cells, end to end.
    cells: Vec<PackedCell>,
    /// The rare per-cell data. Indices into this are stable across insertions.
    cell_extras: Vec<CellExtras>,
    /// The whole `<sheetData …>…</sheetData>`, or absent once anything is edited.
    extent: TextSpan,
    /// The `sheetData` start tag's attribute run.
    attributes: TextSpan,
    /// Bytes after the last row and before the end tag.
    trailing: TextSpan,
    /// The namespace prefix new elements are written with.
    prefix: Option<Vec<u8>>,
    /// Whether [`Self::rows`] is in strictly ascending `r` order.
    rows_ascending: bool,
    /// Whether the element was written `<sheetData/>`.
    self_closing: bool,
}

impl View for SheetData {
    type V = SheetModel;

    open spec fn view(&self) -> SheetModel {
        SheetModel {
            rows: rows_model(self.raw_arena(), self.raw_extras(), self.raw_cells(), self.raw_rows()),
            extent: span_bytes(self.raw_arena(), self.raw_extent()),
            attributes: span_bytes(self.raw_arena(), self.raw_attributes()),
            trailing: span_bytes(self.raw_arena(), self.raw_trailing()),
            prefix: self.raw_prefix(),
            rows_ascending: self.raw_rows_ascending(),
            self_closing: self.raw_self_closing(),
        }
    }
}

impl SheetData {
    /// The byte arena.
    pub closed spec fn raw_arena(&self) -> TextArena {
        self.arena
    }

    /// The row records.
    pub closed spec fn raw_rows(&self) -> Seq<PackedRow> {
        self.rows@
    }

    /// The cell records.
    pub closed spec fn raw_cells(&self) -> Seq<PackedCell> {
        self.cells@
    }

    /// The extras records.
    pub closed spec fn raw_extras(&self) -> Seq<CellExtras> {
        self.cell_extras@
    }

    /// The sheet's extent span.
    pub closed spec fn raw_extent(&self) -> TextSpan {
        self.extent
    }

    /// The sheet's attribute-run span.
    pub closed spec fn raw_attributes(&self) -> TextSpan {
        self.attributes
    }

    /// The sheet's trailing span.
    pub closed spec fn raw_trailing(&self) -> TextSpan {
        self.trailing
    }

    /// The prefix, as bytes.
    pub closed spec fn raw_prefix(&self) -> Option<Seq<u8>> {
        match self.prefix {
            Some(prefix) => Some(prefix@),
            None => None,
        }
    }

    /// The rows-ascending flag.
    pub closed spec fn raw_rows_ascending(&self) -> bool {
        self.rows_ascending
    }

    /// The self-closing flag.
    pub closed spec fn raw_self_closing(&self) -> bool {
        self.self_closing
    }

    /// How many bytes the store has authored.
    pub open spec fn edited_count(&self) -> nat {
        self.raw_arena().edit_bytes().len()
    }

    /// The model of the cell record at `index` in the flat cell arena.
    pub open spec fn cell_at(&self, index: int) -> CellModel {
        cell_model(self.raw_arena(), self.raw_extras(), self.raw_cells()[index])
    }

    /// How many bytes of the part the store reads from.
    pub open spec fn source_length(&self) -> nat {
        self.raw_arena().source_bytes().len()
    }

    /// How many bytes the store's address space holds: the part's, then its own.
    pub open spec fn space_used(&self) -> int {
        self.raw_arena().total()
    }

    /// Whether the row at `r` owns the cell record at `k`.
    pub open spec fn owns(&self, r: int, k: int) -> bool {
        &&& 0 <= r < self.raw_rows().len()
        &&& self.raw_rows()[r].first_cell <= k < self.raw_rows()[r].first_cell
            + self.raw_rows()[r].cell_count
    }

    /// What a cell record means in this store's arena.
    pub open spec fn model_of(&self, cell: PackedCell) -> CellModel {
        cell_model(self.raw_arena(), self.raw_extras(), cell)
    }

    /// What setting attribute `name` of the row numbered `number` to `value` leaves behind, given
    /// what the edit answered: the row is made sure of first, and then its attribute run rewritten;
    /// each step stores bytes, and the first that does not fit ends the edit there.
    pub open spec fn row_attribute_outcome(
        &self,
        after: SheetData,
        number: u32,
        name: Seq<u8>,
        value: Option<Seq<u8>>,
        done: Result<(), SmlError>,
    ) -> bool {
        let rows_grow = row_growth(self@.rows, number);
        let row = with_row(self@, number).rows[row_slot_in(self@.rows, number)];
        let growth = attribute_growth(row, name, value);
        &&& done is Ok <==> self.space_used() + rows_grow + growth <= MAXIMUM_ADDRESS
        &&& match done {
            Ok(()) => {
                &&& after@ == with_row_attribute(self@, number, name, value)
                &&& after.space_used() == self.space_used() + rows_grow + growth
            },
            Err(error) => if self.space_used() + rows_grow > MAXIMUM_ADDRESS {
                &&& after@ == self@
                &&& after.space_used() == self.space_used()
                &&& error == too_large(self.space_used(), rows_grow as int)
            } else {
                &&& after@ == with_row(self@, number)
                &&& after.space_used() == self.space_used() + rows_grow
                &&& error == too_large(self.space_used() + rows_grow, growth as int)
            },
        }
    }

    /// What writing `value` into the cell at `reference` leaves behind, given what the edit
    /// answered: the cell is made sure of first, then its value stored, then — when the type
    /// changed and the cell keeps a verbatim run — its `t` rewritten; each step stores bytes, and
    /// the first that does not fit ends the edit there.
    pub open spec fn cell_value_outcome(
        &self,
        after: SheetData,
        reference: CellReference,
        value: CellValue,
        done: Result<(), SmlError>,
    ) -> bool {
        let placed = self.space_used() + row_growth(self@.rows, row_number_of(reference));
        let cell = slot_cell(self@, reference);
        let prefix = self@.prefix;
        let stored = placed + payload_growth(value, prefix);
        let retyped = stored + type_growth(cell, value_kind(value));
        &&& done is Ok <==> retyped <= MAXIMUM_ADDRESS
        &&& match done {
            Ok(()) => {
                &&& after@ == with_edited_cell(self@, reference, valued(cell, value, prefix, true))
                &&& after.space_used() == retyped
            },
            Err(error) => if placed > MAXIMUM_ADDRESS {
                &&& after@ == self@
                &&& after.space_used() == self.space_used()
                &&& error == too_large(self.space_used(), placed - self.space_used())
            } else if stored > MAXIMUM_ADDRESS {
                &&& after@ == with_cell(self@, reference)
                &&& after.space_used() == placed
                &&& error == too_large(placed, stored - placed)
            } else {
                &&& after@ == with_edited_cell(self@, reference, valued(cell, value, prefix, false))
                &&& after.space_used() == stored
                &&& error == too_large(stored, retyped - stored)
            },
        }
    }

    /// Whether one more row and one more cell still fit the `u32` counts the records are indexed
    /// by.
    pub open spec fn has_room(&self) -> bool {
        &&& self.raw_rows().len() + 1 < NO_EXTRAS
        &&& self.raw_cells().len() + 1 < NO_EXTRAS
    }

    /// The store's invariant.
    ///
    /// The rows own consecutive, non-overlapping slices of the cell arena that together cover all
    /// of it; every `extra` index names a record of its own; every span is absent or fits the
    /// arena; and the order flags tell the truth.
    pub open spec fn wf(&self) -> bool {
        &&& records_wf(self.raw_arena(), self.raw_extras(), self.raw_cells(), self.raw_rows())
        &&& extras_unshared(self.raw_cells())
        &&& span_ok(self.raw_arena(), self.raw_extent())
        &&& span_ok(self.raw_arena(), self.raw_attributes())
        &&& span_ok(self.raw_arena(), self.raw_trailing())
        &&& order_flags_hold(self@)
    }
}

impl SheetData {
    /// An empty sheet, authored rather than read, whose elements will be written with `prefix`.
    ///
    /// Nothing here points at a source buffer, so every row it gains is written from the model.
    pub fn authored(prefix: Option<&str>) -> (sheet: Self)
        ensures
            sheet.wf(),
            sheet@.rows == Seq::<RowModel>::empty(),
            sheet@.extent is None,
            sheet@.attributes is None,
            sheet@.trailing is None,
            sheet@.prefix == (match prefix {
                Some(p) => Some(p.spec_bytes()),
                None => None,
            }),
            sheet@.rows_ascending,
            !sheet@.self_closing,
            sheet.edited_count() == 0,
            sheet.source_length() == 0,
            sheet.space_used() == 0,
            sheet.raw_cells().len() == 0,
    {
        let prefix = match prefix {
            Some(p) => Some(vstd::slice::slice_to_vec(p.as_bytes())),
            None => None,
        };
        let sheet = SheetData {
            arena: TextArena::default(),
            rows: Vec::new(),
            cells: Vec::new(),
            cell_extras: Vec::new(),
            extent: TextSpan::none(),
            attributes: TextSpan::none(),
            trailing: TextSpan::none(),
            prefix,
            rows_ascending: true,
            self_closing: false,
        };
        proof {
            assert(sheet@.rows =~= Seq::<RowModel>::empty());
        }
        sheet
    }

    /// A sheet over records just read: the arena and the three record arrays, the element's own
    /// extent, attribute run and trailing bytes, its prefix, and how it was closed. Whether the
    /// rows ascend is worked out here, from the records themselves.
    pub(crate) fn assemble(
        arena: TextArena,
        rows: Vec<PackedRow>,
        cells: Vec<PackedCell>,
        cell_extras: Vec<CellExtras>,
        extent: TextSpan,
        attributes: TextSpan,
        trailing: TextSpan,
        prefix: Option<Vec<u8>>,
        self_closing: bool,
    ) -> (sheet: Self)
        requires
            records_wf(arena, cell_extras@, cells@, rows@),
            extras_unshared(cells@),
            span_ok(arena, extent),
            span_ok(arena, attributes),
            span_ok(arena, trailing),
            forall|i: int|
                0 <= i < rows@.len() && has_flag(#[trigger] rows@[i].flags, 4u8) ==> columns_ascend_in(
                    cells@,
                    rows@[i].first_cell as int,
                    rows@[i].first_cell + rows@[i].cell_count,
                ),
        ensures
            sheet.wf(),
            sheet.raw_arena() == arena,
            sheet@.rows == rows_model(arena, cell_extras@, cells@, rows@),
            sheet@.extent == span_bytes(arena, extent),
            sheet@.attributes == span_bytes(arena, attributes),
            sheet@.trailing == span_bytes(arena, trailing),
            sheet@.prefix == (match prefix {
                Some(p) => Some(p@),
                None => None,
            }),
            sheet@.self_closing == self_closing,
            sheet@.rows_ascending == rows_strictly_ascending(sheet@.rows),
    {
        let rows_ascending = numbers_ascend(&rows);
        let sheet = SheetData {
            arena,
            rows,
            cells,
            cell_extras,
            extent,
            attributes,
            trailing,
            prefix,
            rows_ascending,
            self_closing,
        };
        proof {
            let model = sheet@;
            lemma_numbers_ascend(model.rows, sheet.rows@);
            assert forall|i: int|
                0 <= i < model.rows.len() && has_flag(#[trigger] model.rows[i].flags, 4u8)
                    implies cells_strictly_ascending(model.rows[i].cells) by {
                lemma_row_ascends(sheet.arena, sheet.cell_extras@, sheet.cells@, sheet.rows@[i]);
            }
        }
        sheet
    }

    /// Reads a `sheetData` element into the store.
    ///
    /// `source` is the buffer the element's byte ranges were measured against. Without it every
    /// row is still read correctly; it simply has no bytes to re-emit verbatim from, so a save
    /// reflows.
    ///
    /// # Errors
    ///
    /// [`SmlError::Address`] for a `c@r` that is not a cell reference — the store is *keyed* on
    /// that value. [`SmlError::SheetDataTooLarge`] for a part beyond the `u32` byte space.
    /// Everything else a file can get wrong — a row out of order, a duplicate reference, a `c@r`
    /// that names a different row than its `row@r` does, a `t` that disagrees with the child
    /// element present — is **preserved as read** and reported by [`anomalies`](Self::anomalies).
    pub fn read(element: &SourceElement, source: Option<Vec<u8>>) -> (read: Result<Self, SmlError>)
        ensures
            sheet_read_outcome(*element, source_view(source), read),
    {
        read_sheet_data(element, source)
    }

    /// Reads the `sheetData` of a worksheet whose root element is `root`: the first child element
    /// named `sheetData`, or `Ok(None)` for a worksheet that has none, which the schema permits.
    ///
    /// # Errors
    ///
    /// [`SmlError`] as [`read`](Self::read).
    pub fn read_worksheet(root: &SourceElement, source: Option<Vec<u8>>) -> (read: Result<
        Option<Self>,
        SmlError,
    >)
        ensures
            match first_element_named(root.children@, local_sheet_data(), 0) {
                None => read == Ok::<Option<SheetData>, SmlError>(None),
                Some(element) => match read {
                    Ok(Some(sheet)) => sheet_read_outcome(element, source_view(source), Ok(sheet)),
                    Ok(None) => false,
                    Err(error) => sheet_read_outcome(element, source_view(source), Err(error)),
                },
            },
    {
        let name: Vec<u8> = vec![115u8, 104u8, 101u8, 101u8, 116u8, 68u8, 97u8, 116u8, 97u8];
        proof {
            assert(name@ =~= local_sheet_data());
        }
        let mut i: usize = 0;
        while i < root.children.len()
            invariant
                i <= root.children@.len(),
                name@ == local_sheet_data(),
                first_element_named(root.children@, local_sheet_data(), 0) == first_element_named(
                    root.children@,
                    local_sheet_data(),
                    i as int,
                ),
            decreases root.children@.len() - i,
        {
            if let SourceNode::Element(element) = &root.children[i] {
                if crate::arena::attributes::bytes_equal(element.local.as_slice(), name.as_slice()) {
                    return match read_sheet_data(element, source) {
                        Ok(sheet) => Ok(Some(sheet)),
                        Err(error) => Err(error),
                    };
                }
            }
            i = i + 1;
        }
        Ok(None)
    }

    /// How many rows the sheet holds — populated rows, not addressable ones.
    pub fn row_count(&self) -> (count: usize)
        ensures
            count == self@.rows.len(),
    {
        self.rows.len()
    }

    /// How many cells the sheet holds, across every row.
    pub fn cell_count(&self) -> (count: usize)
        ensures
            count == self.raw_cells().len(),
    {
        self.cells.len()
    }

    /// Whether the whole sheet can still be written straight out of the part's bytes.
    pub fn is_verbatim(&self) -> (verbatim: bool)
        ensures
            verbatim == (self@.extent is Some),
    {
        !self.extent.is_none()
    }

    /// How many bytes of its own the store has authored — zero until something is edited.
    pub fn edited_bytes(&self) -> (count: usize)
        ensures
            count == self.edited_count(),
    {
        self.arena.edited_bytes()
    }

    /// Every row, in the order the file wrote them.
    pub fn rows(&self) -> (rows: Vec<Row<'_>>)
        requires
            self.wf(),
        ensures
            rows@.len() == self@.rows.len(),
            forall|i: int| 0 <= i < rows@.len() ==> (#[trigger] rows@[i]).model() == self@.rows[i],
    {
        let count = self.rows.len();
        let mut rows: Vec<Row<'_>> = Vec::new();
        let mut index: usize = 0;
        while index < count
            invariant
                self.wf(),
                count == self@.rows.len(),
                index <= count,
                rows@.len() == index,
                forall|i: int| 0 <= i < index ==> (#[trigger] rows@[i]).model() == self@.rows[i],
            decreases count - index,
        {
            rows.push(Row::new(self, index));
            index = index + 1;
        }
        rows
    }

    /// Every cell of the sheet, row by row and in each row's own order.
    pub fn cells(&self) -> (cells: Vec<Cell<'_>>)
        requires
            self.wf(),
        ensures
            cells@.len() == self.raw_cells().len(),
            forall|k: int| 0 <= k < cells@.len() ==> (#[trigger] cells@[k]).model() == self.cell_at(k),
    {
        let count = self.cells.len();
        let mut cells: Vec<Cell<'_>> = Vec::new();
        let mut index: usize = 0;
        while index < count
            invariant
                self.wf(),
                count == self.raw_cells().len(),
                index <= count,
                cells@.len() == index,
                forall|k: int| 0 <= k < index ==> (#[trigger] cells@[k]).model() == self.cell_at(k),
            decreases count - index,
        {
            cells.push(Cell::new(self, index));
            index = index + 1;
        }
        cells
    }

    /// The row a file numbered `number` (one-based, as `row@r` writes it).
    ///
    /// A binary search when the rows are ascending; a scan otherwise. When a file wrote the same
    /// `r` twice, this answers with the **first** of them — both are kept.
    pub fn row(&self, number: u32) -> (found: Option<Row<'_>>)
        requires
            self.wf(),
        ensures
            match find_row(self@.rows, number, 0) {
                Some(k) => found matches Some(row) && row.model() == self@.rows[k],
                None => found is None,
            },
    {
        match self.row_position(number) {
            Some(index) => {
                proof {
                    lemma_find_row_found(self@.rows, number, 0);
                }
                Some(Row::new(self, index))
            },
            None => None,
        }
    }

    /// The cell at `reference`, or `None`.
    ///
    /// The row is found by the reference's row, and the column within it by the reference's
    /// column; **anchoring is not part of the key**, because `$B$7` and `B7` name the same cell.
    pub fn cell(&self, reference: CellReference) -> (found: Option<Cell<'_>>)
        requires
            self.wf(),
        ensures
            match cell_of(self@, reference) {
                Some(cell) => found matches Some(view) && view.model() == cell,
                None => found is None,
            },
    {
        let number = reference.row().saturating_add(1);
        proof {
            lemma_find_row_found(self@.rows, number, 0);
        }
        let row = match self.row_position(number) {
            Some(row) => row,
            None => {
                return None;
            },
        };
        let ghost column = reference.column_index() as u16;
        proof {
            lemma_find_cell_found(self@.rows[row as int].cells, column, 0);
        }
        match self.cell_position(row, reference.column()) {
            Some(index) => {
                proof {
                    let k = find_cell(self@.rows[row as int].cells, column, 0)->0;
                    self.lemma_cell_in_row(row as int, k);
                }
                Some(Cell::new(self, index))
            },
            None => None,
        }
    }

    /// Appends this sheet's `<sheetData>` element, bytes and all, to `out`.
    ///
    /// A sheet nobody edited is one copy out of the part's buffer. A sheet with one edited cell
    /// copies every untouched row verbatim and, inside the edited row, every untouched cell.
    pub fn write_into(&self, out: &mut Vec<u8>)
        requires
            self.wf(),
        ensures
            final(out)@ == old(out)@ + sheet_markup(self@),
    {
        write_sheet_data(self, out);
    }

    /// This sheet's `<sheetData>` element as bytes.
    pub fn to_markup(&self) -> (markup: Vec<u8>)
        requires
            self.wf(),
        ensures
            markup@ == sheet_markup(self@),
    {
        let mut out: Vec<u8> = Vec::new();
        self.write_into(&mut out);
        proof {
            assert(out@ =~= sheet_markup(self@));
        }
        out
    }

    /// The store's own heap footprint, in bytes, for **documentation** — the record arenas plus
    /// the bytes it has authored.
    ///
    /// It reports capacity the store *asked for*: how much the allocator gave is the allocator's
    /// business, so all this promises is that the figure covers every record the store holds and
    /// every byte it authored. The sum saturates rather than wrapping.
    pub fn reserved_bytes(&self) -> (reserved: usize)
        ensures
            reserved >= self.edited_count(),
            reserved == usize::MAX || reserved >= self.raw_rows().len() * size_of::<PackedRow>()
                + self.raw_cells().len() * size_of::<PackedCell>() + self.raw_extras().len()
                * size_of::<CellExtras>() + self.edited_count(),
    {
        let row_capacity = capacity_of(&self.rows);
        let cell_capacity = capacity_of(&self.cells);
        let extras_capacity = capacity_of(&self.cell_extras);
        let row_size = core::mem::size_of::<PackedRow>();
        let cell_size = core::mem::size_of::<PackedCell>();
        let extras_size = core::mem::size_of::<CellExtras>();
        let rows = match row_capacity.checked_mul(row_size) {
            Some(bytes) => bytes,
            None => usize::MAX,
        };
        let cells = match cell_capacity.checked_mul(cell_size) {
            Some(bytes) => bytes,
            None => usize::MAX,
        };
        let extras = match extras_capacity.checked_mul(extras_size) {
            Some(bytes) => bytes,
            None => usize::MAX,
        };
        let total = rows.saturating_add(cells).saturating_add(extras).saturating_add(
            self.arena.edited_bytes(),
        );
        proof {
            let rl = self.raw_rows().len();
            let cl = self.raw_cells().len();
            let el = self.raw_extras().len();
            assert(row_capacity * row_size >= rl * row_size) by (nonlinear_arith)
                requires
                    row_capacity >= rl,
            ;
            assert(cell_capacity * cell_size >= cl * cell_size) by (nonlinear_arith)
                requires
                    cell_capacity >= cl,
            ;
            assert(extras_capacity * extras_size >= el * extras_size) by (nonlinear_arith)
                requires
                    extras_capacity >= el,
            ;
        }
        total
    }

    /// The position of the row a file numbered `number`: the first such row.
    ///
    /// A binary search when the rows are ascending; a scan otherwise.
    pub fn row_position(&self, number: u32) -> (position: Option<usize>)
        requires
            self.wf(),
        ensures
            match find_row(self@.rows, number, 0) {
                Some(k) => position == Some(k as usize),
                None => position is None,
            },
    {
        let ghost rows = self@.rows;
        let length = self.rows.len();
        if self.rows_ascending {
            let mut low: usize = 0;
            let mut high: usize = length;
            while low < high
                invariant
                    rows == self@.rows,
                    length == rows.len(),
                    rows_strictly_ascending(rows),
                    low <= high <= length,
                    forall|i: int| 0 <= i < low ==> (#[trigger] rows[i]).number < number,
                    forall|i: int| high <= i < length ==> (#[trigger] rows[i]).number > number,
                decreases high - low,
            {
                let middle = low + (high - low) / 2;
                let found = self.rows[middle].number;
                assert(rows[middle as int].number == found);
                if found == number {
                    proof {
                        assert forall|i: int| 0 <= i < middle implies (#[trigger] rows[i]).number
                            != number by {
                            assert(rows[i].number < rows[middle as int].number);
                        }
                        lemma_find_row(rows, number, 0, middle as int);
                    }
                    return Some(middle);
                } else if found < number {
                    proof {
                        assert forall|i: int| 0 <= i < middle + 1 implies (#[trigger] rows[i]).number
                            < number by {
                            if i < middle {
                                assert(rows[i].number < rows[middle as int].number);
                            }
                        }
                    }
                    low = middle + 1;
                } else {
                    proof {
                        assert forall|i: int| middle <= i < length implies (#[trigger] rows[i]).number
                            > number by {
                            if i > middle {
                                assert(rows[middle as int].number < rows[i].number);
                            }
                        }
                    }
                    high = middle;
                }
            }
            proof {
                lemma_find_row_none(rows, number, 0);
            }
            return None;
        }
        let mut i: usize = 0;
        while i < length
            invariant
                rows == self@.rows,
                length == rows.len(),
                i <= length,
                forall|m: int| 0 <= m < i ==> (#[trigger] rows[m]).number != number,
            decreases length - i,
        {
            assert(rows[i as int].number == self.rows@[i as int].number);
            if self.rows[i].number == number {
                proof {
                    lemma_find_row(rows, number, 0, i as int);
                }
                return Some(i);
            }
            i = i + 1;
        }
        proof {
            lemma_find_row_none(rows, number, 0);
        }
        None
    }

    /// The position in the cell arena of `column` within the row at `row_index`: the first such
    /// cell of that row.
    pub fn cell_position(&self, row_index: usize, column: u16) -> (position: Option<usize>)
        requires
            self.wf(),
            row_index < self@.rows.len(),
        ensures
            match find_cell(self@.rows[row_index as int].cells, column, 0) {
                Some(k) => position == Some((self.raw_rows()[row_index as int].first_cell + k) as usize),
                None => position is None,
            },
    {
        let ghost cells = self@.rows[row_index as int].cells;
        let row = self.rows[row_index];
        assert(row.first_cell + row.cell_count <= self.cells@.len());
        let first = row.first_cell as usize;
        let count = row.cell_count as usize;
        assert(cells.len() == count);
        assert forall|k: int| 0 <= k < count implies #[trigger] cells[k] == self.cell_at(first + k) by {
        }
        if row.flags & RowFlags::CELLS_ASCENDING != 0 {
            assert(has_flag(self@.rows[row_index as int].flags, 4u8));
            assert(cells_strictly_ascending(cells));
            let mut low: usize = 0;
            let mut high: usize = count;
            while low < high
                invariant
                    cells == self@.rows[row_index as int].cells,
                    row_index < self@.rows.len(),
                    first == self.raw_rows()[row_index as int].first_cell,
                    count == cells.len(),
                    first + count <= self.cells@.len(),
                    forall|k: int| 0 <= k < count ==> #[trigger] cells[k] == self.cell_at(first + k),
                    cells_strictly_ascending(cells),
                    low <= high <= count,
                    forall|i: int| 0 <= i < low ==> (#[trigger] cells[i]).reference.column_index() < column,
                    forall|i: int| high <= i < count ==> (#[trigger] cells[i]).reference.column_index() > column,
                decreases high - low,
            {
                let middle = low + (high - low) / 2;
                assert(first + middle < self.cells.len());
                let found = self.cells[first + middle].reference.column();
                assert(cells[middle as int] == self.cell_at(first + middle));
                if found == column {
                    proof {
                        assert forall|i: int| 0 <= i < middle implies (#[trigger] cells[i]).reference.column_index()
                            != column by {
                            assert(cells[i].reference.column_index() < cells[middle as int].reference.column_index());
                        }
                        lemma_find_cell(cells, column, 0, middle as int);
                    }
                    return Some(first + middle);
                } else if found < column {
                    proof {
                        assert forall|i: int| 0 <= i < middle + 1 implies (#[trigger] cells[i]).reference.column_index()
                            < column by {
                            if i < middle {
                                assert(cells[i].reference.column_index() < cells[middle as int].reference.column_index());
                            }
                        }
                    }
                    low = middle + 1;
                } else {
                    proof {
                        assert forall|i: int| middle <= i < count implies (#[trigger] cells[i]).reference.column_index()
                            > column by {
                            if i > middle {
                                assert(cells[middle as int].reference.column_index() < cells[i].reference.column_index());
                            }
                        }
                    }
                    high = middle;
                }
            }
            proof {
                lemma_find_cell_none(cells, column, 0);
            }
            return None;
        }
        let mut i: usize = 0;
        while i < count
            invariant
                cells == self@.rows[row_index as int].cells,
                row_index < self@.rows.len(),
                first == self.raw_rows()[row_index as int].first_cell,
                count == cells.len(),
                first + count <= self.cells@.len(),
                forall|k: int| 0 <= k < count ==> #[trigger] cells[k] == self.cell_at(first + k),
                i <= count,
                forall|m: int| 0 <= m < i ==> (#[trigger] cells[m]).reference.column_index() != column,
            decreases count - i,
        {
            assert(cells[i as int] == self.cell_at(first + i));
            assert(first + i < self.cells.len());
            if self.cells[first + i].reference.column() == column {
                proof {
                    lemma_find_cell(cells, column, 0, i as int);
                }
                return Some(first + i);
            }
            i = i + 1;
        }
        proof {
            lemma_find_cell_none(cells, column, 0);
        }
        None
    }

    /// Where a new row numbered `number` goes: before the first row numbered above it.
    ///
    /// A binary search when the rows ascend; a scan otherwise.
    fn first_row_above_position(&self, number: u32) -> (at: usize)
        requires
            self.wf(),
            find_row(self@.rows, number, 0) is None,
        ensures
            at == first_row_above(self@.rows, number, 0),
    {
        let ghost rows = self@.rows;
        let length = self.rows.len();
        proof {
            lemma_find_row_found(rows, number, 0);
        }
        if self.rows_ascending {
            let mut low: usize = 0;
            let mut high: usize = length;
            while low < high
                invariant
                    rows == self@.rows,
                    length == rows.len(),
                    rows_strictly_ascending(rows),
                    low <= high <= length,
                    forall|i: int| 0 <= i < length ==> (#[trigger] rows[i]).number != number,
                    forall|i: int| 0 <= i < low ==> (#[trigger] rows[i]).number < number,
                    forall|i: int| high <= i < length ==> (#[trigger] rows[i]).number > number,
                decreases high - low,
            {
                let middle = low + (high - low) / 2;
                assert(rows[middle as int].number == self.rows@[middle as int].number);
                if self.rows[middle].number < number {
                    proof {
                        assert forall|i: int| 0 <= i < middle + 1 implies (#[trigger] rows[i]).number
                            < number by {
                            if i < middle {
                                assert(rows[i].number < rows[middle as int].number);
                            }
                        }
                    }
                    low = middle + 1;
                } else {
                    proof {
                        assert forall|i: int| middle <= i < length implies (#[trigger] rows[i]).number
                            > number by {
                            if i > middle {
                                assert(rows[middle as int].number < rows[i].number);
                            }
                        }
                    }
                    high = middle;
                }
            }
            proof {
                lemma_first_row_above_is(rows, number, 0, low as int);
            }
            return low;
        }
        let mut i: usize = 0;
        while i < length
            invariant
                rows == self@.rows,
                length == rows.len(),
                i <= length,
                forall|m: int| 0 <= m < i ==> (#[trigger] rows[m]).number <= number,
            decreases length - i,
        {
            assert(rows[i as int].number == self.rows@[i as int].number);
            if self.rows[i].number > number {
                proof {
                    lemma_first_row_above_is(rows, number, 0, i as int);
                }
                return i;
            }
            i = i + 1;
        }
        proof {
            lemma_first_row_above_is(rows, number, 0, length as int);
        }
        length
    }

    /// The position of the row a file numbered `number`, creating an empty one in ascending
    /// position if there is none.
    ///
    /// # Errors
    ///
    /// [`SmlError::SheetDataTooLarge`] when the new row's attribute run does not fit the store's
    /// byte space; the sheet is then unchanged.
    fn row_slot(&mut self, number: u32) -> (slot: Result<usize, SmlError>)
        requires
            old(self).wf(),
            old(self).has_room(),
        ensures
            final(self).source_length() == old(self).source_length(),
            final(self).wf(),
            final(self).raw_cells() == old(self).raw_cells(),
            final(self).raw_extras() == old(self).raw_extras(),
            slot is Ok <==> old(self).space_used() + row_growth(old(self)@.rows, number)
                <= MAXIMUM_ADDRESS,
            match slot {
                Ok(index) => {
                    &&& index == row_slot_in(old(self)@.rows, number)
                    &&& index < final(self).raw_rows().len()
                    &&& final(self)@ == with_row(old(self)@, number)
                    &&& final(self).space_used() == old(self).space_used() + row_growth(
                        old(self)@.rows,
                        number,
                    )
                },
                Err(error) => {
                    &&& final(self)@ == old(self)@
                    &&& final(self).space_used() == old(self).space_used()
                    &&& error == too_large(
                        old(self).space_used(),
                        row_growth(old(self)@.rows, number) as int,
                    )
                },
            },
    {
        proof {
            self.arena.lemma_bounded();
            lemma_find_row_found(self@.rows, number, 0);
        }
        match self.row_position(number) {
            Some(index) => {
                return Ok(index);
            },
            None => {},
        }
        let ghost rows = self@.rows;
        let at = self.first_row_above_position(number);
        proof {
            lemma_first_row_above(rows, number, 0);
            lemma_find_row_found(rows, number, 0);
        }
        let mut run: Vec<u8> = Vec::new();
        run.push(32u8);
        run.push(114u8);
        run.push(61u8);
        run.push(34u8);
        push_decimal(&mut run, number as u64);
        run.push(34u8);
        assert(run@ =~= row_number_run(number));
        let length = self.rows.len();
        let still_ascending = self.rows_ascending && (at == 0 || self.rows[at - 1].number < number)
            && (at >= length || number < self.rows[at].number);
        proof {
            if self.rows_ascending {
                if at > 0 {
                    assert(rows[at - 1].number <= number);
                }
            }
        }
        assert(still_ascending == self.rows_ascending);
        let first_cell = if at < length {
            self.rows[at].first_cell
        } else {
            self.cells.len() as u32
        };
        let ghost before = self.arena;
        let stored = self.arena.store(run.as_slice());
        let attributes = match stored {
            Ok(span) => span,
            Err(error) => {
                proof {
                    lemma_store_extends(before, self.arena, Seq::<u8>::empty());
                    lemma_rows_stable(before, self.arena, self.cell_extras@, self.cells@, self.rows@);
                    lemma_span_stable(before, self.arena, self.extent);
                    lemma_span_stable(before, self.arena, self.attributes);
                    lemma_span_stable(before, self.arena, self.trailing);
                }
                return Err(error);
            },
        };
        proof {
            lemma_store_extends(before, self.arena, run@);
            lemma_rows_stable(before, self.arena, self.cell_extras@, self.cells@, self.rows@);
            lemma_span_stable(before, self.arena, self.attributes);
            lemma_span_stable(before, self.arena, self.trailing);
        }
        let flags = RowFlags::HAS_NUMBER | RowFlags::CELLS_ASCENDING;
        assert(flags == 5u8) by (bit_vector)
            requires
                flags == 1u8 | 4u8,
        ;
        let row = PackedRow {
            number,
            first_cell,
            cell_count: 0,
            leading: TextSpan::none(),
            extent: TextSpan::none(),
            attributes,
            trailing: TextSpan::none(),
            flags,
        };
        let ghost old_rows = self.rows@;
        proof {
            lemma_insert_row(self.arena, self.cell_extras@, self.cells@, old_rows, at as int, row);
        }
        self.rows.insert(at, row);
        self.rows_ascending = still_ascending;
        self.extent = TextSpan::none();
        proof {
            let model = row_model(self.arena, self.cell_extras@, self.cells@, row);
            assert(model.cells =~= Seq::<CellModel>::empty());
            assert(model == new_row(number));
            assert(self@.rows == rows.insert(at as int, new_row(number)));
            if self.rows_ascending {
                lemma_insert_row_ascending(rows, number);
            }
            assert(has_flag(5u8, 4u8)) by (bit_vector);
            assert forall|i: int|
                0 <= i < self@.rows.len() && has_flag(#[trigger] self@.rows[i].flags, 4u8)
                    implies cells_strictly_ascending(self@.rows[i].cells) by {
                if i < at {
                    assert(self@.rows[i] == rows[i]);
                } else if i > at {
                    assert(self@.rows[i] == rows[i - 1]);
                }
            }
            assert(self@ == with_row(old(self)@, number));
        }
        Ok(at)
    }

    /// Where a new cell in `reference`'s column goes within the row at `row_index`: before the
    /// first cell right of it.
    ///
    /// A binary search when the row's cells ascend; a scan otherwise.
    fn first_cell_right_of_position(&self, row_index: usize, reference: CellReference) -> (offset:
        usize)
        requires
            self.wf(),
            row_index < self@.rows.len(),
            find_cell(self@.rows[row_index as int].cells, reference.column_index() as u16, 0) is None,
        ensures
            offset == first_cell_right_of(
                self@.rows[row_index as int].cells,
                reference.column_index(),
                0,
            ),
    {
        let ghost cells = self@.rows[row_index as int].cells;
        let column = reference.column();
        let row = self.rows[row_index];
        assert(row.first_cell + row.cell_count <= self.cells@.len());
        let first = row.first_cell as usize;
        let count = row.cell_count as usize;
        assert(cells.len() == count);
        assert forall|k: int| 0 <= k < count implies #[trigger] cells[k] == self.cell_at(first + k) by {
        }
        proof {
            lemma_find_cell_found(cells, column, 0);
        }
        if row.flags & RowFlags::CELLS_ASCENDING != 0 {
            assert(has_flag(self@.rows[row_index as int].flags, 4u8));
            assert(cells_strictly_ascending(cells));
            let mut low: usize = 0;
            let mut high: usize = count;
            while low < high
                invariant
                    cells == self@.rows[row_index as int].cells,
                    row_index < self@.rows.len(),
                    first == self.raw_rows()[row_index as int].first_cell,
                    count == cells.len(),
                    first + count <= self.cells@.len(),
                    column == reference.column_index(),
                    forall|k: int| 0 <= k < count ==> #[trigger] cells[k] == self.cell_at(first + k),
                    cells_strictly_ascending(cells),
                    low <= high <= count,
                    forall|i: int| 0 <= i < count ==> (#[trigger] cells[i]).reference.column_index() != column,
                    forall|i: int| 0 <= i < low ==> (#[trigger] cells[i]).reference.column_index() < column,
                    forall|i: int| high <= i < count ==> (#[trigger] cells[i]).reference.column_index() > column,
                decreases high - low,
            {
                let middle = low + (high - low) / 2;
                assert(first + middle < self.cells.len());
                assert(cells[middle as int] == self.cell_at(first + middle));
                if self.cells[first + middle].reference.column() < column {
                    proof {
                        assert forall|i: int| 0 <= i < middle + 1 implies (#[trigger] cells[i]).reference.column_index()
                            < column by {
                            if i < middle {
                                assert(cells[i].reference.column_index() < cells[middle as int].reference.column_index());
                            }
                        }
                    }
                    low = middle + 1;
                } else {
                    proof {
                        assert forall|i: int| middle <= i < count implies (#[trigger] cells[i]).reference.column_index()
                            > column by {
                            if i > middle {
                                assert(cells[middle as int].reference.column_index() < cells[i].reference.column_index());
                            }
                        }
                    }
                    high = middle;
                }
            }
            proof {
                lemma_first_cell_right_of_is(cells, reference.column_index(), 0, low as int);
            }
            return low;
        }
        let mut i: usize = 0;
        while i < count
            invariant
                cells == self@.rows[row_index as int].cells,
                row_index < self@.rows.len(),
                first == self.raw_rows()[row_index as int].first_cell,
                count == cells.len(),
                first + count <= self.cells@.len(),
                column == reference.column_index(),
                forall|k: int| 0 <= k < count ==> #[trigger] cells[k] == self.cell_at(first + k),
                i <= count,
                forall|m: int| 0 <= m < i ==> (#[trigger] cells[m]).reference.column_index() <= column,
            decreases count - i,
        {
            assert(cells[i as int] == self.cell_at(first + i));
            assert(first + i < self.cells.len());
            if self.cells[first + i].reference.column() > column {
                proof {
                    lemma_first_cell_right_of_is(cells, reference.column_index(), 0, i as int);
                }
                return i;
            }
            i = i + 1;
        }
        proof {
            lemma_first_cell_right_of_is(cells, reference.column_index(), 0, count as int);
        }
        count
    }

    /// The position of the cell at `reference` — its row, and its place in the cell arena —
    /// creating a blank one in ascending position, and the row it belongs to, if there is none.
    ///
    /// # Errors
    ///
    /// [`SmlError::SheetDataTooLarge`] when a new row's attribute run does not fit the store's
    /// byte space; the sheet is then unchanged.
    #[verifier::rlimit(60)]
    fn cell_slot(&mut self, reference: CellReference) -> (slot: Result<(usize, usize), SmlError>)
        requires
            old(self).wf(),
            old(self).has_room(),
        ensures
            final(self).source_length() == old(self).source_length(),
            final(self).wf(),
            final(self).raw_extras() == old(self).raw_extras(),
            slot is Ok <==> old(self).space_used() + row_growth(
                old(self)@.rows,
                row_number_of(reference),
            ) <= MAXIMUM_ADDRESS,
            match slot {
                Ok((row_index, index)) => {
                    &&& row_index == edit_row_index(old(self)@, reference)
                    &&& final(self)@ == with_cell(old(self)@, reference)
                    &&& final(self).space_used() == old(self).space_used() + row_growth(
                        old(self)@.rows,
                        row_number_of(reference),
                    )
                    &&& row_index < final(self).raw_rows().len()
                    &&& final(self).raw_rows()[row_index as int].first_cell <= index
                    &&& index < final(self).raw_rows()[row_index as int].first_cell
                        + final(self).raw_rows()[row_index as int].cell_count
                    &&& index - final(self).raw_rows()[row_index as int].first_cell
                        == edit_cell_offset(old(self)@, reference)
                },
                Err(error) => {
                    &&& final(self)@ == old(self)@
                    &&& final(self).space_used() == old(self).space_used()
                    &&& error == too_large(
                        old(self).space_used(),
                        row_growth(old(self)@.rows, row_number_of(reference)) as int,
                    )
                },
            },
    {
        let ghost start = self@;
        let number = reference.row().saturating_add(1);
        assert(number == row_number_of(reference));
        let row_index = match self.row_slot(number) {
            Ok(index) => index,
            Err(error) => {
                return Err(error);
            },
        };
        let ghost placed = self@;
        let ghost column16 = reference.column_index() as u16;
        proof {
            lemma_find_row_found(start.rows, number, 0);
            lemma_first_row_above(start.rows, number, 0);
            if find_row(start.rows, number, 0) is None {
                assert(placed.rows[row_index as int] == new_row(number));
                lemma_find_cell_none(placed.rows[row_index as int].cells, column16, 0);
            }
        }
        match self.cell_position(row_index, reference.column()) {
            Some(index) => {
                proof {
                    lemma_find_cell_found(placed.rows[row_index as int].cells, column16, 0);
                    assert(holds_cell(start, reference));
                }
                return Ok((row_index, index));
            },
            None => {},
        }
        proof {
            assert(!holds_cell(start, reference));
        }
        let offset = self.first_cell_right_of_position(row_index, reference);
        proof {
            lemma_first_cell_right_of(
                placed.rows[row_index as int].cells,
                reference.column_index(),
                0,
            );
        }
        let record = self.rows[row_index];
        let first = record.first_cell as usize;
        let at = first + offset;
        let cell = PackedCell {
            reference,
            extent: TextSpan::none(),
            payload: TextSpan::none(),
            style: 0,
            extra: NO_EXTRAS,
            kind: CellTypeCode::ABSENT,
            flags: CellFlags::HAS_REFERENCE,
        };
        let ghost old_cells = self.cells@;
        let ghost old_rows = self.rows@;
        proof {
            lemma_insert_cell(
                self.arena,
                self.cell_extras@,
                old_cells,
                old_rows,
                row_index as int,
                offset as int,
                cell,
            );
            lemma_unshared_insert(old_cells, at as int, cell);
        }
        assert(old_rows[row_index as int].first_cell + old_rows[row_index as int].cell_count
            <= old_cells.len());
        self.cells.insert(at, cell);
        assert(self.cells@ == old_cells.insert(old_rows[row_index as int].first_cell + offset, cell));
        let mut grown = record;
        grown.cell_count = record.cell_count + 1;
        self.rows.set(row_index, grown);
        proof {
            assert forall|j: int| row_index < j < self.rows@.len() implies (#[trigger] self.rows@[
                j]).first_cell < u32::MAX by {
                assert(self.rows@[j] == old_rows[j]);
                assert(old_rows[j].first_cell + old_rows[j].cell_count <= old_cells.len());
            }
        }
        shift_rows(&mut self.rows, row_index + 1, true, 1);
        assert(self.rows@ =~= rows_after_insert(old_rows, row_index as int));
        let ghost inserted = self@;
        proof {
            assert(placed.rows == rows_model(self.arena, self.cell_extras@, old_cells, old_rows));
            assert(inserted.rows == rows_model(self.arena, self.cell_extras@, self.cells@, self.rows@));
            assert(inserted.rows == placed.rows.update(
                row_index as int,
                RowModel {
                    cells: placed.rows[row_index as int].cells.insert(
                        offset as int,
                        cell_model(self.arena, self.cell_extras@, cell),
                    ),
                    ..placed.rows[row_index as int]
                },
            ));
            assert(cell_model(self.arena, self.cell_extras@, cell) == blank_cell(reference));
        }
        let mut updated = grown;
        if !grown.has(RowFlags::CELLS_ASCENDING) {
            let ascending = columns_ascend(&self.cells, first, grown.cell_count as usize);
            if ascending {
                updated.flags = grown.flags | RowFlags::CELLS_ASCENDING;
            }
        }
        updated.extent = TextSpan::none();
        let ghost ascending_now = cells_strictly_ascending(inserted.rows[row_index as int].cells);
        proof {
            lemma_row_ascends(self.arena, self.cell_extras@, self.cells@, grown);
            let was = placed.rows[row_index as int];
            if has_flag(was.flags, 4u8) {
                assert(cells_strictly_ascending(was.cells));
                lemma_insert_cell_ascending(was.cells, reference);
                assert(inserted.rows[row_index as int].cells == was.cells.insert(
                    offset as int,
                    blank_cell(reference),
                ));
                let f = was.flags;
                assert(f | 4u8 == f) by (bit_vector)
                    requires
                        f & 4u8 != 0,
                ;
            }
            let f = grown.flags;
            assert(has_flag(f | 4u8, 4u8)) by (bit_vector);
            assert(updated.flags == if ascending_now {
                grown.flags | 4u8
            } else {
                grown.flags
            });
            lemma_update_row(
                self.arena,
                self.cell_extras@,
                self.cells@,
                self.rows@,
                row_index as int,
                updated,
            );
        }
        self.rows.set(row_index, updated);
        self.extent = TextSpan::none();
        proof {
            let was = placed.rows[row_index as int];
            assert(inserted.rows[row_index as int].cells == was.cells.insert(
                offset as int,
                blank_cell(reference),
            ));
            assert(self@.rows[row_index as int] == row_with_cell(was, reference));
            assert(self@.rows == placed.rows.update(row_index as int, row_with_cell(was, reference)));
            assert forall|j: int|
                0 <= j < self@.rows.len() && has_flag(#[trigger] self@.rows[j].flags, 4u8)
                    implies cells_strictly_ascending(self@.rows[j].cells) by {
                if j != row_index {
                    assert(self@.rows[j] == placed.rows[j]);
                }
            }
            assert(self@ == with_cell(start, reference));
        }
        Ok((row_index, at))
    }

    /// Clears the copy-on-write extent of the row at `index` and of the sheet.
    fn dirty_row(&mut self, index: usize)
        requires
            old(self).wf(),
            index < old(self).raw_rows().len(),
        ensures
            final(self).source_length() == old(self).source_length(),
            final(self).wf(),
            final(self)@ == dirtied(old(self)@, index as int),
            final(self).space_used() == old(self).space_used(),
            final(self).raw_cells() == old(self).raw_cells(),
            final(self).raw_extras() == old(self).raw_extras(),
            same_slices(final(self).raw_rows(), old(self).raw_rows()),
    {
        let mut row = self.rows[index];
        row.extent = TextSpan::none();
        proof {
            lemma_update_row(self.arena, self.cell_extras@, self.cells@, self.rows@, index as int, row);
        }
        self.rows.set(index, row);
        self.extent = TextSpan::none();
        proof {
            assert(self@.rows == dirtied(old(self)@, index as int).rows);
            assert forall|i: int|
                0 <= i < self@.rows.len() && has_flag(#[trigger] self@.rows[i].flags, 4u8)
                    implies cells_strictly_ascending(self@.rows[i].cells) by {
                assert(self@.rows[i].cells == old(self)@.rows[i].cells);
            }
        }
    }

    /// Replaces the cell record at `index`, which the row at `row_index` owns, by `cell`, whose
    /// copy-on-write extent is already cleared, and clears that row's and the sheet's.
    fn put_cell(&mut self, row_index: usize, index: usize, cell: PackedCell)
        requires
            old(self).wf(),
            old(self).owns(row_index as int, index as int),
            cell.reference == old(self).raw_cells()[index as int].reference,
            cell.extra == old(self).raw_cells()[index as int].extra,
            cell.extent == TextSpan::none(),
            span_ok(old(self).raw_arena(), cell.payload),
        ensures
            final(self).source_length() == old(self).source_length(),
            final(self).wf(),
            final(self)@ == dirtied(
                with_cell_at(
                    old(self)@,
                    row_index as int,
                    index - old(self).raw_rows()[row_index as int].first_cell,
                    old(self).model_of(cell),
                ),
                row_index as int,
            ),
            final(self).space_used() == old(self).space_used(),
            final(self).raw_extras() == old(self).raw_extras(),
            final(self).raw_cells() == old(self).raw_cells().update(index as int, cell),
            same_slices(final(self).raw_rows(), old(self).raw_rows()),
    {
        let ghost r = row_index as int;
        let ghost k = index - self.rows@[r].first_cell;
        proof {
            lemma_update_cell(self.arena, self.cell_extras@, self.cells@, self.rows@, r, index as int, cell);
            lemma_unshared_update(self.cells@, index as int, cell);
        }
        self.cells.set(index, cell);
        proof {
            let updated = with_cell_at(old(self)@, r, k, cell_model(self.arena, self.cell_extras@, cell));
            assert(self@ == updated);
            assert forall|i: int|
                0 <= i < self@.rows.len() && has_flag(#[trigger] self@.rows[i].flags, 4u8)
                    implies cells_strictly_ascending(self@.rows[i].cells) by {
                if i == r {
                    assert(cells_strictly_ascending(old(self)@.rows[i].cells));
                    let before = old(self)@.rows[i].cells;
                    let after = self@.rows[i].cells;
                    assert forall|a: int, b: int| 0 <= a < b < after.len() implies (
                    #[trigger] after[a]).reference.column_index() < (#[trigger] after[b]).reference.column_index() by {
                        assert(before[a].reference.column_index() < before[b].reference.column_index());
                    }
                } else {
                    assert(self@.rows[i] == old(self)@.rows[i]);
                }
            }
        }
        self.dirty_row(row_index);
    }

    /// Rewrites one attribute of the cell at `index`, in place, when that cell replays a verbatim
    /// attribute run.
    ///
    /// A cell whose start tag this store would have written identically keeps no run at all — its
    /// tag is regenerated from `r`, `s` and `t` at write time, so there is nothing to rewrite.
    ///
    /// # Errors
    ///
    /// [`SmlError::SheetDataTooLarge`] when the rewritten run does not fit the store's byte space;
    /// the sheet is then unchanged.
    fn rewrite_cell_attribute(
        &mut self,
        row_index: usize,
        index: usize,
        name: &str,
        value: Option<&[u8]>,
    ) -> (done: Result<(), SmlError>)
        requires
            old(self).wf(),
            old(self).owns(row_index as int, index as int),
        ensures
            final(self).source_length() == old(self).source_length(),
            final(self).wf(),
            final(self).raw_rows() == old(self).raw_rows(),
            final(self).raw_cells() == old(self).raw_cells(),
            ({
                let r = row_index as int;
                let k = index - old(self).raw_rows()[r].first_cell;
                let cell = old(self)@.rows[r].cells[k];
                let growth = run_growth(cell.attributes, name.spec_bytes(), optional_bytes(value));
                &&& done is Ok <==> old(self).space_used() + growth <= MAXIMUM_ADDRESS
                &&& match done {
                    Ok(()) => {
                        &&& final(self)@ == with_cell_at(
                            old(self)@,
                            r,
                            k,
                            CellModel {
                                attributes: rewritten_run(
                                    cell.attributes,
                                    name.spec_bytes(),
                                    optional_bytes(value),
                                ),
                                ..cell
                            },
                        )
                        &&& final(self).space_used() == old(self).space_used() + growth
                    },
                    Err(error) => {
                        &&& final(self)@ == old(self)@
                        &&& final(self).space_used() == old(self).space_used()
                        &&& error == too_large(old(self).space_used(), growth as int)
                    },
                }
            }),
    {
        let ghost r = row_index as int;
        let ghost k = index - self.rows@[r].first_cell;
        let ghost cell = self@.rows[r].cells[k];
        proof {
            self.arena.lemma_bounded();
            assert(cell == cell_model(self.arena, self.cell_extras@, self.cells@[index as int]));
        }
        let extra = self.cells[index].extra;
        if extra == NO_EXTRAS {
            proof {
                assert(cell.attributes is None);
                lemma_with_cell_at_same(old(self)@, r, k);
            }
            return Ok(());
        }
        let run = self.cell_extras[extra as usize].attributes;
        if run.is_none() {
            proof {
                assert(cell.attributes is None);
                lemma_with_cell_at_same(old(self)@, r, k);
            }
            return Ok(());
        }
        let mut rewritten: Vec<u8> = Vec::new();
        set_attribute(self.arena.bytes(run), name, value, &mut rewritten);
        proof {
            assert(cell.attributes == Some(self.arena.resolve(run)));
            assert(rewritten@ =~= set_attribute_spec(self.arena.resolve(run), name.spec_bytes(), optional_bytes(value)));
        }
        let ghost before = self.arena;
        let stored = self.arena.store(rewritten.as_slice());
        let span = match stored {
            Ok(span) => span,
            Err(error) => {
                proof {
                    lemma_store_extends(before, self.arena, Seq::<u8>::empty());
                    lemma_rows_stable(before, self.arena, self.cell_extras@, self.cells@, self.rows@);
                    lemma_span_stable(before, self.arena, self.extent);
                    lemma_span_stable(before, self.arena, self.attributes);
                    lemma_span_stable(before, self.arena, self.trailing);
                }
                return Err(error);
            },
        };
        proof {
            lemma_store_extends(before, self.arena, rewritten@);
            lemma_rows_stable(before, self.arena, self.cell_extras@, self.cells@, self.rows@);
            lemma_span_stable(before, self.arena, self.extent);
            lemma_span_stable(before, self.arena, self.attributes);
            lemma_span_stable(before, self.arena, self.trailing);
        }
        let mut record = self.cell_extras[extra as usize];
        record.attributes = span;
        proof {
            let old_record = self.cell_extras@[extra as int];
            lemma_span_stable(before, self.arena, old_record.leading);
            lemma_span_stable(before, self.arena, old_record.formula);
            lemma_span_stable(before, self.arena, old_record.before_payload);
            lemma_span_stable(before, self.arena, old_record.after_payload);
            lemma_update_extras(
                self.arena,
                self.cell_extras@,
                self.cells@,
                self.rows@,
                r,
                index as int,
                record,
            );
        }
        self.cell_extras.set(extra as usize, record);
        proof {
            let rewritten_cell = CellModel {
                attributes: rewritten_run(cell.attributes, name.spec_bytes(), optional_bytes(value)),
                ..cell
            };
            assert(cell_model(self.arena, self.cell_extras@, self.cells@[index as int]) == rewritten_cell);
            assert(self@ == with_cell_at(old(self)@, r, k, rewritten_cell));
            assert forall|i: int|
                0 <= i < self@.rows.len() && has_flag(#[trigger] self@.rows[i].flags, 4u8)
                    implies cells_strictly_ascending(self@.rows[i].cells) by {
                if i == r {
                    assert(cells_strictly_ascending(old(self)@.rows[i].cells));
                    let was = old(self)@.rows[i].cells;
                    let now = self@.rows[i].cells;
                    assert forall|a: int, b: int| 0 <= a < b < now.len() implies (
                    #[trigger] now[a]).reference.column_index() < (#[trigger] now[b]).reference.column_index() by {
                        assert(was[a].reference.column_index() < was[b].reference.column_index());
                    }
                } else {
                    assert(self@.rows[i] == old(self)@.rows[i]);
                }
            }
        }
        Ok(())
    }

    /// Sets `c@s`, the `cellXfs` index, on the cell at `reference`, creating a blank cell — and
    /// its row — if there is none. `None` removes the attribute.
    ///
    /// # Errors
    ///
    /// [`SmlError::SheetDataTooLarge`] when what the edit stores does not fit the store's byte
    /// space: the new row's attribute run, or the cell's rewritten verbatim run.
    pub fn set_cell_style(&mut self, reference: CellReference, style: Option<u32>) -> (done: Result<
        (),
        SmlError,
    >)
        requires
            old(self).wf(),
            old(self).has_room(),
        ensures
            final(self).edited_count() >= old(self).edited_count(),
            final(self)@.extent is Some ==> old(self)@.extent is Some,
            done is Ok ==> final(self)@.extent is None,
            final(self).source_length() == old(self).source_length(),
            final(self).wf(),
            ({
                let rows_grow = row_growth(old(self)@.rows, row_number_of(reference));
                let cell = slot_cell(old(self)@, reference);
                let growth = run_growth(cell.attributes, seq![115u8], decimal_of(style));
                &&& done is Ok <==> old(self).space_used() + rows_grow + growth <= MAXIMUM_ADDRESS
                &&& match done {
                    Ok(()) => {
                        &&& final(self)@ == with_edited_cell(
                            old(self)@,
                            reference,
                            styled(cell, style, true),
                        )
                        &&& final(self).space_used() == old(self).space_used() + rows_grow + growth
                    },
                    Err(error) => if old(self).space_used() + rows_grow > MAXIMUM_ADDRESS {
                        &&& final(self)@ == old(self)@
                        &&& final(self).space_used() == old(self).space_used()
                        &&& error == too_large(old(self).space_used(), rows_grow as int)
                    } else {
                        &&& final(self)@ == with_edited_cell(
                            old(self)@,
                            reference,
                            styled(cell, style, false),
                        )
                        &&& final(self).space_used() == old(self).space_used() + rows_grow
                        &&& error == too_large(old(self).space_used() + rows_grow, growth as int)
                    },
                }
            }),
    {
        let (row_index, index) = match self.cell_slot(reference) {
            Ok(slot) => slot,
            Err(error) => {
                return Err(error);
            },
        };
        let ghost placed = self@;
        let ghost placed_model_of_cell = self.model_of(self.cells@[index as int]);
        let mut cell = self.cells[index];
        match style {
            Some(style) => {
                cell.style = style;
                cell.flags = cell.flags | CellFlags::HAS_STYLE;
            },
            None => {
                cell.style = 0;
                cell.flags = cell.flags & !CellFlags::HAS_STYLE;
            },
        }
        cell.extent = TextSpan::none();
        let ghost after_model_of_cell = self.model_of(cell);
        self.put_cell(row_index, index, cell);
        proof {
            let k = edit_cell_offset(old(self)@, reference);
            let was = slot_cell(old(self)@, reference);
            assert(placed.rows[row_index as int].cells[k] == was);
            assert(placed.rows[row_index as int].cells[k] == placed_model_of_cell);
            assert(styled(was, style, false) == after_model_of_cell);
            lemma_edited_cell(old(self)@, reference, styled(was, style, false));
        }
        let rendered: Option<Vec<u8>> = match style {
            Some(style) => {
                let mut text: Vec<u8> = Vec::new();
                push_decimal(&mut text, style as u64);
                Some(text)
            },
            None => None,
        };
        let value: Option<&[u8]> = match &rendered {
            Some(text) => Some(text.as_slice()),
            None => None,
        };
        proof {
            reveal_strlit("s");
            is_ascii_spec_bytes("s");
            assert("s".spec_bytes() =~= seq![115u8]);
            assert(optional_bytes(value) == decimal_of(style));
        }
        let ghost styled_cell = self@;
        let done = self.rewrite_cell_attribute(row_index, index, "s", value);
        proof {
            let r = edit_row_index(old(self)@, reference);
            let k = edit_cell_offset(old(self)@, reference);
            let was = slot_cell(old(self)@, reference);
            assert(styled_cell.rows[r].cells[k] == styled(was, style, false));
            if done is Ok {
                lemma_with_cell_at_twice(placed, r, k, styled(was, style, false), styled(was, style, true));
                lemma_edited_cell(old(self)@, reference, styled(was, style, true));
            }
        }
        done
    }

    /// Removes the cell at `reference`, and reports whether there was one.
    ///
    /// The row survives an empty of its cells: a `<row>` carries height, style and hidden-ness of
    /// its own, and removing the last cell from a row is not the same statement as removing the
    /// row.
    pub fn remove_cell(&mut self, reference: CellReference) -> (removed: bool)
        requires
            old(self).wf(),
        ensures
            final(self).edited_count() >= old(self).edited_count(),
            final(self)@.extent is Some ==> old(self)@.extent is Some,
            removed ==> final(self)@.extent is None,
            final(self).source_length() == old(self).source_length(),
            final(self).wf(),
            removed == holds_cell(old(self)@, reference),
            final(self)@ == without_cell(old(self)@, reference),
            final(self).space_used() == old(self).space_used(),
    {
        let ghost start = self@;
        let number = reference.row().saturating_add(1);
        proof {
            lemma_find_row_found(start.rows, number, 0);
        }
        let row_index = match self.row_position(number) {
            Some(row_index) => row_index,
            None => {
                return false;
            },
        };
        let ghost column16 = reference.column_index() as u16;
        proof {
            lemma_find_cell_found(start.rows[row_index as int].cells, column16, 0);
        }
        let index = match self.cell_position(row_index, reference.column()) {
            Some(index) => index,
            None => {
                return false;
            },
        };
        let ghost offset = index - self.rows@[row_index as int].first_cell;
        let ghost old_cells = self.cells@;
        let ghost old_rows = self.rows@;
        proof {
            lemma_remove_cell(self.arena, self.cell_extras@, old_cells, old_rows, row_index as int, offset);
            lemma_unshared_remove(old_cells, index as int, index + 1);
            assert(old_cells.remove(index as int) =~= old_cells.subrange(0, index as int)
                + old_cells.subrange(index + 1, old_cells.len() as int));
        }
        self.cells.remove(index);
        let mut row = self.rows[row_index];
        row.cell_count = row.cell_count - 1;
        self.rows.set(row_index, row);
        proof {
            assert forall|j: int| row_index + 1 <= j < self.rows@.len() implies (#[trigger] self.rows@[
                j]).first_cell >= 1 by {
                assert(self.rows@[j] == old_rows[j]);
                lemma_partition_order(old_rows, old_cells.len() as int, row_index as int, j);
            }
        }
        shift_rows(&mut self.rows, row_index + 1, false, 1);
        assert(self.rows@ =~= rows_after_remove(old_rows, row_index as int));
        proof {
            let r = row_index as int;
            let cells = start.rows[r].cells;
            assert(self@.rows == start.rows.update(
                r,
                RowModel { cells: cells.remove(offset), ..start.rows[r] },
            ));
            assert forall|j: int|
                0 <= j < self@.rows.len() && has_flag(#[trigger] self@.rows[j].flags, 4u8)
                    implies cells_strictly_ascending(self@.rows[j].cells) by {
                if j == r {
                    let now = self@.rows[j].cells;
                    assert forall|a: int, b: int| 0 <= a < b < now.len() implies (
                    #[trigger] now[a]).reference.column_index() < (#[trigger] now[b]).reference.column_index() by {
                        let a0 = if a < offset { a } else { a + 1 };
                        let b0 = if b < offset { b } else { b + 1 };
                        assert(cells[a0].reference.column_index() < cells[b0].reference.column_index());
                    }
                } else {
                    assert(self@.rows[j] == start.rows[j]);
                }
            }
        }
        self.dirty_row(row_index);
        true
    }

    /// Removes the row a file numbered `number`, with every cell in it, and reports whether there
    /// was one.
    pub fn remove_row(&mut self, number: u32) -> (removed: bool)
        requires
            old(self).wf(),
        ensures
            final(self).edited_count() >= old(self).edited_count(),
            final(self)@.extent is Some ==> old(self)@.extent is Some,
            removed ==> final(self)@.extent is None,
            final(self).source_length() == old(self).source_length(),
            final(self).wf(),
            removed == find_row(old(self)@.rows, number, 0) is Some,
            final(self)@ == without_row(old(self)@, number),
            final(self).space_used() == old(self).space_used(),
    {
        let ghost start = self@;
        proof {
            lemma_find_row_found(start.rows, number, 0);
        }
        let index = match self.row_position(number) {
            Some(index) => index,
            None => {
                return false;
            },
        };
        let record = self.rows[index];
        let first = record.first_cell as usize;
        let count = record.cell_count as usize;
        let ghost old_cells = self.cells@;
        let ghost old_rows = self.rows@;
        proof {
            lemma_remove_row(self.arena, self.cell_extras@, old_cells, old_rows, index as int);
            lemma_unshared_remove(old_cells, first as int, first + count);
        }
        let mut tail = self.cells.split_off(first + count);
        self.cells.truncate(first);
        self.cells.append(&mut tail);
        assert(self.cells@ =~= old_cells.subrange(0, first as int) + old_cells.subrange(
            first + count,
            old_cells.len() as int,
        ));
        self.rows.remove(index);
        proof {
            assert forall|j: int| index <= j < self.rows@.len() implies (#[trigger] self.rows@[
                j]).first_cell >= count by {
                assert(self.rows@[j] == old_rows[j + 1]);
                lemma_partition_order(old_rows, old_cells.len() as int, index as int, j + 1);
            }
        }
        shift_rows(&mut self.rows, index, false, count as u32);
        assert(self.rows@ =~= rows_after_row_removal(old_rows, index as int));
        self.extent = TextSpan::none();
        proof {
            assert(self@.rows == start.rows.remove(index as int));
            if self.rows_ascending {
                let now = self@.rows;
                assert forall|a: int, b: int| 0 <= a < b < now.len() implies #[trigger] now[a].number
                    < #[trigger] now[b].number by {
                    let a0 = if a < index { a } else { a + 1 };
                    let b0 = if b < index { b } else { b + 1 };
                    assert(start.rows[a0].number < start.rows[b0].number);
                }
            }
            assert forall|j: int|
                0 <= j < self@.rows.len() && has_flag(#[trigger] self@.rows[j].flags, 4u8)
                    implies cells_strictly_ascending(self@.rows[j].cells) by {
                if j < index {
                    assert(self@.rows[j] == start.rows[j]);
                } else {
                    assert(self@.rows[j] == start.rows[j + 1]);
                }
            }
        }
        true
    }

    /// Sets one of `CT_Row`'s attributes on the row a file numbered `number`, creating the row if
    /// there is none. `None` removes the attribute.
    ///
    /// The attribute run is edited in place — order, prefixes, quote characters and any attribute
    /// beside it are kept. `value` is escaped as an attribute value before it is written. Setting
    /// `r` moves the row in the index too: its number, and whether the rows still ascend, are
    /// re-derived from the value.
    ///
    /// # Errors
    ///
    /// [`SmlError::SheetDataTooLarge`] when what the edit stores does not fit the store's byte
    /// space: the new row's attribute run, or the rewritten one.
    pub fn set_row_attribute(&mut self, number: u32, name: &str, value: Option<&str>) -> (done:
        Result<(), SmlError>)
        requires
            old(self).wf(),
            old(self).has_room(),
        ensures
            final(self).edited_count() >= old(self).edited_count(),
            final(self)@.extent is Some ==> old(self)@.extent is Some,
            done is Ok ==> final(self)@.extent is None,
            final(self).source_length() == old(self).source_length(),
            final(self).wf(),
            old(self).row_attribute_outcome(
                *final(self),
                number,
                name.spec_bytes(),
                optional_text(value),
                done,
            ),
    {
        let bytes: Option<&[u8]> = match value {
            Some(text) => Some(text.as_bytes()),
            None => None,
        };
        self.write_row_attribute(number, name, bytes)
    }

    /// [`set_row_attribute`](Self::set_row_attribute), with the value given as bytes.
    fn write_row_attribute(&mut self, number: u32, name: &str, value: Option<&[u8]>) -> (done:
        Result<(), SmlError>)
        requires
            old(self).wf(),
            old(self).has_room(),
        ensures
            final(self).source_length() == old(self).source_length(),
            final(self).wf(),
            old(self).row_attribute_outcome(
                *final(self),
                number,
                name.spec_bytes(),
                optional_bytes(value),
                done,
            ),
    {
        let index = match self.row_slot(number) {
            Ok(index) => index,
            Err(error) => {
                return Err(error);
            },
        };
        let ghost placed = self@;
        let escaped: Option<Vec<u8>> = match value {
            Some(text) => Some(escape_attribute_bytes(text)),
            None => None,
        };
        let escaped_bytes: Option<&[u8]> = match &escaped {
            Some(text) => Some(text.as_slice()),
            None => None,
        };
        assert(optional_bytes(escaped_bytes) == escaped_value(optional_bytes(value)));
        let run = self.rows[index].attributes;
        let mut rewritten: Vec<u8> = Vec::new();
        set_attribute(self.arena.bytes(run), name, escaped_bytes, &mut rewritten);
        proof {
            let row = placed.rows[index as int];
            assert(self.arena.resolve(run) == run_or_empty(row.attributes));
            assert(rewritten@ =~= set_attribute_spec(
                run_or_empty(row.attributes),
                name.spec_bytes(),
                escaped_value(optional_bytes(value)),
            ));
        }
        let ghost before = self.arena;
        let stored = self.arena.store(rewritten.as_slice());
        let span = match stored {
            Ok(span) => span,
            Err(error) => {
                proof {
                    lemma_store_extends(before, self.arena, Seq::<u8>::empty());
                    lemma_rows_stable(before, self.arena, self.cell_extras@, self.cells@, self.rows@);
                    lemma_span_stable(before, self.arena, self.extent);
                    lemma_span_stable(before, self.arena, self.attributes);
                    lemma_span_stable(before, self.arena, self.trailing);
                }
                return Err(error);
            },
        };
        proof {
            lemma_store_extends(before, self.arena, rewritten@);
            lemma_rows_stable(before, self.arena, self.cell_extras@, self.cells@, self.rows@);
            lemma_span_stable(before, self.arena, self.extent);
            lemma_span_stable(before, self.arena, self.attributes);
            lemma_span_stable(before, self.arena, self.trailing);
            lemma_span_stable(before, self.arena, self.rows@[index as int].leading);
            lemma_span_stable(before, self.arena, self.rows@[index as int].extent);
            lemma_span_stable(before, self.arena, self.rows@[index as int].trailing);
        }
        let mut row = self.rows[index];
        row.attributes = span;
        let name_bytes = name.as_bytes();
        let is_number = name_bytes.len() == 1 && name_bytes[0] == 114u8;
        assert(is_number == (name.spec_bytes() == name_r())) by {
            if name.spec_bytes() == name_r() {
                assert(name_bytes@[0] == 114u8);
            }
            if is_number {
                assert(name_bytes@ =~= name_r());
            }
        }
        if is_number {
            let parsed = match value {
                Some(text) => parse_decimal(text, u32::MAX),
                None => None,
            };
            match parsed {
                Some(parsed) => {
                    row.number = parsed;
                    row.flags = row.flags | RowFlags::HAS_NUMBER;
                },
                None => {
                    row.number = 0;
                    row.flags = row.flags & !RowFlags::HAS_NUMBER;
                },
            }
        }
        row.extent = TextSpan::none();
        proof {
            lemma_update_row(self.arena, self.cell_extras@, self.cells@, self.rows@, index as int, row);
        }
        self.rows.set(index, row);
        let ghost target = with_row_attribute(old(self)@, number, name.spec_bytes(), optional_bytes(value));
        proof {
            let r = index as int;
            assert(self@.rows[r] == row_with_attribute(placed.rows[r], name.spec_bytes(), optional_bytes(value)));
            assert(self@.rows =~= target.rows);
        }
        if is_number {
            self.rows_ascending = numbers_ascend(&self.rows);
            proof {
                lemma_numbers_ascend(self@.rows, self.rows@);
            }
        }
        self.extent = TextSpan::none();
        proof {
            assert forall|j: int|
                0 <= j < self@.rows.len() && has_flag(#[trigger] self@.rows[j].flags, 4u8)
                    implies cells_strictly_ascending(self@.rows[j].cells) by {
                assert(self@.rows[j].cells == placed.rows[j].cells);
                if j == index {
                    let f = placed.rows[j].flags;
                    assert((f | 1u8) & 4u8 == f & 4u8) by (bit_vector);
                    assert((f & !1u8) & 4u8 == f & 4u8) by (bit_vector);
                }
            }
            assert(self@ == target);
            assert(with_row(old(self)@, number) == placed);
        }
        Ok(())
    }

    /// Sets `row@spans` on the row a file numbered `number`, or removes it with `None`.
    ///
    /// **Never derived.** There is deliberately no "compute the spans from the cells" call: `spans`
    /// is an advisory hint that some producers write and others do not, so a row whose source
    /// carried none must not gain one.
    ///
    /// # Errors
    ///
    /// As [`set_row_attribute`](Self::set_row_attribute).
    pub fn set_row_spans(&mut self, number: u32, spans: Option<&CellSpans>) -> (done: Result<
        (),
        SmlError,
    >)
        requires
            old(self).wf(),
            old(self).has_room(),
        ensures
            final(self).edited_count() >= old(self).edited_count(),
            final(self)@.extent is Some ==> old(self)@.extent is Some,
            done is Ok ==> final(self)@.extent is None,
            final(self).source_length() == old(self).source_length(),
            final(self).wf(),
            old(self).row_attribute_outcome(
                *final(self),
                number,
                "spans".spec_bytes(),
                match spans {
                    Some(spans) => Some(spans_text(spans@)),
                    None => None,
                },
                done,
            ),
    {
        let rendered: Option<Vec<u8>> = match spans {
            Some(spans) => Some(spans.to_text()),
            None => None,
        };
        let value: Option<&[u8]> = match &rendered {
            Some(text) => Some(text.as_slice()),
            None => None,
        };
        self.write_row_attribute(number, "spans", value)
    }

    /// Sets `row@hidden`, or removes it with `None`.
    ///
    /// # Errors
    ///
    /// As [`set_row_attribute`](Self::set_row_attribute).
    pub fn set_row_hidden(&mut self, number: u32, hidden: Option<bool>) -> (done: Result<
        (),
        SmlError,
    >)
        requires
            old(self).wf(),
            old(self).has_room(),
        ensures
            final(self).edited_count() >= old(self).edited_count(),
            final(self)@.extent is Some ==> old(self)@.extent is Some,
            done is Ok ==> final(self)@.extent is None,
            final(self).source_length() == old(self).source_length(),
            final(self).wf(),
            old(self).row_attribute_outcome(
                *final(self),
                number,
                name_hidden(),
                match hidden {
                    Some(flag) => Some(boolean_wire(flag)),
                    None => None,
                },
                done,
            ),
    {
        let value = match hidden {
            Some(flag) => Some(boolean_wire_value(flag)),
            None => None,
        };
        proof {
            reveal_strlit("hidden");
            is_ascii_spec_bytes("hidden");
            assert("hidden".spec_bytes() =~= name_hidden());
        }
        self.set_row_attribute(number, "hidden", value)
    }

    /// Sets `row@s`, the row's `cellXfs` index, or removes it with `None`.
    ///
    /// # Errors
    ///
    /// As [`set_row_attribute`](Self::set_row_attribute).
    pub fn set_row_style(&mut self, number: u32, style: Option<u32>) -> (done: Result<
        (),
        SmlError,
    >)
        requires
            old(self).wf(),
            old(self).has_room(),
        ensures
            final(self).edited_count() >= old(self).edited_count(),
            final(self)@.extent is Some ==> old(self)@.extent is Some,
            done is Ok ==> final(self)@.extent is None,
            final(self).source_length() == old(self).source_length(),
            final(self).wf(),
            old(self).row_attribute_outcome(*final(self), number, seq![115u8], decimal_of(style), done),
    {
        let rendered: Option<Vec<u8>> = match style {
            Some(style) => {
                let mut text: Vec<u8> = Vec::new();
                push_decimal(&mut text, style as u64);
                Some(text)
            },
            None => None,
        };
        let value: Option<&[u8]> = match &rendered {
            Some(digits) => Some(digits.as_slice()),
            None => None,
        };
        proof {
            reveal_strlit("s");
            is_ascii_spec_bytes("s");
            assert("s".spec_bytes() =~= seq![115u8]);
            assert(optional_bytes(value) == decimal_of(style));
        }
        self.write_row_attribute(number, "s", value)
    }

    /// Appends `bytes` to the arena, changing what no record means.
    ///
    /// # Errors
    ///
    /// [`SmlError::SheetDataTooLarge`] when they do not fit; the store is then unchanged.
    fn store_bytes(&mut self, bytes: &[u8]) -> (stored: Result<TextSpan, SmlError>)
        requires
            old(self).wf(),
        ensures
            final(self).source_length() == old(self).source_length(),
            final(self).wf(),
            final(self)@ == old(self)@,
            final(self).raw_rows() == old(self).raw_rows(),
            final(self).raw_cells() == old(self).raw_cells(),
            final(self).raw_extras() == old(self).raw_extras(),
            stored is Ok <==> old(self).space_used() + bytes@.len() <= MAXIMUM_ADDRESS,
            match stored {
                Ok(span) => {
                    &&& span_ok(final(self).raw_arena(), span)
                    &&& span_bytes(final(self).raw_arena(), span) == Some(bytes@)
                    &&& final(self).space_used() == old(self).space_used() + bytes@.len()
                },
                Err(error) => {
                    &&& final(self).space_used() == old(self).space_used()
                    &&& error == too_large(old(self).space_used(), bytes@.len() as int)
                },
            },
    {
        let ghost before = self.arena;
        let stored = self.arena.store(bytes);
        proof {
            match stored {
                Ok(_) => lemma_store_extends(before, self.arena, bytes@),
                Err(_) => lemma_store_extends(before, self.arena, Seq::<u8>::empty()),
            }
            lemma_rows_stable(before, self.arena, self.cell_extras@, self.cells@, self.rows@);
            lemma_span_stable(before, self.arena, self.extent);
            lemma_span_stable(before, self.arena, self.attributes);
            lemma_span_stable(before, self.arena, self.trailing);
        }
        stored
    }

    /// Stores `value`'s bytes and answers with their span, the element they are written in, and
    /// the `c@t` that goes with them.
    ///
    /// # Errors
    ///
    /// [`SmlError::SheetDataTooLarge`] when the bytes do not fit; the store is then unchanged.
    fn encode_value(&mut self, value: CellValue<'_>) -> (encoded: Result<
        (TextSpan, PayloadShape, Option<CellType>),
        SmlError,
    >)
        requires
            old(self).wf(),
        ensures
            final(self).source_length() == old(self).source_length(),
            final(self).wf(),
            final(self)@ == old(self)@,
            final(self).raw_rows() == old(self).raw_rows(),
            final(self).raw_cells() == old(self).raw_cells(),
            final(self).raw_extras() == old(self).raw_extras(),
            encoded is Ok <==> old(self).space_used() + payload_growth(value, old(self)@.prefix)
                <= MAXIMUM_ADDRESS,
            match encoded {
                Ok((span, shape, cell_type)) => {
                    &&& span_ok(final(self).raw_arena(), span)
                    &&& span_bytes(final(self).raw_arena(), span) == value_payload(
                        value,
                        old(self)@.prefix,
                    )
                    &&& shape == value_shape(value)
                    &&& value_kind(value) == match cell_type {
                        Some(cell_type) => code_of(cell_type),
                        None => 0u8,
                    }
                    &&& final(self).space_used() == old(self).space_used() + payload_growth(
                        value,
                        old(self)@.prefix,
                    )
                },
                Err(error) => {
                    &&& final(self).space_used() == old(self).space_used()
                    &&& error == too_large(
                        old(self).space_used(),
                        payload_growth(value, old(self)@.prefix) as int,
                    )
                },
            },
    {
        proof {
            self.arena.lemma_bounded();
        }
        let (bytes, shape, cell_type): (Vec<u8>, PayloadShape, Option<CellType>) = match value {
            CellValue::Blank => {
                return Ok((TextSpan::none(), PayloadShape::Absent, None));
            },
            CellValue::NumberText(text) => (escape_text(text), PayloadShape::ValueText, None),
            CellValue::SharedString(index) => {
                let mut digits: Vec<u8> = Vec::new();
                push_decimal(&mut digits, index as u64);
                (digits, PayloadShape::ValueText, Some(CellType::SharedString))
            },
            CellValue::Boolean(flag) => {
                let digit: Vec<u8> = if flag {
                    vec![49u8]
                } else {
                    vec![48u8]
                };
                (digit, PayloadShape::ValueText, Some(CellType::Boolean))
            },
            CellValue::Error(text) => (escape_text(text), PayloadShape::ValueText, Some(CellType::Error)),
            CellValue::FormulaString(text) => (
                escape_text(text),
                PayloadShape::ValueText,
                Some(CellType::FormulaString),
            ),
            CellValue::InlineString(text) => {
                let mut markup: Vec<u8> = Vec::new();
                let prefix: Option<&[u8]> = match &self.prefix {
                    Some(prefix) => Some(prefix.as_slice()),
                    None => None,
                };
                write_inline_string(prefix, text, &mut markup);
                (markup, PayloadShape::InlineString, Some(CellType::InlineString))
            },
        };
        assert(value_payload(value, old(self)@.prefix) == Some(bytes@));
        let span = match self.store_bytes(bytes.as_slice()) {
            Ok(span) => span,
            Err(error) => {
                return Err(error);
            },
        };
        Ok((span, shape, cell_type))
    }

    /// Sets the value of the cell at `reference`, creating the cell — and the row — if neither
    /// exists.
    ///
    /// The row and cell are placed in ascending order, so building a sheet the way a file is
    /// written (top to bottom, left to right) only ever appends. The cell's `t` follows the value;
    /// a cell that keeps a verbatim attribute run has it rewritten in place when the type changes.
    ///
    /// # Errors
    ///
    /// [`SmlError::SheetDataTooLarge`] when what the edit stores does not fit the store's byte
    /// space: a new row's attribute run, the value, or the rewritten run.
    pub fn set_cell_value(&mut self, reference: CellReference, value: CellValue<'_>) -> (done:
        Result<(), SmlError>)
        requires
            old(self).wf(),
            old(self).has_room(),
        ensures
            final(self).edited_count() >= old(self).edited_count(),
            final(self)@.extent is Some ==> old(self)@.extent is Some,
            done is Ok ==> final(self)@.extent is None,
            final(self).source_length() == old(self).source_length(),
            final(self).wf(),
            old(self).cell_value_outcome(*final(self), reference, value, done),
    {
        let (row_index, index) = match self.cell_slot(reference) {
            Ok(slot) => slot,
            Err(error) => {
                return Err(error);
            },
        };
        let ghost placed = self@;
        let ghost was = self.model_of(self.cells@[index as int]);
        let (payload, shape, cell_type) = match self.encode_value(value) {
            Ok(encoded) => encoded,
            Err(error) => {
                return Err(error);
            },
        };
        let previous_type = self.cells[index].kind;
        let mut cell = self.cells[index];
        cell.payload = payload;
        cell.set_payload_shape(shape);
        cell.kind = match cell_type {
            Some(cell_type) => CellTypeCode::of(cell_type),
            None => CellTypeCode::ABSENT,
        };
        let new_type = cell.kind;
        cell.extent = TextSpan::none();
        let ghost after_model_of_cell = self.model_of(cell);
        self.put_cell(row_index, index, cell);
        let ghost k = edit_cell_offset(old(self)@, reference);
        let ghost r = edit_row_index(old(self)@, reference);
        proof {
            let slot = slot_cell(old(self)@, reference);
            assert(placed.rows[r].cells[k] == slot);
            assert(was == slot);
            assert(valued(slot, value, old(self)@.prefix, false) == after_model_of_cell);
            lemma_edited_cell(old(self)@, reference, valued(slot, value, old(self)@.prefix, false));
        }
        if new_type != previous_type {
            let wire: Option<Vec<u8>> = match CellTypeCode::cell_type(new_type) {
                Some(cell_type) => Some(cell_type.to_wire()),
                None => None,
            };
            let wire_bytes: Option<&[u8]> = match &wire {
                Some(wire) => Some(wire.as_slice()),
                None => None,
            };
            proof {
                reveal_strlit("t");
                is_ascii_spec_bytes("t");
                assert("t".spec_bytes() =~= seq![116u8]);
                assert(optional_bytes(wire_bytes) == type_wire(new_type));
            }
            let ghost valued_cell = self@;
            let done = self.rewrite_cell_attribute(row_index, index, "t", wire_bytes);
            proof {
                let slot = slot_cell(old(self)@, reference);
                assert(valued_cell.rows[r].cells[k] == valued(slot, value, old(self)@.prefix, false));
                if done is Ok {
                    lemma_with_cell_at_twice(
                        placed,
                        r,
                        k,
                        valued(slot, value, old(self)@.prefix, false),
                        valued(slot, value, old(self)@.prefix, true),
                    );
                    lemma_edited_cell(old(self)@, reference, valued(slot, value, old(self)@.prefix, true));
                }
            }
            return done;
        }
        proof {
            let slot = slot_cell(old(self)@, reference);
            assert(valued(slot, value, old(self)@.prefix, false) == valued(slot, value, old(self)@.prefix, true));
        }
        Ok(())
    }
}

/// The doors the writer and the views read the store through: each answers in terms of the
/// model.
impl SheetData {
    /// The bytes an optional span covers, or nothing for an absent one.
    fn optional_span_bytes(&self, span: TextSpan) -> (bytes: Option<&[u8]>)
        requires
            self.wf(),
        ensures
            optional_bytes(bytes) == span_bytes(self.raw_arena(), span),
    {
        if span.is_none() {
            None
        } else {
            Some(self.arena.bytes(span))
        }
    }

    /// The row record at `index`.
    pub(crate) fn row_record(&self, index: usize) -> (row: PackedRow)
        requires
            index < self.raw_rows().len(),
        ensures
            row == self.raw_rows()[index as int],
    {
        self.rows[index]
    }

    /// The cell record at `index`.
    pub(crate) fn cell_record(&self, index: usize) -> (cell: PackedCell)
        requires
            index < self.raw_cells().len(),
        ensures
            cell == self.raw_cells()[index as int],
    {
        self.cells[index]
    }

    /// The extras record the cell at `index` names, or a blank one when it names none.
    fn extras_record(&self, index: usize) -> (record: CellExtras)
        requires
            self.wf(),
            index < self.raw_cells().len(),
        ensures
            record == extras_of(self.raw_extras(), self.raw_cells()[index as int]),
    {
        let extra = self.cells[index].extra;
        if extra == NO_EXTRAS {
            return CellExtras {
                attributes: TextSpan::none(),
                leading: TextSpan::none(),
                formula: TextSpan::none(),
                before_payload: TextSpan::none(),
                after_payload: TextSpan::none(),
            };
        }
        self.cell_extras[extra as usize]
    }

    /// The prefix new markup is written with.
    pub(crate) fn element_prefix(&self) -> (prefix: Option<&[u8]>)
        ensures
            optional_bytes(prefix) == self@.prefix,
    {
        match &self.prefix {
            Some(prefix) => Some(prefix.as_slice()),
            None => None,
        }
    }

    /// The whole sheet's bytes, if nothing in it has been touched.
    pub(crate) fn verbatim_sheet(&self) -> (bytes: Option<&[u8]>)
        requires
            self.wf(),
        ensures
            optional_bytes(bytes) == self@.extent,
    {
        self.optional_span_bytes(self.extent)
    }

    /// The `sheetData` start tag's attribute run.
    pub(crate) fn attribute_run(&self) -> (bytes: &[u8])
        requires
            self.wf(),
        ensures
            bytes@ == or_empty(self@.attributes),
    {
        self.arena.bytes(self.attributes)
    }

    /// The bytes after the last row and before the end tag.
    pub(crate) fn trailing_bytes(&self) -> (bytes: &[u8])
        requires
            self.wf(),
        ensures
            bytes@ == or_empty(self@.trailing),
    {
        self.arena.bytes(self.trailing)
    }

    /// Whether the `sheetData` element was written `<sheetData/>`.
    pub(crate) fn was_self_closing(&self) -> (closed: bool)
        ensures
            closed == self@.self_closing,
    {
        self.self_closing
    }

    /// The bytes between the previous row and the row at `index`.
    pub(crate) fn row_leading_bytes(&self, index: usize) -> (bytes: &[u8])
        requires
            self.wf(),
            index < self@.rows.len(),
        ensures
            bytes@ == or_empty(self@.rows[index as int].leading),
    {
        self.arena.bytes(self.rows[index].leading)
    }

    /// The row's bytes, if nothing in it has been touched.
    pub(crate) fn verbatim_row(&self, index: usize) -> (bytes: Option<&[u8]>)
        requires
            self.wf(),
            index < self@.rows.len(),
        ensures
            optional_bytes(bytes) == self@.rows[index as int].extent,
    {
        self.optional_span_bytes(self.rows[index].extent)
    }

    /// The row's attribute run.
    pub(crate) fn row_attribute_run(&self, index: usize) -> (bytes: &[u8])
        requires
            self.wf(),
            index < self@.rows.len(),
        ensures
            bytes@ == or_empty(self@.rows[index as int].attributes),
    {
        self.arena.bytes(self.rows[index].attributes)
    }

    /// The bytes after the row's last cell and before its end tag.
    pub(crate) fn row_trailing_bytes(&self, index: usize) -> (bytes: &[u8])
        requires
            self.wf(),
            index < self@.rows.len(),
        ensures
            bytes@ == or_empty(self@.rows[index as int].trailing),
    {
        self.arena.bytes(self.rows[index].trailing)
    }

    /// The cell's bytes, if it has not been touched.
    pub(crate) fn verbatim_cell(&self, index: usize) -> (bytes: Option<&[u8]>)
        requires
            self.wf(),
            index < self.raw_cells().len(),
        ensures
            optional_bytes(bytes) == self.cell_at(index as int).extent,
    {
        self.optional_span_bytes(self.cells[index].extent)
    }

    /// The cell's value bytes: the text inside its `<v>`, or its whole `<is>`.
    pub(crate) fn cell_payload_bytes(&self, index: usize) -> (bytes: &[u8])
        requires
            self.wf(),
            index < self.raw_cells().len(),
        ensures
            bytes@ == or_empty(self.cell_at(index as int).payload),
    {
        self.arena.bytes(self.cells[index].payload)
    }

    /// The verbatim attribute run of the cell at `index`, or `None` when the cell's start tag is
    /// regenerated from its decoded fields.
    pub(crate) fn cell_attribute_run(&self, index: usize) -> (bytes: Option<&[u8]>)
        requires
            self.wf(),
            index < self.raw_cells().len(),
        ensures
            optional_bytes(bytes) == self.cell_at(index as int).attributes,
    {
        let record = self.extras_record(index);
        proof {
            lemma_extras_of_ok(self.arena, self.cell_extras@, self.cells@[index as int]);
        }
        self.optional_span_bytes(record.attributes)
    }

    /// The bytes between the previous sibling and the cell at `index`.
    pub(crate) fn cell_leading_bytes(&self, index: usize) -> (bytes: &[u8])
        requires
            self.wf(),
            index < self.raw_cells().len(),
        ensures
            bytes@ == or_empty(self.cell_at(index as int).leading),
    {
        let record = self.extras_record(index);
        proof {
            lemma_extras_of_ok(self.arena, self.cell_extras@, self.cells@[index as int]);
        }
        self.arena.bytes(record.leading)
    }

    /// The cell's `<f>`, when it has one.
    pub(crate) fn cell_formula_bytes(&self, index: usize) -> (bytes: Option<&[u8]>)
        requires
            self.wf(),
            index < self.raw_cells().len(),
        ensures
            optional_bytes(bytes) == self.cell_at(index as int).formula,
    {
        let record = self.extras_record(index);
        proof {
            lemma_extras_of_ok(self.arena, self.cell_extras@, self.cells@[index as int]);
        }
        self.optional_span_bytes(record.formula)
    }

    /// The cell's children before its value element.
    pub(crate) fn cell_before_payload_bytes(&self, index: usize) -> (bytes: &[u8])
        requires
            self.wf(),
            index < self.raw_cells().len(),
        ensures
            bytes@ == or_empty(self.cell_at(index as int).before_payload),
    {
        let record = self.extras_record(index);
        proof {
            lemma_extras_of_ok(self.arena, self.cell_extras@, self.cells@[index as int]);
        }
        self.arena.bytes(record.before_payload)
    }

    /// The cell's children after its value element.
    pub(crate) fn cell_after_payload_bytes(&self, index: usize) -> (bytes: &[u8])
        requires
            self.wf(),
            index < self.raw_cells().len(),
        ensures
            bytes@ == or_empty(self.cell_at(index as int).after_payload),
    {
        let record = self.extras_record(index);
        proof {
            lemma_extras_of_ok(self.arena, self.cell_extras@, self.cells@[index as int]);
        }
        self.arena.bytes(record.after_payload)
    }

    /// The cell record at `index` is the `k`th cell of the row at `row` that owns it.
    pub proof fn lemma_cell_in_row(&self, row: int, k: int)
        requires
            self.wf(),
            0 <= row < self@.rows.len(),
            0 <= k < self@.rows[row].cells.len(),
        ensures
            self.raw_rows()[row].first_cell + k < self.raw_cells().len(),
            self@.rows[row].cells[k] == self.cell_at(self.raw_rows()[row].first_cell + k),
    {
        assert(self.raw_rows()[row].first_cell + self.raw_rows()[row].cell_count <= self.raw_cells().len());
    }
}

/// The canonical `xsd:boolean` spelling this crate writes.
fn boolean_wire_value(flag: bool) -> (wire: &'static str)
    ensures
        wire.spec_bytes() == boolean_wire(flag),
{
    proof {
        reveal_strlit("true");
        reveal_strlit("false");
        is_ascii_spec_bytes("true");
        is_ascii_spec_bytes("false");
        assert("true".spec_bytes() =~= boolean_wire(true));
        assert("false".spec_bytes() =~= boolean_wire(false));
    }
    if flag {
        "true"
    } else {
        "false"
    }
}

/// Whether the row records' numbers strictly ascend.
pub open spec fn numbers_ascend_in(rows: Seq<PackedRow>) -> bool {
    forall|a: int, b: int| 0 <= a < b < rows.len() ==> #[trigger] rows[a].number < #[trigger] rows[b].number
}

/// The rows' models ascend exactly when the records' numbers do.
pub(crate) proof fn lemma_numbers_ascend(models: Seq<RowModel>, rows: Seq<PackedRow>)
    requires
        models.len() == rows.len(),
        forall|i: int| 0 <= i < rows.len() ==> (#[trigger] models[i]).number == rows[i].number,
    ensures
        rows_strictly_ascending(models) == numbers_ascend_in(rows),
{
    if numbers_ascend_in(rows) {
        assert forall|a: int, b: int| 0 <= a < b < models.len() implies #[trigger] models[a].number
            < #[trigger] models[b].number by {
            assert(rows[a].number < rows[b].number);
        }
    }
    if rows_strictly_ascending(models) {
        assert forall|a: int, b: int| 0 <= a < b < rows.len() implies #[trigger] rows[a].number
            < #[trigger] rows[b].number by {
            assert(models[a].number < models[b].number);
        }
    }
}

/// Whether the rows' numbers strictly ascend: each one's below the next one's.
pub(crate) fn numbers_ascend(rows: &Vec<PackedRow>) -> (ascending: bool)
    ensures
        ascending == numbers_ascend_in(rows@),
{
    let count = rows.len();
    if count < 2 {
        return true;
    }
    let mut k: usize = 1;
    while k < count
        invariant
            1 <= k <= count,
            count == rows@.len(),
            numbers_ascend_in(rows@.subrange(0, k as int)),
        decreases count - k,
    {
        if rows[k - 1].number >= rows[k].number {
            proof {
                assert(rows@[k - 1].number >= rows@[k as int].number);
            }
            return false;
        }
        proof {
            let seen = rows@.subrange(0, k + 1);
            assert forall|a: int, b: int| 0 <= a < b < seen.len() implies #[trigger] seen[a].number
                < #[trigger] seen[b].number by {
                if b < k {
                    assert(rows@.subrange(0, k as int)[a] == seen[a]);
                    assert(rows@.subrange(0, k as int)[b] == seen[b]);
                } else if a < k - 1 {
                    assert(rows@.subrange(0, k as int)[a].number < rows@.subrange(0, k as int)[k - 1].number);
                }
            }
        }
        k = k + 1;
    }
    assert(rows@.subrange(0, count as int) =~= rows@);
    true
}

/// Whether two row arrays give every row the same slice of the cell arena.
pub open spec fn same_slices(a: Seq<PackedRow>, b: Seq<PackedRow>) -> bool {
    &&& a.len() == b.len()
    &&& forall|i: int|
        0 <= i < a.len() ==> (#[trigger] a[i]).first_cell == b[i].first_cell && a[i].cell_count
            == b[i].cell_count
}

/// Whether the cells `first..first + count` have strictly ascending columns: each one's column
/// lies left of the next one's.
pub(crate) fn columns_ascend(cells: &Vec<PackedCell>, first: usize, count: usize) -> (ascending: bool)
    requires
        first + count <= cells@.len(),
    ensures
        ascending == columns_ascend_in(cells@, first as int, first + count),
{
    if count < 2 {
        return true;
    }
    let total = cells.len();
    let mut k: usize = 1;
    while k < count
        invariant
            1 <= k <= count,
            total == cells@.len(),
            first + count <= cells@.len(),
            columns_ascend_in(cells@, first as int, first + k),
        decreases count - k,
    {
        assert(first + k < cells@.len());
        let next = first + k;
        if cells[next - 1].reference.column() >= cells[next].reference.column() {
            return false;
        }
        proof {
            assert forall|a: int, b: int| first <= a < b < first + k + 1 implies #[trigger] cells@[
                a].reference.column_index() < #[trigger] cells@[b].reference.column_index() by {
                if b == first + k && a < first + k - 1 {
                    assert(cells@[a].reference.column_index() < cells@[first + k
                        - 1].reference.column_index());
                }
            }
        }
        k = k + 1;
    }
    true
}

/// Moves the cell slices of the rows from `from` on by `by` cells: later when `later`, earlier
/// otherwise.
fn shift_rows(rows: &mut Vec<PackedRow>, from: usize, later: bool, by: u32)
    requires
        forall|j: int|
            from <= j < old(rows)@.len() ==> if later {
                (#[trigger] old(rows)@[j]).first_cell + by <= u32::MAX
            } else {
                (#[trigger] old(rows)@[j]).first_cell >= by
            },
    ensures
        final(rows)@.len() == old(rows)@.len(),
        forall|j: int|
            0 <= j < final(rows)@.len() ==> #[trigger] final(rows)@[j] == if j < from {
                old(rows)@[j]
            } else {
                PackedRow {
                    first_cell: if later {
                        (old(rows)@[j].first_cell + by) as u32
                    } else {
                        (old(rows)@[j].first_cell - by) as u32
                    },
                    ..old(rows)@[j]
                }
            },
{
    let length = rows.len();
    let mut i = from;
    while i < length
        invariant
            length == rows@.len(),
            length == old(rows)@.len(),
            from <= i,
            forall|j: int|
                from <= j < length ==> if later {
                    (#[trigger] old(rows)@[j]).first_cell + by <= u32::MAX
                } else {
                    (#[trigger] old(rows)@[j]).first_cell >= by
                },
            forall|j: int|
                0 <= j < length ==> #[trigger] rows@[j] == if j < from || j >= i {
                    old(rows)@[j]
                } else {
                    PackedRow {
                        first_cell: if later {
                            (old(rows)@[j].first_cell + by) as u32
                        } else {
                            (old(rows)@[j].first_cell - by) as u32
                        },
                        ..old(rows)@[j]
                    }
                },
        decreases length - i,
    {
        let mut row = rows[i];
        assert(row == old(rows)@[i as int]);
        if later {
            row.first_cell = row.first_cell + by;
        } else {
            row.first_cell = row.first_cell - by;
        }
        rows.set(i, row);
        i = i + 1;
    }
}

/// `Vec::capacity`: how many elements the vector can hold without reallocating — never fewer
/// than it holds. How many more is the allocator's business, and nothing is claimed of it.
#[verifier::external_body]
fn capacity_of<T>(items: &Vec<T>) -> (capacity: usize)
    ensures
        capacity >= items@.len(),
{
    items.capacity()
}

} // verus!
