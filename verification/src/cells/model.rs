//! The store seen without arena addresses: each row and cell as its bytes and decoded fields.
//!
//! [`SheetModel`] is what a [`SheetData`](super::store::SheetData) means. Every contract of the
//! store is stated over it, and the lemmas here say how the model of a record array changes when
//! one record is inserted, removed or replaced, and that storing into the arena never changes what
//! an existing record means.

use vstd::prelude::*;

use crate::address::CellReference;
use crate::arena::text::{TextArena, TextSpan, lemma_store_keeps_fitting_spans};

use super::record::{CellExtras, PackedCell, PackedRow, NO_EXTRAS, has_flag};

verus! {

/// The bytes a span stands for: `None` when it is absent, and what the arena resolves it to
/// otherwise.
pub open spec fn span_bytes(arena: TextArena, span: TextSpan) -> Option<Seq<u8>> {
    if span.absent() {
        None
    } else {
        Some(arena.resolve(span))
    }
}

/// Whether a span is absent or lies inside one half of the arena.
pub open spec fn span_ok(arena: TextArena, span: TextSpan) -> bool {
    span.absent() || arena.fits(span)
}

/// One cell as its bytes and decoded fields, with no arena addresses in it.
pub struct CellModel {
    /// `c@r`, or the position-derived address.
    pub reference: CellReference,
    /// The cell's own source bytes, while it is untouched.
    pub extent: Option<Seq<u8>>,
    /// The value's bytes: the text inside `<v>`, or a whole `<is>`.
    pub payload: Option<Seq<u8>>,
    /// `c@s`.
    pub style: u32,
    /// `c@t` as a code.
    pub kind: u8,
    /// The cell's flag bits.
    pub flags: u8,
    /// A verbatim start-tag attribute run, when the cell keeps one.
    pub attributes: Option<Seq<u8>>,
    /// The bytes before the cell.
    pub leading: Option<Seq<u8>>,
    /// The cell's `<f>`.
    pub formula: Option<Seq<u8>>,
    /// The children before the value element.
    pub before_payload: Option<Seq<u8>>,
    /// The children after the value element.
    pub after_payload: Option<Seq<u8>>,
}

/// One row as its bytes and decoded fields, and its cells in order.
pub struct RowModel {
    /// `row@r`, zero when not written.
    pub number: u32,
    /// The row's flag bits.
    pub flags: u8,
    /// The bytes before the row.
    pub leading: Option<Seq<u8>>,
    /// The row's own source bytes, while it is untouched.
    pub extent: Option<Seq<u8>>,
    /// The start tag's attribute run.
    pub attributes: Option<Seq<u8>>,
    /// The bytes after the last cell.
    pub trailing: Option<Seq<u8>>,
    /// The row's cells, in the order the file wrote them.
    pub cells: Seq<CellModel>,
}

/// A whole `sheetData`, with no arena addresses in it.
pub struct SheetModel {
    /// The rows, in the order the file wrote them.
    pub rows: Seq<RowModel>,
    /// The element's own source bytes, while nothing is edited.
    pub extent: Option<Seq<u8>>,
    /// The start tag's attribute run.
    pub attributes: Option<Seq<u8>>,
    /// The bytes after the last row.
    pub trailing: Option<Seq<u8>>,
    /// The namespace prefix new elements are written with.
    pub prefix: Option<Seq<u8>>,
    /// Whether the rows are known to be in strictly ascending `r` order.
    pub rows_ascending: bool,
    /// Whether the element was written `<sheetData/>`.
    pub self_closing: bool,
}

/// The record a cell's `extra` index names, or a blank one when it names none.
pub open spec fn extras_of(extras: Seq<CellExtras>, cell: PackedCell) -> CellExtras {
    if cell.extra != NO_EXTRAS && cell.extra < extras.len() {
        extras[cell.extra as int]
    } else {
        CellExtras {
            attributes: TextSpan::spec_none(),
            leading: TextSpan::spec_none(),
            formula: TextSpan::spec_none(),
            before_payload: TextSpan::spec_none(),
            after_payload: TextSpan::spec_none(),
        }
    }
}

/// A cell record seen through its arena.
pub open spec fn cell_model(arena: TextArena, extras: Seq<CellExtras>, cell: PackedCell) -> CellModel {
    let x = extras_of(extras, cell);
    CellModel {
        reference: cell.reference,
        extent: span_bytes(arena, cell.extent),
        payload: span_bytes(arena, cell.payload),
        style: cell.style,
        kind: cell.kind,
        flags: cell.flags,
        attributes: span_bytes(arena, x.attributes),
        leading: span_bytes(arena, x.leading),
        formula: span_bytes(arena, x.formula),
        before_payload: span_bytes(arena, x.before_payload),
        after_payload: span_bytes(arena, x.after_payload),
    }
}

/// A row record and the cells it owns, seen through the arena.
pub open spec fn row_model(
    arena: TextArena,
    extras: Seq<CellExtras>,
    cells: Seq<PackedCell>,
    row: PackedRow,
) -> RowModel {
    RowModel {
        number: row.number,
        flags: row.flags,
        leading: span_bytes(arena, row.leading),
        extent: span_bytes(arena, row.extent),
        attributes: span_bytes(arena, row.attributes),
        trailing: span_bytes(arena, row.trailing),
        cells: Seq::new(
            row.cell_count as nat,
            |k: int| cell_model(arena, extras, cells[row.first_cell + k]),
        ),
    }
}

/// The first row from `from` on whose number is `number`.
pub open spec fn find_row(rows: Seq<RowModel>, number: u32, from: int) -> Option<int>
    decreases rows.len() - from,
{
    if from < 0 || from >= rows.len() {
        None
    } else if rows[from].number == number {
        Some(from)
    } else {
        find_row(rows, number, from + 1)
    }
}

/// The first cell from `from` on whose column is `column`.
pub open spec fn find_cell(cells: Seq<CellModel>, column: u16, from: int) -> Option<int>
    decreases cells.len() - from,
{
    if from < 0 || from >= cells.len() {
        None
    } else if cells[from].reference.column_index() == column {
        Some(from)
    } else {
        find_cell(cells, column, from + 1)
    }
}

/// Whether the rows' numbers strictly ascend.
pub open spec fn rows_strictly_ascending(rows: Seq<RowModel>) -> bool {
    forall|i: int, j: int| 0 <= i < j < rows.len() ==> #[trigger] rows[i].number < #[trigger] rows[j].number
}

/// Whether the cells' columns strictly ascend.
pub open spec fn cells_strictly_ascending(cells: Seq<CellModel>) -> bool {
    forall|i: int, j: int|
        0 <= i < j < cells.len() ==> (#[trigger] cells[i]).reference.column_index() < (
        #[trigger] cells[j]).reference.column_index()
}

/// What the store's flags promise about order: ascending rows when the sheet says so, and
/// ascending cells in every row whose flag says so.
pub open spec fn order_flags_hold(model: SheetModel) -> bool {
    &&& model.rows_ascending ==> rows_strictly_ascending(model.rows)
    &&& forall|i: int|
        0 <= i < model.rows.len() && has_flag(#[trigger] model.rows[i].flags, 4u8)
            ==> cells_strictly_ascending(model.rows[i].cells)
}


/// `find_row` finds the first match at or after `from`.
pub proof fn lemma_find_row(rows: Seq<RowModel>, number: u32, from: int, k: int)
    requires
        0 <= from <= k < rows.len(),
        rows[k].number == number,
        forall|i: int| from <= i < k ==> (#[trigger] rows[i]).number != number,
    ensures
        find_row(rows, number, from) == Some(k),
    decreases k - from,
{
    if from < k {
        lemma_find_row(rows, number, from + 1, k);
    }
}

/// `find_row` finds nothing where nothing matches.
pub proof fn lemma_find_row_none(rows: Seq<RowModel>, number: u32, from: int)
    requires
        0 <= from,
        forall|i: int| from <= i < rows.len() ==> (#[trigger] rows[i]).number != number,
    ensures
        find_row(rows, number, from) is None,
    decreases rows.len() - from,
{
    if from < rows.len() {
        lemma_find_row_none(rows, number, from + 1);
    }
}

/// What `find_row` answers is a match, and nothing before it matches.
pub proof fn lemma_find_row_found(rows: Seq<RowModel>, number: u32, from: int)
    requires
        0 <= from,
    ensures
        find_row(rows, number, from) matches Some(k) ==> {
            &&& from <= k < rows.len()
            &&& rows[k].number == number
            &&& forall|i: int| from <= i < k ==> (#[trigger] rows[i]).number != number
        },
        find_row(rows, number, from) is None ==> forall|i: int|
            from <= i < rows.len() ==> (#[trigger] rows[i]).number != number,
    decreases rows.len() - from,
{
    if from < rows.len() {
        lemma_find_row_found(rows, number, from + 1);
    }
}

/// `find_cell` finds the first match at or after `from`.
pub proof fn lemma_find_cell(cells: Seq<CellModel>, column: u16, from: int, k: int)
    requires
        0 <= from <= k < cells.len(),
        cells[k].reference.column_index() == column,
        forall|i: int| from <= i < k ==> (#[trigger] cells[i]).reference.column_index() != column,
    ensures
        find_cell(cells, column, from) == Some(k),
    decreases k - from,
{
    if from < k {
        lemma_find_cell(cells, column, from + 1, k);
    }
}

/// `find_cell` finds nothing where nothing matches.
pub proof fn lemma_find_cell_none(cells: Seq<CellModel>, column: u16, from: int)
    requires
        0 <= from,
        forall|i: int| from <= i < cells.len() ==> (#[trigger] cells[i]).reference.column_index() != column,
    ensures
        find_cell(cells, column, from) is None,
    decreases cells.len() - from,
{
    if from < cells.len() {
        lemma_find_cell_none(cells, column, from + 1);
    }
}

/// What `find_cell` answers is a match, and nothing before it matches.
pub proof fn lemma_find_cell_found(cells: Seq<CellModel>, column: u16, from: int)
    requires
        0 <= from,
    ensures
        find_cell(cells, column, from) matches Some(k) ==> {
            &&& from <= k < cells.len()
            &&& cells[k].reference.column_index() == column
            &&& forall|i: int| from <= i < k ==> (#[trigger] cells[i]).reference.column_index() != column
        },
        find_cell(cells, column, from) is None ==> forall|i: int|
            from <= i < cells.len() ==> (#[trigger] cells[i]).reference.column_index() != column,
    decreases cells.len() - from,
{
    if from < cells.len() {
        lemma_find_cell_found(cells, column, from + 1);
    }
}


/// Every row record seen through the arena.
pub open spec fn rows_model(
    arena: TextArena,
    extras: Seq<CellExtras>,
    cells: Seq<PackedCell>,
    rows: Seq<PackedRow>,
) -> Seq<RowModel> {
    Seq::new(rows.len(), |i: int| row_model(arena, extras, cells, rows[i]))
}

/// Whether `after` holds `before`'s bytes at the same addresses: the same source, and the
/// authored bytes only grown at their end.
pub open spec fn extends(before: TextArena, after: TextArena) -> bool {
    &&& after.source_bytes() == before.source_bytes()
    &&& after.edit_bytes().len() >= before.edit_bytes().len()
    &&& after.edit_bytes().subrange(0, before.edit_bytes().len() as int) == before.edit_bytes()
}

/// Whether a row record's spans are absent or fit the arena.
pub open spec fn row_spans_ok(arena: TextArena, row: PackedRow) -> bool {
    &&& span_ok(arena, row.leading)
    &&& span_ok(arena, row.extent)
    &&& span_ok(arena, row.attributes)
    &&& span_ok(arena, row.trailing)
}

/// Whether a cell record's spans are absent or fit the arena.
pub open spec fn cell_spans_ok(arena: TextArena, cell: PackedCell) -> bool {
    &&& span_ok(arena, cell.extent)
    &&& span_ok(arena, cell.payload)
}

/// Whether an extras record's spans are absent or fit the arena.
pub open spec fn extras_spans_ok(arena: TextArena, extras: CellExtras) -> bool {
    &&& span_ok(arena, extras.attributes)
    &&& span_ok(arena, extras.leading)
    &&& span_ok(arena, extras.formula)
    &&& span_ok(arena, extras.before_payload)
    &&& span_ok(arena, extras.after_payload)
}

/// Whether the rows own consecutive slices of the cell arena that together cover it.
pub open spec fn partitioned(rows: Seq<PackedRow>, cell_count: int) -> bool {
    &&& (rows.len() == 0 ==> cell_count == 0)
    &&& (rows.len() > 0 ==> rows[0].first_cell == 0 && rows.last().first_cell
        + rows.last().cell_count == cell_count)
    &&& forall|i: int, j: int|
        #![trigger rows[i], rows[j]]
        0 <= i && j == i + 1 && j < rows.len() ==> rows[i].first_cell + rows[i].cell_count
            == rows[j].first_cell
}

/// The record arrays' invariant.
pub open spec fn records_wf(
    arena: TextArena,
    extras: Seq<CellExtras>,
    cells: Seq<PackedCell>,
    rows: Seq<PackedRow>,
) -> bool {
    &&& arena.wf()
    &&& cells.len() < NO_EXTRAS
    &&& extras.len() < NO_EXTRAS
    &&& rows.len() < NO_EXTRAS
    &&& partitioned(rows, cells.len() as int)
    &&& forall|i: int|
        0 <= i < rows.len() ==> #[trigger] rows[i].first_cell + rows[i].cell_count <= cells.len()
    &&& forall|k: int|
        0 <= k < cells.len() ==> (#[trigger] cells[k]).extra == NO_EXTRAS || cells[k].extra
            < extras.len()
    &&& forall|i: int| 0 <= i < rows.len() ==> row_spans_ok(arena, #[trigger] rows[i])
    &&& forall|k: int| 0 <= k < cells.len() ==> cell_spans_ok(arena, #[trigger] cells[k])
    &&& forall|e: int| 0 <= e < extras.len() ==> extras_spans_ok(arena, #[trigger] extras[e])
}

/// No two cells share an extras record, so rewriting one cell's record touches no other cell.
pub open spec fn extras_unshared(cells: Seq<PackedCell>) -> bool {
    forall|a: int, b: int|
        0 <= a < cells.len() && 0 <= b < cells.len() && a != b && cells[a].extra != NO_EXTRAS
            ==> #[trigger] cells[a].extra != #[trigger] cells[b].extra
}

/// A cell that names no extras record can be inserted anywhere without sharing one.
pub proof fn lemma_unshared_insert(cells: Seq<PackedCell>, at: int, cell: PackedCell)
    requires
        extras_unshared(cells),
        0 <= at <= cells.len(),
        cell.extra == NO_EXTRAS,
    ensures
        extras_unshared(cells.insert(at, cell)),
{
    let grown = cells.insert(at, cell);
    assert forall|a: int, b: int|
        0 <= a < grown.len() && 0 <= b < grown.len() && a != b && grown[a].extra != NO_EXTRAS
            implies #[trigger] grown[a].extra != #[trigger] grown[b].extra by {
        let a0 = if a < at { a } else { a - 1 };
        let b0 = if b < at { b } else { b - 1 };
        if b != at {
            assert(cells[a0].extra != cells[b0].extra);
        }
    }
}

/// Removing cells keeps the rest from sharing an extras record.
pub proof fn lemma_unshared_remove(cells: Seq<PackedCell>, from: int, to: int)
    requires
        extras_unshared(cells),
        0 <= from <= to <= cells.len(),
    ensures
        extras_unshared(cells.subrange(0, from) + cells.subrange(to, cells.len() as int)),
{
    let kept = cells.subrange(0, from) + cells.subrange(to, cells.len() as int);
    let gap = to - from;
    assert forall|a: int, b: int|
        0 <= a < kept.len() && 0 <= b < kept.len() && a != b && kept[a].extra != NO_EXTRAS
            implies #[trigger] kept[a].extra != #[trigger] kept[b].extra by {
        let a0 = if a < from { a } else { a + gap };
        let b0 = if b < from { b } else { b + gap };
        assert(kept[a] == cells[a0]);
        assert(kept[b] == cells[b0]);
        assert(cells[a0].extra != cells[b0].extra);
    }
}

/// Replacing a cell by one naming the same extras record keeps records unshared.
pub proof fn lemma_unshared_update(cells: Seq<PackedCell>, k: int, cell: PackedCell)
    requires
        extras_unshared(cells),
        0 <= k < cells.len(),
        cell.extra == cells[k].extra,
    ensures
        extras_unshared(cells.update(k, cell)),
{
    let changed = cells.update(k, cell);
    assert forall|a: int, b: int|
        0 <= a < changed.len() && 0 <= b < changed.len() && a != b && changed[a].extra != NO_EXTRAS
            implies #[trigger] changed[a].extra != #[trigger] changed[b].extra by {
        assert(cells[a].extra != cells[b].extra);
    }
}

/// Whether the cells `from..to` have strictly ascending columns.
pub open spec fn columns_ascend_in(cells: Seq<PackedCell>, from: int, to: int) -> bool {
    forall|a: int, b: int|
        from <= a < b < to ==> #[trigger] cells[a].reference.column_index() < #[trigger] cells[
            b].reference.column_index()
}

/// A row's cells ascend exactly when the records it owns do.
pub proof fn lemma_row_ascends(
    arena: TextArena,
    extras: Seq<CellExtras>,
    cells: Seq<PackedCell>,
    row: PackedRow,
)
    requires
        row.first_cell + row.cell_count <= cells.len(),
    ensures
        cells_strictly_ascending(row_model(arena, extras, cells, row).cells) == columns_ascend_in(
            cells,
            row.first_cell as int,
            row.first_cell + row.cell_count,
        ),
{
    let model = row_model(arena, extras, cells, row).cells;
    let first = row.first_cell as int;
    let end = row.first_cell + row.cell_count;
    if cells_strictly_ascending(model) {
        assert forall|a: int, b: int| first <= a < b < end implies #[trigger] cells[a].reference.column_index()
            < #[trigger] cells[b].reference.column_index() by {
            assert(model[a - first].reference.column_index() < model[b - first].reference.column_index());
        }
    }
    if columns_ascend_in(cells, first, end) {
        assert forall|i: int, j: int| 0 <= i < j < model.len() implies (
        #[trigger] model[i]).reference.column_index() < (#[trigger] model[j]).reference.column_index() by {
            assert(cells[first + i].reference.column_index() < cells[first + j].reference.column_index());
        }
    }
}

/// Storing `bytes` at the end of the authored half extends the arena.
pub proof fn lemma_store_extends(before: TextArena, after: TextArena, bytes: Seq<u8>)
    requires
        after.source_bytes() == before.source_bytes(),
        after.edit_bytes() == before.edit_bytes() + bytes,
    ensures
        extends(before, after),
{
    assert(after.edit_bytes().subrange(0, before.edit_bytes().len() as int) =~= before.edit_bytes());
}

/// A row's cells lie after every earlier row's: rows own ordered, disjoint slices.
pub proof fn lemma_partition_order(rows: Seq<PackedRow>, cell_count: int, i: int, j: int)
    requires
        partitioned(rows, cell_count),
        0 <= i < j < rows.len(),
    ensures
        rows[i].first_cell + rows[i].cell_count <= rows[j].first_cell,
    decreases j - i,
{
    if j > i + 1 {
        lemma_partition_order(rows, cell_count, i, j - 1);
        assert(rows[j - 1].first_cell + rows[j - 1].cell_count == rows[j].first_cell);
    } else {
        assert(rows[i].first_cell + rows[i].cell_count == rows[j].first_cell);
    }
}

/// A span that fits keeps its bytes when the arena grows at its end.
pub proof fn lemma_span_stable(before: TextArena, after: TextArena, span: TextSpan)
    requires
        span_ok(before, span),
        extends(before, after),
    ensures
        span_ok(after, span),
        span_bytes(after, span) == span_bytes(before, span),
{
    if !span.absent() {
        lemma_store_keeps_fitting_spans(before, after, span);
    }
}

/// A cell whose spans fit keeps its model when the arena grows at its end.
pub proof fn lemma_cell_stable(
    before: TextArena,
    after: TextArena,
    extras: Seq<CellExtras>,
    cell: PackedCell,
)
    requires
        cell_spans_ok(before, cell),
        extras_spans_ok(before, extras_of(extras, cell)),
        extends(before, after),
    ensures
        cell_spans_ok(after, cell),
        extras_spans_ok(after, extras_of(extras, cell)),
        cell_model(after, extras, cell) == cell_model(before, extras, cell),
{
    let x = extras_of(extras, cell);
    lemma_span_stable(before, after, cell.extent);
    lemma_span_stable(before, after, cell.payload);
    lemma_span_stable(before, after, x.attributes);
    lemma_span_stable(before, after, x.leading);
    lemma_span_stable(before, after, x.formula);
    lemma_span_stable(before, after, x.before_payload);
    lemma_span_stable(before, after, x.after_payload);
}

/// The blank extras record's spans are all absent.
pub proof fn lemma_extras_of_ok(arena: TextArena, extras: Seq<CellExtras>, cell: PackedCell)
    requires
        forall|e: int| 0 <= e < extras.len() ==> extras_spans_ok(arena, #[trigger] extras[e]),
    ensures
        extras_spans_ok(arena, extras_of(extras, cell)),
{
    if cell.extra != NO_EXTRAS && cell.extra < extras.len() {
        assert(extras_spans_ok(arena, extras[cell.extra as int]));
    }
}

/// Growing the arena at its end changes no record's model, and keeps the records well formed.
pub proof fn lemma_rows_stable(
    before: TextArena,
    after: TextArena,
    extras: Seq<CellExtras>,
    cells: Seq<PackedCell>,
    rows: Seq<PackedRow>,
)
    requires
        records_wf(before, extras, cells, rows),
        extends(before, after),
        after.wf(),
    ensures
        records_wf(after, extras, cells, rows),
        rows_model(after, extras, cells, rows) == rows_model(before, extras, cells, rows),
        forall|k: int|
            0 <= k < cells.len() ==> cell_model(after, extras, #[trigger] cells[k]) == cell_model(
                before,
                extras,
                cells[k],
            ),
{
    assert forall|k: int| 0 <= k < cells.len() implies cell_model(after, extras, #[trigger] cells[k])
        == cell_model(before, extras, cells[k]) && cell_spans_ok(after, cells[k]) by {
        lemma_extras_of_ok(before, extras, cells[k]);
        lemma_cell_stable(before, after, extras, cells[k]);
    }
    assert forall|e: int| 0 <= e < extras.len() implies extras_spans_ok(after, #[trigger] extras[e]) by {
        let x = extras[e];
        lemma_span_stable(before, after, x.attributes);
        lemma_span_stable(before, after, x.leading);
        lemma_span_stable(before, after, x.formula);
        lemma_span_stable(before, after, x.before_payload);
        lemma_span_stable(before, after, x.after_payload);
    }
    assert forall|i: int| 0 <= i < rows.len() implies row_spans_ok(after, #[trigger] rows[i])
        && row_model(after, extras, cells, rows[i]) == row_model(before, extras, cells, rows[i]) by {
        let r = rows[i];
        lemma_span_stable(before, after, r.leading);
        lemma_span_stable(before, after, r.extent);
        lemma_span_stable(before, after, r.attributes);
        lemma_span_stable(before, after, r.trailing);
        assert(row_model(after, extras, cells, r).cells =~= row_model(before, extras, cells, r).cells);
    }
    assert(rows_model(after, extras, cells, rows) =~= rows_model(before, extras, cells, rows));
}

/// Inserting an empty row record at `at` inserts its model at `at`.
pub proof fn lemma_insert_row(
    arena: TextArena,
    extras: Seq<CellExtras>,
    cells: Seq<PackedCell>,
    rows: Seq<PackedRow>,
    at: int,
    row: PackedRow,
)
    requires
        records_wf(arena, extras, cells, rows),
        0 <= at <= rows.len(),
        rows.len() + 1 < NO_EXTRAS,
        row.cell_count == 0,
        row.first_cell == if at < rows.len() {
            rows[at].first_cell
        } else {
            cells.len() as u32
        },
        row_spans_ok(arena, row),
    ensures
        records_wf(arena, extras, cells, rows.insert(at, row)),
        rows_model(arena, extras, cells, rows.insert(at, row)) == rows_model(
            arena,
            extras,
            cells,
            rows,
        ).insert(at, row_model(arena, extras, cells, row)),
{
    let new_rows = rows.insert(at, row);
    if at > 0 {
        if at < rows.len() {
            assert(rows[at - 1].first_cell + rows[at - 1].cell_count == rows[at].first_cell);
        } else {
            assert(rows[at - 1] == rows.last());
        }
    }
    assert forall|i: int, j: int|
        #![trigger new_rows[i], new_rows[j]]
        0 <= i && j == i + 1 && j < new_rows.len() implies new_rows[i].first_cell
        + new_rows[i].cell_count == new_rows[j].first_cell by {
        if j < at {
            assert(rows[i].first_cell + rows[i].cell_count == rows[j].first_cell);
        } else if j == at {
        } else if i == at {
        } else {
            assert(rows[i - 1].first_cell + rows[i - 1].cell_count == rows[j - 1].first_cell);
        }
    }
    assert forall|i: int| 0 <= i < new_rows.len() implies #[trigger] new_rows[i].first_cell
        + new_rows[i].cell_count <= cells.len() && row_spans_ok(arena, new_rows[i]) by {
        if i < at {
            assert(rows[i].first_cell + rows[i].cell_count <= cells.len());
        } else if i > at {
            assert(rows[i - 1].first_cell + rows[i - 1].cell_count <= cells.len());
        }
    }
    if new_rows.len() > 0 {
        if at == 0 {
            if rows.len() > 0 {
                assert(rows[0].first_cell == 0);
            }
        }
        if at < rows.len() {
            assert(new_rows.last() == rows.last());
        }
    }
    assert(rows_model(arena, extras, cells, new_rows) =~= rows_model(arena, extras, cells, rows).insert(
        at,
        row_model(arena, extras, cells, row),
    ));
}

/// Replacing a row record by one owning the same cells replaces its model.
pub proof fn lemma_update_row(
    arena: TextArena,
    extras: Seq<CellExtras>,
    cells: Seq<PackedCell>,
    rows: Seq<PackedRow>,
    index: int,
    row: PackedRow,
)
    requires
        records_wf(arena, extras, cells, rows),
        0 <= index < rows.len(),
        row.first_cell == rows[index].first_cell,
        row.cell_count == rows[index].cell_count,
        row_spans_ok(arena, row),
    ensures
        records_wf(arena, extras, cells, rows.update(index, row)),
        rows_model(arena, extras, cells, rows.update(index, row)) == rows_model(
            arena,
            extras,
            cells,
            rows,
        ).update(index, row_model(arena, extras, cells, row)),
{
    let new_rows = rows.update(index, row);
    assert forall|i: int, j: int|
        #![trigger new_rows[i], new_rows[j]]
        0 <= i && j == i + 1 && j < new_rows.len() implies new_rows[i].first_cell
        + new_rows[i].cell_count == new_rows[j].first_cell by {
        assert(rows[i].first_cell + rows[i].cell_count == rows[j].first_cell);
    }
    assert forall|i: int| 0 <= i < new_rows.len() implies #[trigger] new_rows[i].first_cell
        + new_rows[i].cell_count <= cells.len() && row_spans_ok(arena, new_rows[i]) by {
        assert(rows[i].first_cell + rows[i].cell_count <= cells.len());
    }
    if new_rows.len() > 0 {
        assert(new_rows[0].first_cell == rows[0].first_cell);
        assert(new_rows.last().first_cell + new_rows.last().cell_count == rows.last().first_cell
            + rows.last().cell_count);
    }
    assert(rows_model(arena, extras, cells, new_rows) =~= rows_model(arena, extras, cells, rows).update(
        index,
        row_model(arena, extras, cells, row),
    ));
}

/// Which row owns the cell at `k`.
pub proof fn lemma_owner(rows: Seq<PackedRow>, cell_count: int, a: int, b: int, k: int)
    requires
        partitioned(rows, cell_count),
        0 <= a < rows.len(),
        0 <= b < rows.len(),
        rows[a].first_cell <= k < rows[a].first_cell + rows[a].cell_count,
        rows[b].first_cell <= k < rows[b].first_cell + rows[b].cell_count,
    ensures
        a == b,
{
    if a < b {
        lemma_partition_order(rows, cell_count, a, b);
    } else if b < a {
        lemma_partition_order(rows, cell_count, b, a);
    }
}

/// Replacing the cell record at `k`, which row `owner` owns, replaces that one cell's model.
pub proof fn lemma_update_cell(
    arena: TextArena,
    extras: Seq<CellExtras>,
    cells: Seq<PackedCell>,
    rows: Seq<PackedRow>,
    owner: int,
    k: int,
    cell: PackedCell,
)
    requires
        records_wf(arena, extras, cells, rows),
        0 <= owner < rows.len(),
        rows[owner].first_cell <= k < rows[owner].first_cell + rows[owner].cell_count,
        cell_spans_ok(arena, cell),
        cell.extra == NO_EXTRAS || cell.extra < extras.len(),
    ensures
        records_wf(arena, extras, cells.update(k, cell), rows),
        rows_model(arena, extras, cells.update(k, cell), rows) == rows_model(
            arena,
            extras,
            cells,
            rows,
        ).update(
            owner,
            RowModel {
                cells: rows_model(arena, extras, cells, rows)[owner].cells.update(
                    k - rows[owner].first_cell,
                    cell_model(arena, extras, cell),
                ),
                ..rows_model(arena, extras, cells, rows)[owner]
            },
        ),
{
    let new_cells = cells.update(k, cell);
    let before = rows_model(arena, extras, cells, rows);
    let after = rows_model(arena, extras, new_cells, rows);
    assert forall|i: int| 0 <= i < rows.len() && i != owner implies #[trigger] after[i] == before[i] by {
        assert(after[i].cells =~= before[i].cells) by {
            assert forall|g: int|
                rows[i].first_cell <= g < rows[i].first_cell + rows[i].cell_count implies #[trigger] new_cells[g]
                == cells[g] by {
                if g == k {
                    lemma_owner(rows, cells.len() as int, i, owner, k);
                }
            }
        }
    }
    assert(after[owner].cells =~= before[owner].cells.update(
        k - rows[owner].first_cell,
        cell_model(arena, extras, cell),
    ));
    assert(after =~= before.update(
        owner,
        RowModel {
            cells: before[owner].cells.update(k - rows[owner].first_cell, cell_model(arena, extras, cell)),
            ..before[owner]
        },
    ));
}


/// Replacing the extras record of the cell at `k`, which row `owner` owns, changes that one
/// cell's model and no other, since no other cell names the record.
pub proof fn lemma_update_extras(
    arena: TextArena,
    extras: Seq<CellExtras>,
    cells: Seq<PackedCell>,
    rows: Seq<PackedRow>,
    owner: int,
    k: int,
    record: CellExtras,
)
    requires
        records_wf(arena, extras, cells, rows),
        extras_unshared(cells),
        0 <= owner < rows.len(),
        rows[owner].first_cell <= k < rows[owner].first_cell + rows[owner].cell_count,
        cells[k].extra != NO_EXTRAS,
        extras_spans_ok(arena, record),
    ensures
        records_wf(arena, extras.update(cells[k].extra as int, record), cells, rows),
        rows_model(arena, extras.update(cells[k].extra as int, record), cells, rows) == rows_model(
            arena,
            extras,
            cells,
            rows,
        ).update(
            owner,
            RowModel {
                cells: rows_model(arena, extras, cells, rows)[owner].cells.update(
                    k - rows[owner].first_cell,
                    cell_model(arena, extras.update(cells[k].extra as int, record), cells[k]),
                ),
                ..rows_model(arena, extras, cells, rows)[owner]
            },
        ),
{
    let e = cells[k].extra as int;
    let new_extras = extras.update(e, record);
    let before = rows_model(arena, extras, cells, rows);
    let after = rows_model(arena, new_extras, cells, rows);
    assert forall|g: int| 0 <= g < cells.len() && g != k implies #[trigger] cell_model(
        arena,
        new_extras,
        cells[g],
    ) == cell_model(arena, extras, cells[g]) by {
        if cells[g].extra != NO_EXTRAS {
            assert(cells[g].extra != cells[k].extra);
        }
    }
    assert forall|i: int| 0 <= i < rows.len() && i != owner implies #[trigger] after[i] == before[i] by {
        assert(after[i].cells =~= before[i].cells) by {
            assert forall|j: int| 0 <= j < rows[i].cell_count implies #[trigger] after[i].cells[j]
                == before[i].cells[j] by {
                let g = rows[i].first_cell + j;
                assert(rows[i].first_cell + rows[i].cell_count <= cells.len());
                if g == k {
                    lemma_owner(rows, cells.len() as int, i, owner, k);
                }
                assert(cell_model(arena, new_extras, cells[g]) == cell_model(arena, extras, cells[g]));
            }
        }
    }
    assert(after[owner].cells =~= before[owner].cells.update(
        k - rows[owner].first_cell,
        cell_model(arena, new_extras, cells[k]),
    )) by {
        assert forall|j: int| 0 <= j < rows[owner].cell_count && j != k - rows[owner].first_cell
            implies #[trigger] after[owner].cells[j] == before[owner].cells[j] by {
            let g = rows[owner].first_cell + j;
            assert(cell_model(arena, new_extras, cells[g]) == cell_model(arena, extras, cells[g]));
        }
    }
    assert(after =~= before.update(
        owner,
        RowModel {
            cells: before[owner].cells.update(
                k - rows[owner].first_cell,
                cell_model(arena, new_extras, cells[k]),
            ),
            ..before[owner]
        },
    ));
    assert forall|c: int| 0 <= c < new_extras.len() implies extras_spans_ok(
        arena,
        #[trigger] new_extras[c],
    ) by {
        if c != e {
            assert(new_extras[c] == extras[c]);
        }
    }
}

/// The row records after a cell is inserted into row `owner`: that row owns one more cell, and
/// every later row's slice starts one further on.
pub open spec fn rows_after_insert(rows: Seq<PackedRow>, owner: int) -> Seq<PackedRow> {
    Seq::new(
        rows.len(),
        |i: int|
            if i == owner {
                PackedRow { cell_count: (rows[i].cell_count + 1) as u32, ..rows[i] }
            } else if i > owner {
                PackedRow { first_cell: (rows[i].first_cell + 1) as u32, ..rows[i] }
            } else {
                rows[i]
            },
    )
}

/// The row records after a cell is removed from row `owner`: that row owns one fewer cell, and
/// every later row's slice starts one earlier.
pub open spec fn rows_after_remove(rows: Seq<PackedRow>, owner: int) -> Seq<PackedRow> {
    Seq::new(
        rows.len(),
        |i: int|
            if i == owner {
                PackedRow { cell_count: (rows[i].cell_count - 1) as u32, ..rows[i] }
            } else if i > owner {
                PackedRow { first_cell: (rows[i].first_cell - 1) as u32, ..rows[i] }
            } else {
                rows[i]
            },
    )
}

/// The row records after row `index` is removed with its cells: every later row's slice starts
/// that many cells earlier.
pub open spec fn rows_after_row_removal(rows: Seq<PackedRow>, index: int) -> Seq<PackedRow> {
    Seq::new(
        (rows.len() - 1) as nat,
        |i: int|
            if i < index {
                rows[i]
            } else {
                PackedRow {
                    first_cell: (rows[i + 1].first_cell - rows[index].cell_count) as u32,
                    ..rows[i + 1]
                }
            },
    )
}

/// Inserting a cell record at offset `offset` of row `owner` inserts its model there.
pub proof fn lemma_insert_cell(
    arena: TextArena,
    extras: Seq<CellExtras>,
    cells: Seq<PackedCell>,
    rows: Seq<PackedRow>,
    owner: int,
    offset: int,
    cell: PackedCell,
)
    requires
        records_wf(arena, extras, cells, rows),
        0 <= owner < rows.len(),
        0 <= offset <= rows[owner].cell_count,
        cells.len() + 1 < NO_EXTRAS,
        cell_spans_ok(arena, cell),
        cell.extra == NO_EXTRAS || cell.extra < extras.len(),
    ensures
        records_wf(
            arena,
            extras,
            cells.insert(rows[owner].first_cell + offset, cell),
            rows_after_insert(rows, owner),
        ),
        rows_model(
            arena,
            extras,
            cells.insert(rows[owner].first_cell + offset, cell),
            rows_after_insert(rows, owner),
        ) == rows_model(arena, extras, cells, rows).update(
            owner,
            RowModel {
                cells: rows_model(arena, extras, cells, rows)[owner].cells.insert(
                    offset,
                    cell_model(arena, extras, cell),
                ),
                ..rows_model(arena, extras, cells, rows)[owner]
            },
        ),
{
    let g = rows[owner].first_cell + offset;
    let new_cells = cells.insert(g, cell);
    let new_rows = rows_after_insert(rows, owner);
    let before = rows_model(arena, extras, cells, rows);
    let after = rows_model(arena, extras, new_cells, new_rows);
    let n = cells.len() as int;
    assert forall|i: int, j: int|
        #![trigger new_rows[i], new_rows[j]]
        0 <= i && j == i + 1 && j < new_rows.len() implies new_rows[i].first_cell
        + new_rows[i].cell_count == new_rows[j].first_cell by {
        assert(rows[i].first_cell + rows[i].cell_count == rows[j].first_cell);
    }
    assert forall|i: int| 0 <= i < new_rows.len() implies #[trigger] new_rows[i].first_cell
        + new_rows[i].cell_count <= new_cells.len() && row_spans_ok(arena, new_rows[i]) by {
        assert(rows[i].first_cell + rows[i].cell_count <= cells.len());
        if i < owner {
            lemma_partition_order(rows, n, i, owner);
        }
    }
    if rows.len() > 0 {
        if owner > 0 {
            assert(new_rows[0] == rows[0]);
        }
        if owner < rows.len() - 1 {
            assert(new_rows.last().first_cell == rows.last().first_cell + 1);
        }
    }
    assert forall|k: int| 0 <= k < new_cells.len() implies (#[trigger] new_cells[k]).extra
        == NO_EXTRAS || new_cells[k].extra < extras.len() by {
        if k < g {
            assert(new_cells[k] == cells[k]);
        } else if k > g {
            assert(new_cells[k] == cells[k - 1]);
        }
    }
    assert forall|k: int| 0 <= k < new_cells.len() implies cell_spans_ok(arena, #[trigger] new_cells[k]) by {
        if k < g {
            assert(new_cells[k] == cells[k]);
        } else if k > g {
            assert(new_cells[k] == cells[k - 1]);
        }
    }
    assert forall|i: int| 0 <= i < rows.len() && i != owner implies #[trigger] after[i] == before[i] by {
        if i < owner {
            lemma_partition_order(rows, n, i, owner);
            assert(after[i].cells =~= before[i].cells);
        } else {
            lemma_partition_order(rows, n, owner, i);
            assert(after[i].cells =~= before[i].cells);
        }
    }
    assert(after[owner].cells =~= before[owner].cells.insert(offset, cell_model(arena, extras, cell)));
    assert(after =~= before.update(
        owner,
        RowModel {
            cells: before[owner].cells.insert(offset, cell_model(arena, extras, cell)),
            ..before[owner]
        },
    ));
}

/// Removing the cell record at offset `offset` of row `owner` removes its model there.
pub proof fn lemma_remove_cell(
    arena: TextArena,
    extras: Seq<CellExtras>,
    cells: Seq<PackedCell>,
    rows: Seq<PackedRow>,
    owner: int,
    offset: int,
)
    requires
        records_wf(arena, extras, cells, rows),
        0 <= owner < rows.len(),
        0 <= offset < rows[owner].cell_count,
    ensures
        records_wf(
            arena,
            extras,
            cells.remove(rows[owner].first_cell + offset),
            rows_after_remove(rows, owner),
        ),
        rows_model(
            arena,
            extras,
            cells.remove(rows[owner].first_cell + offset),
            rows_after_remove(rows, owner),
        ) == rows_model(arena, extras, cells, rows).update(
            owner,
            RowModel {
                cells: rows_model(arena, extras, cells, rows)[owner].cells.remove(offset),
                ..rows_model(arena, extras, cells, rows)[owner]
            },
        ),
{
    let g = rows[owner].first_cell + offset;
    let new_cells = cells.remove(g);
    let new_rows = rows_after_remove(rows, owner);
    let before = rows_model(arena, extras, cells, rows);
    let after = rows_model(arena, extras, new_cells, new_rows);
    let n = cells.len() as int;
    assert forall|i: int, j: int|
        #![trigger new_rows[i], new_rows[j]]
        0 <= i && j == i + 1 && j < new_rows.len() implies new_rows[i].first_cell
        + new_rows[i].cell_count == new_rows[j].first_cell by {
        assert(rows[i].first_cell + rows[i].cell_count == rows[j].first_cell);
        if j <= owner {
            assert(new_rows[i] == rows[i]);
        } else {
            lemma_partition_order(rows, n, owner, j);
            if i == owner {
                assert(new_rows[i].cell_count == rows[i].cell_count - 1);
            } else {
                lemma_partition_order(rows, n, owner, i);
                assert(new_rows[i].first_cell == rows[i].first_cell - 1);
            }
            assert(new_rows[j].first_cell == rows[j].first_cell - 1);
        }
    }
    assert forall|i: int| 0 <= i < new_rows.len() implies #[trigger] new_rows[i].first_cell
        + new_rows[i].cell_count <= new_cells.len() && row_spans_ok(arena, new_rows[i]) by {
        assert(rows[i].first_cell + rows[i].cell_count <= cells.len());
        if i < owner {
            lemma_partition_order(rows, n, i, owner);
        } else if i > owner {
            lemma_partition_order(rows, n, owner, i);
        }
    }
    if rows.len() > 0 {
        if owner > 0 {
            assert(new_rows[0] == rows[0]);
        }
        if owner < rows.len() - 1 {
            lemma_partition_order(rows, n, owner, rows.len() - 1);
            assert(new_rows.last().first_cell == rows.last().first_cell - 1);
        }
    }
    assert forall|k: int| 0 <= k < new_cells.len() implies (#[trigger] new_cells[k]).extra
        == NO_EXTRAS || new_cells[k].extra < extras.len() by {
        if k < g {
            assert(new_cells[k] == cells[k]);
        } else {
            assert(new_cells[k] == cells[k + 1]);
        }
    }
    assert forall|k: int| 0 <= k < new_cells.len() implies cell_spans_ok(arena, #[trigger] new_cells[k]) by {
        if k < g {
            assert(new_cells[k] == cells[k]);
        } else {
            assert(new_cells[k] == cells[k + 1]);
        }
    }
    assert forall|i: int| 0 <= i < rows.len() && i != owner implies #[trigger] after[i] == before[i] by {
        if i < owner {
            lemma_partition_order(rows, n, i, owner);
            assert(after[i].cells =~= before[i].cells);
        } else {
            lemma_partition_order(rows, n, owner, i);
            assert(after[i].cells =~= before[i].cells);
        }
    }
    assert(after[owner].cells =~= before[owner].cells.remove(offset));
    assert(after =~= before.update(
        owner,
        RowModel { cells: before[owner].cells.remove(offset), ..before[owner] },
    ));
}

/// Removing row `index` together with the cells it owns removes its model.
pub proof fn lemma_remove_row(
    arena: TextArena,
    extras: Seq<CellExtras>,
    cells: Seq<PackedCell>,
    rows: Seq<PackedRow>,
    index: int,
)
    requires
        records_wf(arena, extras, cells, rows),
        0 <= index < rows.len(),
    ensures
        records_wf(
            arena,
            extras,
            cells.subrange(0, rows[index].first_cell as int) + cells.subrange(
                rows[index].first_cell + rows[index].cell_count,
                cells.len() as int,
            ),
            rows_after_row_removal(rows, index),
        ),
        rows_model(
            arena,
            extras,
            cells.subrange(0, rows[index].first_cell as int) + cells.subrange(
                rows[index].first_cell + rows[index].cell_count,
                cells.len() as int,
            ),
            rows_after_row_removal(rows, index),
        ) == rows_model(arena, extras, cells, rows).remove(index),
{
    let first = rows[index].first_cell as int;
    let count = rows[index].cell_count as int;
    let new_cells = cells.subrange(0, first) + cells.subrange(first + count, cells.len() as int);
    let new_rows = rows_after_row_removal(rows, index);
    let before = rows_model(arena, extras, cells, rows);
    let after = rows_model(arena, extras, new_cells, new_rows);
    let n = cells.len() as int;
    assert(first + count <= n);
    assert forall|k: int| 0 <= k < new_cells.len() implies #[trigger] new_cells[k] == if k < first {
        cells[k]
    } else {
        cells[k + count]
    } by {}
    assert forall|i: int, j: int|
        #![trigger new_rows[i], new_rows[j]]
        0 <= i && j == i + 1 && j < new_rows.len() implies new_rows[i].first_cell
        + new_rows[i].cell_count == new_rows[j].first_cell by {
        if j < index {
            assert(rows[i].first_cell + rows[i].cell_count == rows[j].first_cell);
            assert(new_rows[i] == rows[i]);
            assert(new_rows[j] == rows[j]);
            assert(new_rows[i].first_cell + new_rows[i].cell_count == new_rows[j].first_cell);
        } else if j == index {
            assert(rows[i].first_cell + rows[i].cell_count == rows[index].first_cell);
            assert(rows[index].first_cell + rows[index].cell_count == rows[index + 1].first_cell);
            assert(new_rows[i] == rows[i]);
            assert(new_rows[j].first_cell == rows[index + 1].first_cell - count);
            assert(new_rows[i].first_cell + new_rows[i].cell_count == new_rows[j].first_cell);
        } else {
            assert(rows[i + 1].first_cell + rows[i + 1].cell_count == rows[j + 1].first_cell);
            lemma_partition_order(rows, n, index, i + 1);
            assert(new_rows[i].first_cell == rows[i + 1].first_cell - count);
            assert(new_rows[i].cell_count == rows[i + 1].cell_count);
            assert(new_rows[j].first_cell == rows[j + 1].first_cell - count);
            assert(new_rows[i].first_cell + new_rows[i].cell_count == new_rows[j].first_cell);
        }
    }
    assert forall|i: int| 0 <= i < new_rows.len() implies #[trigger] new_rows[i].first_cell
        + new_rows[i].cell_count <= new_cells.len() && row_spans_ok(arena, new_rows[i]) by {
        if i < index {
            lemma_partition_order(rows, n, i, index);
        } else {
            assert(rows[i + 1].first_cell + rows[i + 1].cell_count <= cells.len());
            lemma_partition_order(rows, n, index, i + 1);
        }
    }
    if new_rows.len() > 0 {
        if index > 0 {
            assert(new_rows[0] == rows[0]);
        } else {
            assert(rows[0].first_cell + rows[0].cell_count == rows[1].first_cell);
        }
        if index < rows.len() - 1 {
            lemma_partition_order(rows, n, index, rows.len() - 1);
            assert(new_rows.last().first_cell + new_rows.last().cell_count == rows.last().first_cell
                + rows.last().cell_count - count);
        } else {
            assert(rows[index - 1].first_cell + rows[index - 1].cell_count == rows[index].first_cell);
        }
    } else {
        assert(first == 0);
    }
    assert forall|k: int| 0 <= k < new_cells.len() implies (#[trigger] new_cells[k]).extra
        == NO_EXTRAS || new_cells[k].extra < extras.len() by {
        if k >= first {
            assert(new_cells[k] == cells[k + count]);
        }
    }
    assert forall|k: int| 0 <= k < new_cells.len() implies cell_spans_ok(arena, #[trigger] new_cells[k]) by {
        if k >= first {
            assert(new_cells[k] == cells[k + count]);
        }
    }
    assert forall|i: int| 0 <= i < new_rows.len() implies #[trigger] after[i] == before.remove(index)[i] by {
        if i < index {
            lemma_partition_order(rows, n, i, index);
            assert(after[i].cells =~= before[i].cells);
        } else {
            lemma_partition_order(rows, n, index, i + 1);
            assert(after[i].cells =~= before[i + 1].cells);
        }
    }
    assert(after =~= before.remove(index));
}
/// Whether cells just read name only extras records from `from` up to `to`, no two the same, and
/// fit the arena.
pub open spec fn fresh_cells(arena: TextArena, cells: Seq<PackedCell>, from: int, to: int) -> bool {
    &&& forall|k: int|
        0 <= k < cells.len() ==> (#[trigger] cells[k]).extra == NO_EXTRAS || (from <= cells[k].extra
            && cells[k].extra < to)
    &&& extras_unshared(cells)
    &&& forall|k: int| 0 <= k < cells.len() ==> cell_spans_ok(arena, #[trigger] cells[k])
}

/// More extras records at the end change nothing the records already meant.
pub proof fn lemma_extras_grow(
    arena: TextArena,
    extras: Seq<CellExtras>,
    more: Seq<CellExtras>,
    cells: Seq<PackedCell>,
    rows: Seq<PackedRow>,
)
    requires
        records_wf(arena, extras, cells, rows),
        more.len() >= extras.len(),
        more.len() < NO_EXTRAS,
        more.subrange(0, extras.len() as int) == extras,
        forall|e: int| 0 <= e < more.len() ==> extras_spans_ok(arena, #[trigger] more[e]),
    ensures
        records_wf(arena, more, cells, rows),
        rows_model(arena, more, cells, rows) == rows_model(arena, extras, cells, rows),
{
    assert forall|k: int| 0 <= k < cells.len() implies cell_model(arena, more, #[trigger] cells[k])
        == cell_model(arena, extras, cells[k]) by {
        if cells[k].extra != NO_EXTRAS && cells[k].extra < extras.len() {
            assert(more[cells[k].extra as int] == more.subrange(0, extras.len() as int)[cells[k].extra as int]);
        }
    }
    assert forall|i: int| 0 <= i < rows.len() implies row_model(arena, more, cells, #[trigger] rows[i])
        == row_model(arena, extras, cells, rows[i]) by {
        assert(row_model(arena, more, cells, rows[i]).cells =~= row_model(arena, extras, cells, rows[i]).cells);
    }
    assert(rows_model(arena, more, cells, rows) =~= rows_model(arena, extras, cells, rows));
}

/// Committing a row read with its cells: the cells go on the end of the arena, and the row owns
/// them.
pub proof fn lemma_commit_row(
    arena: TextArena,
    extras: Seq<CellExtras>,
    cells: Seq<PackedCell>,
    rows: Seq<PackedRow>,
    new_cells: Seq<PackedCell>,
    row: PackedRow,
    from: int,
)
    requires
        records_wf(arena, extras, cells, rows),
        extras_unshared(cells),
        forall|k: int|
            0 <= k < cells.len() ==> (#[trigger] cells[k]).extra == NO_EXTRAS || cells[k].extra < from,
        fresh_cells(arena, new_cells, from, extras.len() as int),
        row.first_cell == cells.len(),
        row.cell_count == new_cells.len(),
        row_spans_ok(arena, row),
        cells.len() + new_cells.len() < NO_EXTRAS,
        rows.len() + 1 < NO_EXTRAS,
    ensures
        records_wf(arena, extras, cells + new_cells, rows.push(row)),
        extras_unshared(cells + new_cells),
        rows_model(arena, extras, cells + new_cells, rows.push(row)) == rows_model(
            arena,
            extras,
            cells,
            rows,
        ).push(row_model(arena, extras, cells + new_cells, row)),
        row_model(arena, extras, cells + new_cells, row).cells == Seq::new(
            new_cells.len(),
            |k: int| cell_model(arena, extras, new_cells[k]),
        ),
{
    let all = cells + new_cells;
    let grown = rows.push(row);
    let n = cells.len() as int;
    if rows.len() > 0 {
        assert(rows.last().first_cell + rows.last().cell_count == n);
    }
    assert forall|i: int, j: int|
        #![trigger grown[i], grown[j]]
        0 <= i && j == i + 1 && j < grown.len() implies grown[i].first_cell + grown[i].cell_count
        == grown[j].first_cell by {
        if j < rows.len() {
            assert(rows[i].first_cell + rows[i].cell_count == rows[j].first_cell);
        }
    }
    assert forall|i: int| 0 <= i < grown.len() implies #[trigger] grown[i].first_cell
        + grown[i].cell_count <= all.len() && row_spans_ok(arena, grown[i]) by {
        if i < rows.len() {
            assert(rows[i].first_cell + rows[i].cell_count <= cells.len());
        }
    }
    assert forall|k: int| 0 <= k < all.len() implies (#[trigger] all[k]).extra == NO_EXTRAS
        || all[k].extra < extras.len() by {
        if k >= n {
            assert(all[k] == new_cells[k - n]);
        }
    }
    assert forall|k: int| 0 <= k < all.len() implies cell_spans_ok(arena, #[trigger] all[k]) by {
        if k >= n {
            assert(all[k] == new_cells[k - n]);
        }
    }
    assert forall|a: int, b: int|
        0 <= a < all.len() && 0 <= b < all.len() && a != b && all[a].extra != NO_EXTRAS
            implies #[trigger] all[a].extra != #[trigger] all[b].extra by {
        if a < n && b < n {
        } else if a >= n && b >= n {
            assert(all[a] == new_cells[a - n]);
            assert(all[b] == new_cells[b - n]);
        } else if a < n {
            assert(all[b] == new_cells[b - n]);
        } else {
            assert(all[a] == new_cells[a - n]);
        }
    }
    assert forall|i: int| 0 <= i < rows.len() implies #[trigger] row_model(arena, extras, all, rows[i])
        == row_model(arena, extras, cells, rows[i]) by {
        assert(rows[i].first_cell + rows[i].cell_count <= cells.len());
        assert(row_model(arena, extras, all, rows[i]).cells =~= row_model(arena, extras, cells, rows[i]).cells);
    }
    assert(rows_model(arena, extras, all, grown) =~= rows_model(arena, extras, cells, rows).push(
        row_model(arena, extras, all, row),
    ));
    assert(row_model(arena, extras, all, row).cells =~= Seq::new(
        new_cells.len(),
        |k: int| cell_model(arena, extras, new_cells[k]),
    ));
}

} // verus!
