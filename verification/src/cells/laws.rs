//! What the store promises across its operations, proved over the model.
//!
//! Each law is a public proof function: its `requires` holds what the law assumes, and its
//! `ensures` what it promises, over the spec functions the store's own contracts use.

use vstd::prelude::*;

use crate::address::CellReference;

use super::edits::{
    cell_of, edit_cell_offset, edit_row_index, first_row_above, holds_cell,
    lemma_first_cell_right_of, lemma_first_row_above, row_number_of, with_cell, with_edited_cell,
    with_row, without_cell, without_row, blank_cell, new_row, row_with_cell,
};
use super::model::{
    CellModel, RowModel, SheetModel, cells_strictly_ascending, find_cell, find_row,
    lemma_find_cell, lemma_find_cell_found, lemma_find_cell_none, lemma_find_row,
    lemma_find_row_found, lemma_find_row_none, rows_strictly_ascending,
};
use super::read::{
    between_bytes, cell_content_read_as, cell_elements, cell_model_read_as, content_shape,
    cursor_before,
    element_bytes, element_layout, element_range, kept_run, layout_run_bytes, led_from_cursor,
    lemma_walk_ranged, qualified_name, ranged_content, row_elements, row_number_used, row_read_as,
    row_fully_ranged, row_references, row_walk, sheet_fully_ranged, sheet_read_from, sheet_walk,
    value_index, SourceElement, SourceNode,
};
use super::store::SheetData;
use super::write::{
    cell_markup, cell_opening, cells_markup, end_tag, local_c, local_row,
    local_sheet_data, local_v, or_empty, payload_markup, qualified, row_markup, rows_markup,
    sheet_markup, start_tag,
};
use super::record::{PayloadShape, has_flag, shape_of_flags};
use crate::arena::decompose::{
    ElementLayout, decompose_spec, lemma_decompose_bounds, lemma_decompose_shape,
};

verus! {

/// Where row `i` of a sheet stands once a cell edit at `reference` is made: one further on when
/// the edit created a row before it.
pub open spec fn row_after_edit(model: SheetModel, reference: CellReference, i: int) -> int {
    if find_row(model.rows, row_number_of(reference), 0) is None && i >= first_row_above(
        model.rows,
        row_number_of(reference),
        0,
    ) {
        i + 1
    } else {
        i
    }
}

/// The sheet a cell edit at `reference` leaves holds every row but the edited one unchanged.
proof fn lemma_rows_after_edit(model: SheetModel, reference: CellReference, edited: CellModel)
    ensures
        ({
            let after = with_edited_cell(model, reference, edited);
            let number = row_number_of(reference);
            &&& after.rows.len() == model.rows.len() + if find_row(model.rows, number, 0) is Some {
                0int
            } else {
                1int
            }
            &&& 0 <= edit_row_index(model, reference) < after.rows.len()
            &&& after.rows[edit_row_index(model, reference)].number == number
            &&& forall|i: int|
                0 <= i < model.rows.len() && row_after_edit(model, reference, i) != edit_row_index(
                    model,
                    reference,
                ) ==> #[trigger] after.rows[row_after_edit(model, reference, i)] == model.rows[i]
        }),
{
    let number = row_number_of(reference);
    lemma_find_row_found(model.rows, number, 0);
    lemma_first_row_above(model.rows, number, 0);
}

/// A cell edit leaves a lookup at its own reference answering with the edited cell.
proof fn lemma_lookup_finds_edit(model: SheetModel, reference: CellReference, edited: CellModel)
    ensures
        ({
            let after = with_edited_cell(model, reference, edited);
            let r = edit_row_index(model, reference);
            let k = edit_cell_offset(model, reference);
            &&& find_row(after.rows, row_number_of(reference), 0) == Some(r)
            &&& 0 <= k < after.rows[r].cells.len()
            &&& after.rows[r].cells[k] == edited
        }),
{
    let number = row_number_of(reference);
    let placed = with_row(model, number);
    let after = with_edited_cell(model, reference, edited);
    let r = edit_row_index(model, reference);
    lemma_find_row_found(model.rows, number, 0);
    lemma_first_row_above(model.rows, number, 0);
    lemma_rows_after_edit(model, reference, edited);
    assert forall|i: int| 0 <= i < r implies (#[trigger] after.rows[i]).number != number by {
        assert(after.rows[i] == model.rows[i]);
    }
    lemma_find_row(after.rows, number, 0, r);
    reference.lemma_column_bounded();
    let column = reference.column_index() as u16;
    let row = placed.rows[r];
    lemma_find_cell_found(row.cells, column, 0);
    lemma_first_cell_right_of(row.cells, reference.column_index(), 0);
}

/// **What a read gives back of a write.** After a cell edit at `reference` — a value or a style
/// set — a lookup at that reference answers with the edited cell, provided the edit kept the
/// cell's column, as every edit the store makes does.
pub proof fn law_written_cell_is_read_back(
    model: SheetModel,
    reference: CellReference,
    edited: CellModel,
)
    requires
        edited.reference.column_index() == reference.column_index(),
    ensures
        cell_of(with_edited_cell(model, reference, edited), reference) == Some(edited),
{
    let after = with_edited_cell(model, reference, edited);
    let r = edit_row_index(model, reference);
    let k = edit_cell_offset(model, reference);
    lemma_lookup_finds_edit(model, reference, edited);
    reference.lemma_column_bounded();
    let column = reference.column_index() as u16;
    let number = row_number_of(reference);
    let placed = with_row(model, number);
    let row = placed.rows[r];
    lemma_find_cell_found(row.cells, column, 0);
    lemma_first_cell_right_of(row.cells, reference.column_index(), 0);
    lemma_find_row_found(model.rows, number, 0);
    lemma_first_row_above(model.rows, number, 0);
    if holds_cell(model, reference) {
        assert(placed == model);
        assert(after.rows[r].cells == row.cells.update(k, edited));
    } else {
        if find_row(model.rows, number, 0) is None {
            assert(row == new_row(number));
            lemma_find_cell_none(row.cells, column, 0);
        }
        assert(find_cell(row.cells, column, 0) is None);
        assert(with_cell(model, reference).rows[r] == row_with_cell(row, reference));
        assert(after.rows[r].cells == row.cells.insert(k, blank_cell(reference)).update(k, edited));
    }
    assert forall|j: int| 0 <= j < k implies (#[trigger] after.rows[r].cells[j]).reference.column_index()
        != column by {
        assert(after.rows[r].cells[j] == row.cells[j]);
    }
    lemma_find_cell(after.rows[r].cells, column, 0, k);
}

/// **An untouched sheet writes its own bytes.** While a sheet keeps its source extent — nothing
/// in it edited since it was read — what it writes is exactly those bytes.
pub proof fn law_untouched_sheet_writes_its_source(model: SheetModel)
    requires
        model.extent is Some,
    ensures
        sheet_markup(model) == model.extent->0,
{
}

/// **Edit isolation.** A cell edit leaves every other row of the sheet exactly as it was — the
/// same model, and so the same bytes when written: a row read from a file and not edited is still
/// copied from its own source range.
pub proof fn law_edit_leaves_other_rows(
    model: SheetModel,
    reference: CellReference,
    edited: CellModel,
    i: int,
)
    requires
        0 <= i < model.rows.len(),
        find_row(model.rows, row_number_of(reference), 0) != Some(i),
    ensures
        ({
            let after = with_edited_cell(model, reference, edited);
            let j = row_after_edit(model, reference, i);
            &&& 0 <= j < after.rows.len()
            &&& after.rows[j] == model.rows[i]
            &&& row_markup(after.prefix, after.rows[j]) == row_markup(model.prefix, model.rows[i])
        }),
{
    lemma_rows_after_edit(model, reference, edited);
    let number = row_number_of(reference);
    lemma_find_row_found(model.rows, number, 0);
    lemma_first_row_above(model.rows, number, 0);
}

/// Where cell `j` of the edited row stands once a cell edit at `reference` is made: one further
/// on when the edit created a cell before it.
pub open spec fn cell_after_edit(model: SheetModel, reference: CellReference, j: int) -> int {
    if !holds_cell(model, reference) && j >= edit_cell_offset(model, reference) {
        j + 1
    } else {
        j
    }
}

/// **Edit isolation inside a row.** A cell edit leaves every other cell of the edited row exactly
/// as it was — the same model, and so the same bytes when written: a cell read from a file and
/// not edited is still copied from its own source range. The row keeps its number, the bytes
/// before it, its attribute run and the bytes after its last cell.
pub proof fn law_edit_leaves_other_cells(
    model: SheetModel,
    reference: CellReference,
    edited: CellModel,
    j: int,
)
    requires
        find_row(model.rows, row_number_of(reference), 0) is Some,
        0 <= j < model.rows[find_row(model.rows, row_number_of(reference), 0)->0].cells.len(),
        !(holds_cell(model, reference) && j == edit_cell_offset(model, reference)),
    ensures
        ({
            let after = with_edited_cell(model, reference, edited);
            let r = find_row(model.rows, row_number_of(reference), 0)->0;
            let j2 = cell_after_edit(model, reference, j);
            &&& edit_row_index(model, reference) == r
            &&& 0 <= j2 < after.rows[r].cells.len()
            &&& j2 != edit_cell_offset(model, reference)
            &&& after.rows[r].cells[j2] == model.rows[r].cells[j]
            &&& after.rows[r].number == model.rows[r].number
            &&& after.rows[r].leading == model.rows[r].leading
            &&& after.rows[r].attributes == model.rows[r].attributes
            &&& after.rows[r].trailing == model.rows[r].trailing
        }),
{
    let number = row_number_of(reference);
    let r = find_row(model.rows, number, 0)->0;
    lemma_find_row_found(model.rows, number, 0);
    let cells = model.rows[r].cells;
    reference.lemma_column_bounded();
    let column = reference.column_index() as u16;
    lemma_find_cell_found(cells, column, 0);
    lemma_first_cell_right_of(cells, reference.column_index(), 0);
}

/// **A removed cell is gone** — from a row whose cells ascend, so that no second cell in the same
/// column stands behind it.
pub proof fn law_removed_cell_is_gone(model: SheetModel, reference: CellReference)
    requires
        forall|r: int|
            0 <= r < model.rows.len() ==> cells_strictly_ascending(#[trigger] model.rows[r].cells),
    ensures
        cell_of(without_cell(model, reference), reference) is None,
{
    let number = row_number_of(reference);
    reference.lemma_column_bounded();
    let column = reference.column_index() as u16;
    lemma_find_row_found(model.rows, number, 0);
    if holds_cell(model, reference) {
        let r = find_row(model.rows, number, 0)->0;
        let k = find_cell(model.rows[r].cells, column, 0)->0;
        let after = without_cell(model, reference);
        let cells = model.rows[r].cells;
        lemma_find_cell_found(cells, column, 0);
        assert forall|i: int| 0 <= i < r implies (#[trigger] after.rows[i]).number != number by {
            assert(after.rows[i] == model.rows[i]);
        }
        lemma_find_row(after.rows, number, 0, r);
        let remaining = after.rows[r].cells;
        assert(remaining == cells.remove(k));
        assert forall|j: int| 0 <= j < remaining.len() implies (
        #[trigger] remaining[j]).reference.column_index() != column by {
            if j < k {
                assert(remaining[j] == cells[j]);
            } else {
                assert(remaining[j] == cells[j + 1]);
                assert(cells[k].reference.column_index() < cells[j + 1].reference.column_index());
            }
        }
        lemma_find_cell_none(remaining, column, 0);
    } else {
        lemma_find_row_found(model.rows, number, 0);
    }
}

/// **A removed row is gone** — from a sheet whose rows ascend, so that no second row with the same
/// number stands behind it.
pub proof fn law_removed_row_is_gone(model: SheetModel, number: u32)
    requires
        rows_strictly_ascending(model.rows),
    ensures
        find_row(without_row(model, number).rows, number, 0) is None,
{
    lemma_find_row_found(model.rows, number, 0);
    match find_row(model.rows, number, 0) {
        Some(r) => {
            let rows = model.rows.remove(r);
            assert forall|i: int| 0 <= i < rows.len() implies (#[trigger] rows[i]).number != number by {
                if i < r {
                    assert(rows[i] == model.rows[i]);
                } else {
                    assert(rows[i] == model.rows[i + 1]);
                    assert(model.rows[r].number < model.rows[i + 1].number);
                }
            }
            lemma_find_row_none(rows, number, 0);
        },
        None => {},
    }
}


/// **What a read gives back is what was read.** A sheet read from an element whose range lies in
/// the source writes that range's bytes, untouched.
pub proof fn law_read_sheet_writes_its_source(sheet: SheetData, element: SourceElement, source: Seq<u8>)
    requires
        sheet_read_from(sheet, element, source),
        element_bytes(source, element) is Some,
    ensures
        sheet_markup(sheet@) == element_bytes(source, element)->0,
{
}

/// Rows read as ranges of the source, each led by the bytes since the one before it, write as the
/// source bytes they span, gaps included.
proof fn lemma_rows_markup_ranged(
    prefix: Option<Seq<u8>>,
    rows: Seq<RowModel>,
    source: Seq<u8>,
    elements: Seq<SourceElement>,
    start: int,
    k: int,
)
    requires
        0 <= k <= rows.len(),
        k <= elements.len(),
        0 <= start <= source.len(),
        forall|r: int| 0 <= r < k ==> #[trigger] led_from_cursor(source, elements, start, r, rows[r].leading),
        forall|r: int| 0 <= r < k ==> (#[trigger] rows[r]).extent == element_bytes(source, elements[r]),
    ensures
        start <= cursor_before(source, elements, start, k) <= source.len(),
        rows_markup(prefix, rows.subrange(0, k)) == source.subrange(
            start,
            cursor_before(source, elements, start, k),
        ),
    decreases k,
{
    if k == 0 {
        assert(rows.subrange(0, 0) =~= Seq::<RowModel>::empty());
    } else {
        lemma_rows_markup_ranged(prefix, rows, source, elements, start, k - 1);
        let b = cursor_before(source, elements, start, k - 1);
        assert(led_from_cursor(source, elements, start, k - 1, rows[k - 1].leading));
        assert(rows[k - 1].extent == element_bytes(source, elements[k - 1]));
        let range = element_range(source, elements[k - 1])->Some_0;
        assert(rows.subrange(0, k).drop_last() =~= rows.subrange(0, k - 1));
        assert(rows.subrange(0, k).last() == rows[k - 1]);
        assert(source.subrange(start, range.1) =~= source.subrange(start, b) + or_empty(
            rows[k - 1].leading,
        ) + source.subrange(range.0, range.1));
    }
}

/// **A read sheet's rows rebuild its bytes.** When a `sheetData` element's range, and each of its
/// rows' ranges in document order, lie in the source, what the sheet writes from its rows — as it
/// does once anything in it is edited — is byte for byte the element's own source: every gap
/// between rows, the start tag's attributes and the bytes after the last row included. An end tag
/// written with whitespace before its `>` is rebuilt without it.
pub proof fn law_read_rows_rebuild_the_source(sheet: SheetData, element: SourceElement, source: Seq<u8>)
    requires
        sheet_read_from(sheet, element, source),
        element.local@ == local_sheet_data(),
        element_layout(source, element) is Some,
        sheet_walk(source, element).cursor is Some,
        sheet_walk(source, element).cursor->Some_0 <= element_layout(source, element)->Some_0.inner_end,
        element_layout(source, element)->Some_0.self_closing ==> row_elements(element).len() == 0,
        !element_layout(source, element)->Some_0.self_closing ==> element_layout(
            source,
            element,
        )->Some_0.inner_end + qualified_name(element).len() + 3 == element_range(
            source,
            element,
        )->Some_0.1,
    ensures
        sheet_markup(
            SheetModel {
                rows: sheet@.rows,
                extent: None,
                attributes: sheet@.attributes,
                trailing: sheet@.trailing,
                prefix: sheet@.prefix,
                rows_ascending: sheet@.rows_ascending,
                self_closing: sheet@.self_closing,
            },
        ) == element_bytes(source, element)->Some_0,
{
    let model = sheet@;
    let rebuilt = SheetModel {
        rows: model.rows,
        extent: None,
        attributes: model.attributes,
        trailing: model.trailing,
        prefix: model.prefix,
        rows_ascending: model.rows_ascending,
        self_closing: model.self_closing,
    };
    let layout = element_layout(source, element)->Some_0;
    let range = element_range(source, element)->Some_0;
    let bytes = source.subrange(range.0, range.1);
    let qname = qualified_name(element);
    let parts = decompose_spec(bytes, qname)->Some_0;
    assert(parts.run_start <= parts.run_end < parts.inner_start <= parts.inner_end <= bytes.len()) by {
        lemma_decompose_bounds(bytes, qname);
    }
    assert(layout.inner_start == range.0 + parts.inner_start && layout.inner_end == range.0
        + parts.inner_end && layout.attribute_run.start == range.0 + parts.run_start
        && layout.attribute_run.spec_end() == range.0 + parts.run_end
        && layout.self_closing == parts.self_closing);
    let run = bytes.subrange(parts.run_start, parts.run_end);
    let inner = bytes.subrange(parts.inner_start, parts.inner_end);
    assert(rows_markup(model.prefix, model.rows) + or_empty(model.trailing) == inner) by {
        let found = lemma_rows_and_trailing(sheet, element, source);
        assert(found =~= inner);
    }
    assert(or_empty(model.attributes) == run) by {
        assert(or_empty(model.attributes) =~= run);
    }
    lemma_decompose_shape(bytes, qname);
    if parts.self_closing {
        assert(model.rows.len() == 0);
        assert(rows_markup(model.prefix, model.rows) == Seq::<u8>::empty());
    }
    lemma_sheet_shape(rebuilt, bytes, qname, run, inner, parts.self_closing);
}

/// A sheet written from its rows is its start tag, its rows and trailing bytes, and its end tag.
proof fn lemma_sheet_shape(
    model: SheetModel,
    bytes: Seq<u8>,
    qname: Seq<u8>,
    run: Seq<u8>,
    inner: Seq<u8>,
    self_closing: bool,
)
    requires
        model.extent is None,
        qualified(model.prefix, local_sheet_data()) == qname,
        or_empty(model.attributes) == run,
        model.self_closing == self_closing,
        rows_markup(model.prefix, model.rows) + or_empty(model.trailing) == inner,
        self_closing ==> model.rows.len() == 0 && inner.len() == 0 && bytes == seq![60u8] + qname
            + run + seq![47u8, 62u8],
        !self_closing ==> bytes == seq![60u8] + qname + run + seq![62u8] + inner + seq![60u8, 47u8]
            + qname + seq![62u8],
    ensures
        sheet_markup(model) == bytes,
{
    let open = seq![60u8] + qname + run;
    let rows = rows_markup(model.prefix, model.rows);
    let trailing = or_empty(model.trailing);
    if self_closing {
        assert(trailing.len() == 0) by {
            assert(inner.len() == rows.len() + trailing.len());
        }
        assert(sheet_markup(model) == open + seq![47u8, 62u8]);
    } else {
        let close = end_tag(model.prefix, local_sheet_data());
        assert(close == seq![60u8, 47u8] + qname + seq![62u8]);
        assert(sheet_markup(model) == open + seq![62u8] + rows + trailing + close);
        assert(open + seq![62u8] + rows + trailing + close =~= open + seq![62u8] + inner + close);
        assert(bytes =~= open + seq![62u8] + inner + close);
    }
}

/// The rows and the bytes after them, as a sheet read with every row ranged writes them, are the
/// element's content in the source.
proof fn lemma_rows_and_trailing(sheet: SheetData, element: SourceElement, source: Seq<u8>) -> (inner: Seq<u8>)
    requires
        sheet_read_from(sheet, element, source),
        element_layout(source, element) is Some,
        sheet_walk(source, element).cursor is Some,
        sheet_walk(source, element).cursor->Some_0 <= element_layout(source, element)->Some_0.inner_end,
    ensures
        inner == rows_markup(sheet@.prefix, sheet@.rows) + or_empty(sheet@.trailing),
        inner == source.subrange(
            element_layout(source, element)->Some_0.inner_start as int,
            element_layout(source, element)->Some_0.inner_end as int,
        ),
{
    let model = sheet@;
    let layout = element_layout(source, element)->Some_0;
    let range = element_range(source, element)->Some_0;
    let bytes = source.subrange(range.0, range.1);
    let qname = qualified_name(element);
    assert(layout.inner_start <= layout.inner_end <= range.1 <= source.len()) by {
        lemma_decompose_bounds(bytes, qname);
    }
    let elements = row_elements(element);
    let start = layout.inner_start as int;
    lemma_walk_ranged(source, element.children@, local_row(), start, element.children@.len() as int);
    let walk = sheet_walk(source, element);
    let end = walk.cursor->Some_0;
    assert forall|r: int| 0 <= r < model.rows.len() implies #[trigger] led_from_cursor(
        source,
        elements,
        start,
        r,
        model.rows[r].leading,
    ) by {
        assert(model.rows[r].leading == walk.leadings[r]);
        assert(led_from_cursor(source, elements, start, r, walk.leadings[r]));
    }
    lemma_rows_markup_ranged(model.prefix, model.rows, source, elements, start, model.rows.len() as int);
    assert(model.rows.subrange(0, model.rows.len() as int) =~= model.rows);
    assert(end == cursor_before(source, elements, start, elements.len() as int));
    let inner = rows_markup(model.prefix, model.rows) + or_empty(model.trailing);
    assert(inner =~= source.subrange(start, layout.inner_end as int));
    inner
}


/// Cells read as ranges of the source, each led by the bytes since the one before it, write as the
/// source bytes they span, gaps included.
proof fn lemma_cells_markup_ranged(
    prefix: Option<Seq<u8>>,
    cells: Seq<CellModel>,
    source: Seq<u8>,
    elements: Seq<SourceElement>,
    start: int,
    k: int,
)
    requires
        0 <= k <= cells.len(),
        k <= elements.len(),
        0 <= start <= source.len(),
        forall|r: int| 0 <= r < k ==> #[trigger] led_from_cursor(source, elements, start, r, cells[r].leading),
        forall|r: int| 0 <= r < k ==> (#[trigger] cells[r]).extent == element_bytes(source, elements[r]),
    ensures
        start <= cursor_before(source, elements, start, k) <= source.len(),
        cells_markup(prefix, cells.subrange(0, k)) == source.subrange(
            start,
            cursor_before(source, elements, start, k),
        ),
    decreases k,
{
    if k == 0 {
        assert(cells.subrange(0, 0) =~= Seq::<CellModel>::empty());
    } else {
        lemma_cells_markup_ranged(prefix, cells, source, elements, start, k - 1);
        let b = cursor_before(source, elements, start, k - 1);
        assert(led_from_cursor(source, elements, start, k - 1, cells[k - 1].leading));
        assert(cells[k - 1].extent == element_bytes(source, elements[k - 1]));
        let range = element_range(source, elements[k - 1])->Some_0;
        assert(cells.subrange(0, k).drop_last() =~= cells.subrange(0, k - 1));
        assert(cells.subrange(0, k).last() == cells[k - 1]);
        assert(source.subrange(start, range.1) =~= source.subrange(start, b) + or_empty(
            cells[k - 1].leading,
        ) + source.subrange(range.0, range.1));
    }
}

/// The cells and the bytes after them, as a row read with every cell ranged writes them, are the
/// row element's content in the source.
proof fn lemma_cells_and_trailing(
    prefix: Option<Seq<u8>>,
    row: RowModel,
    element: SourceElement,
    source: Seq<u8>,
    position: int,
) -> (inner: Seq<u8>)
    requires
        row_read_as(row, element, source, position),
        element_layout(source, element) is Some,
        row_walk(source, element).cursor is Some,
        row_walk(source, element).cursor->Some_0 <= element_layout(source, element)->Some_0.inner_end,
    ensures
        inner == cells_markup(prefix, row.cells) + or_empty(row.trailing),
        inner == source.subrange(
            element_layout(source, element)->Some_0.inner_start as int,
            element_layout(source, element)->Some_0.inner_end as int,
        ),
{
    let layout = element_layout(source, element)->Some_0;
    let range = element_range(source, element)->Some_0;
    let bytes = source.subrange(range.0, range.1);
    let qname = qualified_name(element);
    assert(layout.inner_start <= layout.inner_end <= range.1 <= source.len()) by {
        lemma_decompose_bounds(bytes, qname);
    }
    let elements = cell_elements(element);
    let start = layout.inner_start as int;
    lemma_walk_ranged(source, element.children@, seq![99u8], start, element.children@.len() as int);
    let walk = row_walk(source, element);
    let end = walk.cursor->Some_0;
    let parts = row_references(
        elements,
        row_number_used(element, position),
        row.cells.len() as int,
    )->Ok_0;
    assert forall|r: int| 0 <= r < row.cells.len() implies #[trigger] led_from_cursor(
        source,
        elements,
        start,
        r,
        row.cells[r].leading,
    ) by {
        assert(row.cells[r].leading == walk.leadings[r]);
        assert(led_from_cursor(source, elements, start, r, walk.leadings[r]));
    }
    assert forall|r: int| 0 <= r < row.cells.len() implies (#[trigger] row.cells[r]).extent
        == element_bytes(source, elements[r]) by {
        assert(cell_model_read_as(row.cells[r], elements[r], source, parts[r]));
    }
    lemma_cells_markup_ranged(prefix, row.cells, source, elements, start, row.cells.len() as int);
    assert(row.cells.subrange(0, row.cells.len() as int) =~= row.cells);
    assert(end == cursor_before(source, elements, start, elements.len() as int));
    let inner = cells_markup(prefix, row.cells) + or_empty(row.trailing);
    assert(inner =~= source.subrange(start, layout.inner_end as int));
    inner
}

/// A row written from its cells is its start tag, its cells and trailing bytes, and its end tag.
proof fn lemma_row_shape(
    prefix: Option<Seq<u8>>,
    row: RowModel,
    bytes: Seq<u8>,
    qname: Seq<u8>,
    run: Seq<u8>,
    inner: Seq<u8>,
    self_closing: bool,
)
    requires
        row.extent is None,
        qualified(prefix, local_row()) == qname,
        or_empty(row.attributes) == run,
        has_flag(row.flags, 2u8) == self_closing,
        cells_markup(prefix, row.cells) + or_empty(row.trailing) == inner,
        self_closing ==> row.cells.len() == 0 && inner.len() == 0 && bytes == seq![60u8] + qname + run
            + seq![47u8, 62u8],
        !self_closing ==> bytes == seq![60u8] + qname + run + seq![62u8] + inner + seq![60u8, 47u8]
            + qname + seq![62u8],
    ensures
        row_markup(prefix, row) == bytes,
{
    let open = seq![60u8] + qname + run;
    let cells = cells_markup(prefix, row.cells);
    let trailing = or_empty(row.trailing);
    if self_closing {
        assert(trailing.len() == 0) by {
            assert(inner.len() == cells.len() + trailing.len());
        }
        assert(row_markup(prefix, row) == open + seq![47u8, 62u8]);
    } else {
        let close = end_tag(prefix, local_row());
        assert(close == seq![60u8, 47u8] + qname + seq![62u8]);
        assert(row_markup(prefix, row) == open + seq![62u8] + cells + trailing + close);
        assert(open + seq![62u8] + cells + trailing + close =~= open + seq![62u8] + inner + close);
        assert(bytes =~= open + seq![62u8] + inner + close);
    }
}

/// **A read row rebuilds its bytes.** When a row element's range, and each of its cells' ranges
/// in document order, lie in the source, what the row writes from its cells — as it does once a
/// cell in it is edited — is byte for byte the row's own source: the start tag's attributes as
/// written, every gap between cells, and the bytes after the last. The row must be spelled with
/// the sheet's prefix, which is the one a rebuilt row is written with, and an end tag written
/// with whitespace before its `>` is rebuilt without it.
pub proof fn law_read_row_rebuilds_its_source(
    sheet: SheetData,
    element: SourceElement,
    source: Seq<u8>,
    i: int,
)
    requires
        sheet_read_from(sheet, element, source),
        0 <= i < sheet@.rows.len(),
        qualified_name(row_elements(element)[i]) == qualified(sheet@.prefix, local_row()),
        element_layout(source, row_elements(element)[i]) is Some,
        row_walk(source, row_elements(element)[i]).cursor is Some,
        row_walk(source, row_elements(element)[i]).cursor->Some_0 <= element_layout(
            source,
            row_elements(element)[i],
        )->Some_0.inner_end,
        element_layout(source, row_elements(element)[i])->Some_0.self_closing ==> cell_elements(
            row_elements(element)[i],
        ).len() == 0,
        !element_layout(source, row_elements(element)[i])->Some_0.self_closing ==> element_layout(
            source,
            row_elements(element)[i],
        )->Some_0.inner_end + qualified_name(row_elements(element)[i]).len() + 3 == element_range(
            source,
            row_elements(element)[i],
        )->Some_0.1,
    ensures
        row_markup(
            sheet@.prefix,
            RowModel {
                number: sheet@.rows[i].number,
                flags: sheet@.rows[i].flags,
                leading: sheet@.rows[i].leading,
                extent: None,
                attributes: sheet@.rows[i].attributes,
                trailing: sheet@.rows[i].trailing,
                cells: sheet@.rows[i].cells,
            },
        ) == element_bytes(source, row_elements(element)[i])->Some_0,
{
    let model = sheet@;
    let prefix = model.prefix;
    let row = model.rows[i];
    let rebuilt = RowModel {
        number: row.number,
        flags: row.flags,
        leading: row.leading,
        extent: None,
        attributes: row.attributes,
        trailing: row.trailing,
        cells: row.cells,
    };
    let row_element = row_elements(element)[i];
    assert(row_read_as(row, row_element, source, i));
    let layout = element_layout(source, row_element)->Some_0;
    let range = element_range(source, row_element)->Some_0;
    let bytes = source.subrange(range.0, range.1);
    let qname = qualified_name(row_element);
    let parts = decompose_spec(bytes, qname)->Some_0;
    assert(parts.run_start <= parts.run_end < parts.inner_start <= parts.inner_end <= bytes.len()) by {
        lemma_decompose_bounds(bytes, qname);
    }
    assert(layout.inner_start == range.0 + parts.inner_start && layout.inner_end == range.0
        + parts.inner_end && layout.attribute_run.start == range.0 + parts.run_start
        && layout.attribute_run.spec_end() == range.0 + parts.run_end
        && layout.self_closing == parts.self_closing);
    let run = bytes.subrange(parts.run_start, parts.run_end);
    let inner = bytes.subrange(parts.inner_start, parts.inner_end);
    assert(cells_markup(prefix, row.cells) + or_empty(row.trailing) == inner) by {
        let found = lemma_cells_and_trailing(prefix, row, row_element, source, i);
        assert(found =~= inner);
    }
    assert(or_empty(row.attributes) == run) by {
        assert(or_empty(row.attributes) =~= run);
    }
    lemma_decompose_shape(bytes, qname);
    if parts.self_closing {
        assert(row.cells.len() == 0);
        assert(cells_markup(prefix, row.cells) == Seq::<u8>::empty());
    }
    lemma_row_shape(prefix, rebuilt, bytes, qname, run, inner, parts.self_closing);
}


/// Whether a cell element's value element lies inside the cell's content, and — when it is a
/// `<v>` read by ranges — is spelled the way the store writes one: `<v>`, its text, `</v>`, with
/// `prefix` and nothing else in its tags.
pub open spec fn value_written_plainly(
    source: Seq<u8>,
    cell: SourceElement,
    layout: ElementLayout,
    prefix: Option<Seq<u8>>,
) -> bool {
    match value_index(cell) {
        Some(p) => {
            let value = cell.children@[p]->Element_0;
            match element_range(source, value) {
                Some(range) => {
                    &&& layout.inner_start <= range.0
                    &&& range.1 <= layout.inner_end
                    &&& content_shape(cell) == PayloadShape::ValueText ==> match element_layout(
                        source,
                        value,
                    ) {
                        Some(inner) => {
                            &&& source.subrange(range.0, inner.inner_start as int) == start_tag(
                                prefix,
                                local_v(),
                            )
                            &&& source.subrange(inner.inner_end as int, range.1) == end_tag(
                                prefix,
                                local_v(),
                            )
                        },
                        None => true,
                    }
                },
                None => true,
            }
        },
        None => true,
    }
}

/// A cell's content parts, read by ranges and written back, are the cell's content in the
/// source.
proof fn lemma_cell_content_rebuilds(
    source: Seq<u8>,
    cell: SourceElement,
    layout: ElementLayout,
    prefix: Option<Seq<u8>>,
    model: CellModel,
)
    requires
        layout.inner_start <= layout.inner_end <= source.len(),
        value_written_plainly(source, cell, layout, prefix),
        ({
            let parts = ranged_content(source, cell, layout);
            &&& model.before_payload == parts.before
            &&& model.after_payload == parts.after
            &&& model.payload == parts.payload
            &&& shape_of_flags(model.flags) == parts.shape
        }),
    ensures
        or_empty(model.before_payload) + payload_markup(prefix, model) + or_empty(model.after_payload)
            == source.subrange(layout.inner_start as int, layout.inner_end as int),
{
    let inner = source.subrange(layout.inner_start as int, layout.inner_end as int);
    match value_index(cell) {
        None => {
            assert(or_empty(model.before_payload) + payload_markup(prefix, model) + or_empty(
                model.after_payload,
            ) =~= inner);
        },
        Some(p) => {
            let value = cell.children@[p]->Element_0;
            match element_range(source, value) {
                None => {
                    assert(or_empty(model.before_payload) + payload_markup(prefix, model) + or_empty(
                        model.after_payload,
                    ) =~= inner);
                },
                Some(range) => {
                    if content_shape(cell) == PayloadShape::InlineString {
                        assert(or_empty(model.before_payload) + payload_markup(prefix, model)
                            + or_empty(model.after_payload) =~= inner);
                    } else {
                        match element_layout(source, value) {
                            Some(found) => {
                                let bytes = source.subrange(range.0, range.1);
                                let qname = qualified_name(value);
                                lemma_decompose_bounds(bytes, qname);
                                let split = decompose_spec(bytes, qname)->Some_0;
                                assert(split.inner_start <= split.inner_end <= bytes.len());
                                assert(found.inner_start == range.0 + split.inner_start);
                                assert(found.inner_end == range.0 + split.inner_end);
                                assert(source.subrange(range.0, range.1) =~= source.subrange(
                                    range.0,
                                    found.inner_start as int,
                                ) + source.subrange(found.inner_start as int, found.inner_end as int)
                                    + source.subrange(found.inner_end as int, range.1));
                                assert(or_empty(model.before_payload) + payload_markup(prefix, model)
                                    + or_empty(model.after_payload) =~= inner);
                            },
                            None => {
                                assert(or_empty(model.before_payload) + payload_markup(prefix, model)
                                    + or_empty(model.after_payload) =~= inner);
                            },
                        }
                    }
                },
            }
        },
    }
}

/// A cell written from its parts is its start tag, its content and its end tag.
proof fn lemma_cell_shape(
    prefix: Option<Seq<u8>>,
    cell: CellModel,
    bytes: Seq<u8>,
    qname: Seq<u8>,
    run: Seq<u8>,
    inner: Seq<u8>,
    self_closing: bool,
)
    requires
        cell.extent is None,
        cell_opening(prefix, cell) == seq![60u8] + qname + run,
        has_flag(cell.flags, 4u8) == self_closing,
        or_empty(cell.before_payload) + payload_markup(prefix, cell) + or_empty(cell.after_payload)
            == inner,
        self_closing ==> shape_of_flags(cell.flags) == PayloadShape::Absent && inner.len() == 0
            && bytes == seq![60u8] + qname + run + seq![47u8, 62u8],
        !self_closing ==> bytes == seq![60u8] + qname + run + seq![62u8] + inner + seq![60u8, 47u8]
            + qname + seq![62u8],
        qualified(prefix, local_c()) == qname,
    ensures
        cell_markup(prefix, cell) == bytes,
{
    if self_closing {
        assert(or_empty(cell.before_payload).len() == 0);
        assert(or_empty(cell.after_payload).len() == 0);
        assert(cell_markup(prefix, cell) =~= bytes);
    } else {
        assert(cell_markup(prefix, cell) =~= bytes);
    }
}

/// **A read cell rebuilds its bytes.** When a cell element's range lies in the source, what the
/// cell writes from its parts — as it does once its value or style is edited — is byte for byte
/// the cell's own source: its start tag's attributes as written, its formula and every child
/// before and after its value, and the value. The cell must be spelled with the sheet's prefix,
/// and so must a `<v>` read by ranges, whose tags carry nothing else; an end tag written with
/// whitespace before its `>` is rebuilt without it, and a self-closing cell must have no
/// children.
pub proof fn law_read_cell_rebuilds_its_source(
    sheet: SheetData,
    element: SourceElement,
    source: Seq<u8>,
    i: int,
    k: int,
)
    requires
        sheet_read_from(sheet, element, source),
        0 <= i < sheet@.rows.len(),
        0 <= k < cell_elements(row_elements(element)[i]).len(),
        qualified_name(cell_elements(row_elements(element)[i])[k]) == qualified(
            sheet@.prefix,
            local_c(),
        ),
        element_layout(source, cell_elements(row_elements(element)[i])[k]) is Some,
        value_written_plainly(
            source,
            cell_elements(row_elements(element)[i])[k],
            element_layout(source, cell_elements(row_elements(element)[i])[k])->Some_0,
            sheet@.prefix,
        ),
        element_layout(source, cell_elements(row_elements(element)[i])[k])->Some_0.self_closing
            ==> cell_elements(row_elements(element)[i])[k].children@.len() == 0,
        !element_layout(source, cell_elements(row_elements(element)[i])[k])->Some_0.self_closing
            ==> element_layout(source, cell_elements(row_elements(element)[i])[k])->Some_0.inner_end
            + qualified_name(cell_elements(row_elements(element)[i])[k]).len() + 3
            == element_range(source, cell_elements(row_elements(element)[i])[k])->Some_0.1,
    ensures
        cell_markup(
            sheet@.prefix,
            CellModel {
                reference: sheet@.rows[i].cells[k].reference,
                extent: None,
                payload: sheet@.rows[i].cells[k].payload,
                style: sheet@.rows[i].cells[k].style,
                kind: sheet@.rows[i].cells[k].kind,
                flags: sheet@.rows[i].cells[k].flags,
                attributes: sheet@.rows[i].cells[k].attributes,
                leading: sheet@.rows[i].cells[k].leading,
                formula: sheet@.rows[i].cells[k].formula,
                before_payload: sheet@.rows[i].cells[k].before_payload,
                after_payload: sheet@.rows[i].cells[k].after_payload,
            },
        ) == element_bytes(source, cell_elements(row_elements(element)[i])[k])->Some_0,
{
    let model = sheet@;
    let row_element = row_elements(element)[i];
    let cell_element = cell_elements(row_element)[k];
    assert(cell_content_read_as(model.rows[i].cells[k], cell_element, source)) by {
        assert(row_read_as(model.rows[i], row_element, source, i));
        let parts = row_references(
            cell_elements(row_element),
            row_number_used(row_element, i),
            model.rows[i].cells.len() as int,
        )->Ok_0;
        assert(cell_model_read_as(model.rows[i].cells[k], cell_element, source, parts[k]));
    }
    lemma_cell_rebuilds(model.rows[i].cells[k], cell_element, source, model.prefix);
}

/// A cell holding the parts of its element's own bytes writes those bytes from its parts.
proof fn lemma_cell_rebuilds(cell: CellModel, cell_element: SourceElement, source: Seq<u8>, prefix: Option<Seq<u8>>)
    requires
        cell_content_read_as(cell, cell_element, source),
        qualified_name(cell_element) == qualified(prefix, local_c()),
        element_layout(source, cell_element) is Some,
        value_written_plainly(
            source,
            cell_element,
            element_layout(source, cell_element)->Some_0,
            prefix,
        ),
        element_layout(source, cell_element)->Some_0.self_closing ==> cell_element.children@.len()
            == 0,
        !element_layout(source, cell_element)->Some_0.self_closing ==> element_layout(
            source,
            cell_element,
        )->Some_0.inner_end + qualified_name(cell_element).len() + 3 == element_range(
            source,
            cell_element,
        )->Some_0.1,
    ensures
        cell_markup(
            prefix,
            CellModel {
                reference: cell.reference,
                extent: None,
                payload: cell.payload,
                style: cell.style,
                kind: cell.kind,
                flags: cell.flags,
                attributes: cell.attributes,
                leading: cell.leading,
                formula: cell.formula,
                before_payload: cell.before_payload,
                after_payload: cell.after_payload,
            },
        ) == element_bytes(source, cell_element)->Some_0,
{
    let rebuilt = CellModel {
        reference: cell.reference,
        extent: None,
        payload: cell.payload,
        style: cell.style,
        kind: cell.kind,
        flags: cell.flags,
        attributes: cell.attributes,
        leading: cell.leading,
        formula: cell.formula,
        before_payload: cell.before_payload,
        after_payload: cell.after_payload,
    };
    let layout = element_layout(source, cell_element)->Some_0;
    let range = element_range(source, cell_element)->Some_0;
    let bytes = source.subrange(range.0, range.1);
    let qname = qualified_name(cell_element);
    lemma_decompose_bounds(bytes, qname);
    let decomposed = decompose_spec(bytes, qname)->Some_0;
    assert(decomposed.run_start <= decomposed.run_end < decomposed.inner_start
        <= decomposed.inner_end <= bytes.len());
    assert(layout.inner_start == range.0 + decomposed.inner_start && layout.inner_end == range.0
        + decomposed.inner_end && layout.attribute_run.start == range.0 + decomposed.run_start
        && layout.attribute_run.spec_end() == range.0 + decomposed.run_end
        && layout.self_closing == decomposed.self_closing);
    let run = bytes.subrange(decomposed.run_start, decomposed.run_end);
    let inner = bytes.subrange(decomposed.inner_start, decomposed.inner_end);
    assert(layout_run_bytes(source, cell_element, Some(layout))->Some_0 =~= run);
    assert(cell_opening(prefix, rebuilt) =~= seq![60u8] + qname + run) by {
        assert(cell.attributes == kept_run(run, cell));
    }
    assert(or_empty(rebuilt.before_payload) + payload_markup(prefix, rebuilt) + or_empty(
        rebuilt.after_payload,
    ) == inner) by {
        lemma_cell_content_rebuilds(source, cell_element, layout, prefix, rebuilt);
        assert(source.subrange(layout.inner_start as int, layout.inner_end as int) =~= inner);
    }
    lemma_decompose_shape(bytes, qname);
    if decomposed.self_closing {
        assert(value_index(cell_element) is None);
    }
    lemma_cell_shape(prefix, rebuilt, bytes, qname, run, inner, decomposed.self_closing);
}


/// Rows written one after another: the markup of two runs of rows is the markup of each.
proof fn lemma_rows_markup_concat(prefix: Option<Seq<u8>>, first: Seq<RowModel>, second: Seq<RowModel>)
    ensures
        rows_markup(prefix, first + second) == rows_markup(prefix, first) + rows_markup(prefix, second),
    decreases second.len(),
{
    if second.len() == 0 {
        assert(first + second =~= first);
    } else {
        lemma_rows_markup_concat(prefix, first, second.drop_last());
        assert((first + second).drop_last() =~= first + second.drop_last());
        assert((first + second).last() == second.last());
    }
}

/// Cells written one after another: the markup of two runs of cells is the markup of each.
proof fn lemma_cells_markup_concat(prefix: Option<Seq<u8>>, first: Seq<CellModel>, second: Seq<CellModel>)
    ensures
        cells_markup(prefix, first + second) == cells_markup(prefix, first) + cells_markup(
            prefix,
            second,
        ),
    decreases second.len(),
{
    if second.len() == 0 {
        assert(first + second =~= first);
    } else {
        lemma_cells_markup_concat(prefix, first, second.drop_last());
        assert((first + second).drop_last() =~= first + second.drop_last());
        assert((first + second).last() == second.last());
    }
}


/// Rows read as ranges of the source, from the `from`th up to the `k`th, write as the source
/// bytes from where the cursor stood before the first of them to where it stood after the last.
proof fn lemma_rows_markup_between(
    prefix: Option<Seq<u8>>,
    rows: Seq<RowModel>,
    source: Seq<u8>,
    elements: Seq<SourceElement>,
    start: int,
    from: int,
    k: int,
)
    requires
        0 <= from <= k <= rows.len(),
        k <= elements.len(),
        0 <= start <= source.len(),
        forall|r: int| 0 <= r < k ==> #[trigger] led_from_cursor(source, elements, start, r, rows[r].leading),
        forall|r: int| 0 <= r < k ==> (#[trigger] rows[r]).extent == element_bytes(source, elements[r]),
    ensures
        start <= cursor_before(source, elements, start, from) <= cursor_before(source, elements, start, k)
            <= source.len(),
        rows_markup(prefix, rows.subrange(from, k)) == source.subrange(
            cursor_before(source, elements, start, from),
            cursor_before(source, elements, start, k),
        ),
{
    lemma_rows_markup_ranged(prefix, rows, source, elements, start, k);
    lemma_rows_markup_ranged(prefix, rows, source, elements, start, from);
    lemma_rows_markup_concat(prefix, rows.subrange(0, from), rows.subrange(from, k));
    assert(rows.subrange(0, from) + rows.subrange(from, k) =~= rows.subrange(0, k));
    let whole = source.subrange(start, cursor_before(source, elements, start, k));
    let head = rows_markup(prefix, rows.subrange(0, from));
    assert(rows_markup(prefix, rows.subrange(from, k)) =~= whole.subrange(head.len() as int, whole.len() as int));
}

/// Cells read as ranges of the source, from the `from`th up to the `k`th, write as the source
/// bytes from where the cursor stood before the first of them to where it stood after the last.
proof fn lemma_cells_markup_between(
    prefix: Option<Seq<u8>>,
    cells: Seq<CellModel>,
    source: Seq<u8>,
    elements: Seq<SourceElement>,
    start: int,
    from: int,
    k: int,
)
    requires
        0 <= from <= k <= cells.len(),
        k <= elements.len(),
        0 <= start <= source.len(),
        forall|r: int| 0 <= r < k ==> #[trigger] led_from_cursor(source, elements, start, r, cells[r].leading),
        forall|r: int| 0 <= r < k ==> (#[trigger] cells[r]).extent == element_bytes(source, elements[r]),
    ensures
        start <= cursor_before(source, elements, start, from) <= cursor_before(source, elements, start, k)
            <= source.len(),
        cells_markup(prefix, cells.subrange(from, k)) == source.subrange(
            cursor_before(source, elements, start, from),
            cursor_before(source, elements, start, k),
        ),
{
    lemma_cells_markup_ranged(prefix, cells, source, elements, start, k);
    lemma_cells_markup_ranged(prefix, cells, source, elements, start, from);
    lemma_cells_markup_concat(prefix, cells.subrange(0, from), cells.subrange(from, k));
    assert(cells.subrange(0, from) + cells.subrange(from, k) =~= cells.subrange(0, k));
    let whole = source.subrange(start, cursor_before(source, elements, start, k));
    let head = cells_markup(prefix, cells.subrange(0, from));
    assert(cells_markup(prefix, cells.subrange(from, k)) =~= whole.subrange(head.len() as int, whole.len() as int));
}


/// A run of cells read as ranges, with its `k`th replaced, writes with its trailing bytes as the
/// source from where it starts to `inner_end`, with that cell's bytes replaced by the new cell's
/// markup.
proof fn lemma_changed_cells(
    prefix: Option<Seq<u8>>,
    cells: Seq<CellModel>,
    source: Seq<u8>,
    elements: Seq<SourceElement>,
    start: int,
    inner_end: int,
    trailing: Option<Seq<u8>>,
    k: int,
    edited: CellModel,
)
    requires
        cells.len() <= elements.len(),
        0 <= start <= source.len(),
        0 <= k < cells.len(),
        forall|r: int|
            0 <= r < cells.len() ==> #[trigger] led_from_cursor(source, elements, start, r, cells[r].leading),
        forall|r: int| 0 <= r < cells.len() ==> (#[trigger] cells[r]).extent == element_bytes(source, elements[r]),
        cursor_before(source, elements, start, cells.len() as int) <= inner_end <= source.len(),
        trailing == between_bytes(source, cursor_before(source, elements, start, cells.len() as int), inner_end),
        edited.leading == cells[k].leading,
    ensures
        ({
            let cell = element_range(source, elements[k]);
            &&& cell is Some
            &&& start <= cell->Some_0.0 <= cell->Some_0.1 <= inner_end
            &&& cells_markup(prefix, cells.update(k, edited)) + or_empty(trailing) == source.subrange(
                start,
                cell->Some_0.0,
            ) + cell_markup(prefix, edited) + source.subrange(cell->Some_0.1, inner_end)
        }),
{
    let count = cells.len() as int;
    lemma_cells_markup_between(prefix, cells, source, elements, start, 0, k);
    lemma_cells_markup_between(prefix, cells, source, elements, start, k + 1, count);
    assert(led_from_cursor(source, elements, start, k, cells[k].leading));
    let cell = element_range(source, elements[k])->Some_0;
    let before = cursor_before(source, elements, start, k);
    let end = cursor_before(source, elements, start, count);
    assert(cursor_before(source, elements, start, k + 1) == cell.1);
    let changed = cells.update(k, edited);
    assert(changed =~= cells.subrange(0, k) + seq![edited] + cells.subrange(k + 1, count));
    lemma_cells_markup_concat(prefix, cells.subrange(0, k) + seq![edited], cells.subrange(k + 1, count));
    lemma_cells_markup_concat(prefix, cells.subrange(0, k), seq![edited]);
    assert(seq![edited].drop_last() =~= Seq::<CellModel>::empty());
    assert(seq![edited].last() == edited);
    assert(cells_markup(prefix, Seq::<CellModel>::empty()) == Seq::<u8>::empty());
    assert(cells_markup(prefix, seq![edited]) =~= or_empty(edited.leading) + cell_markup(prefix, edited));
    assert(or_empty(edited.leading) =~= source.subrange(before, cell.0));
    assert(or_empty(trailing) =~= source.subrange(end, inner_end));
    assert(cells_markup(prefix, changed) + or_empty(trailing) =~= source.subrange(start, cell.0)
        + cell_markup(prefix, edited) + source.subrange(cell.1, inner_end));
}

/// What a row read with every cell and gap ranged holds: each cell led from the cursor and
/// spanning its element's bytes, and the bytes after the last cell running to the content's end.
proof fn lemma_row_ranged_facts(row: RowModel, element: SourceElement, source: Seq<u8>, position: int)
    requires
        row_read_as(row, element, source, position),
        element_layout(source, element) is Some,
        row_walk(source, element).cursor is Some,
    ensures
        ({
            let start = element_layout(source, element)->Some_0.inner_start as int;
            let elements = cell_elements(element);
            &&& row.cells.len() <= elements.len()
            &&& forall|r: int|
                0 <= r < row.cells.len() ==> #[trigger] led_from_cursor(
                    source,
                    elements,
                    start,
                    r,
                    row.cells[r].leading,
                )
            &&& forall|r: int|
                0 <= r < row.cells.len() ==> (#[trigger] row.cells[r]).extent == element_bytes(
                    source,
                    elements[r],
                )
            &&& row_walk(source, element).cursor == Some(
                cursor_before(source, elements, start, row.cells.len() as int),
            )
            &&& row.trailing == between_bytes(
                source,
                cursor_before(source, elements, start, row.cells.len() as int),
                element_layout(source, element)->Some_0.inner_end as int,
            )
        }),
{
    let layout = element_layout(source, element)->Some_0;
    let elements = cell_elements(element);
    let start = layout.inner_start as int;
    let walk = row_walk(source, element);
    lemma_walk_ranged(source, element.children@, seq![99u8], start, element.children@.len() as int);
    let cells = row.cells;
    let count = cells.len() as int;
    let parts_at = row_references(elements, row_number_used(element, position), count)->Ok_0;
    assert forall|j: int| 0 <= j < count implies #[trigger] led_from_cursor(
        source,
        elements,
        start,
        j,
        cells[j].leading,
    ) by {
        assert(cells[j].leading == walk.leadings[j]);
        assert(led_from_cursor(source, elements, start, j, walk.leadings[j]));
    }
    assert forall|j: int| 0 <= j < count implies (#[trigger] cells[j]).extent == element_bytes(
        source,
        elements[j],
    ) by {
        assert(cell_model_read_as(cells[j], elements[j], source, parts_at[j]));
    }
}

/// A read row whose `k`th cell is replaced writes as its own source bytes with that cell's bytes
/// replaced by the new cell's markup — provided the row's cells, and the gaps between them, were
/// all read as ranges, and the new cell keeps the bytes that led the old one.
proof fn lemma_edited_row_markup(
    prefix: Option<Seq<u8>>,
    row: RowModel,
    element: SourceElement,
    source: Seq<u8>,
    position: int,
    k: int,
    edited: CellModel,
)
    requires
        row_read_as(row, element, source, position),
        qualified_name(element) == qualified(prefix, local_row()),
        element_layout(source, element) is Some,
        !element_layout(source, element)->Some_0.self_closing,
        row_walk(source, element).cursor is Some,
        row_walk(source, element).cursor->Some_0 <= element_layout(source, element)->Some_0.inner_end,
        element_layout(source, element)->Some_0.inner_end + qualified_name(element).len() + 3
            == element_range(source, element)->Some_0.1,
        0 <= k < row.cells.len(),
        edited.leading == row.cells[k].leading,
    ensures
        ({
            let range = element_range(source, element)->Some_0;
            let cell = element_range(source, cell_elements(element)[k]);
            &&& cell is Some
            &&& range.0 <= cell->Some_0.0 <= cell->Some_0.1 <= range.1
            &&& row_markup(
                prefix,
                RowModel { extent: None, cells: row.cells.update(k, edited), ..row },
            ) == source.subrange(range.0, cell->Some_0.0) + cell_markup(prefix, edited)
                + source.subrange(cell->Some_0.1, range.1)
        }),
{
    lemma_row_ranged_facts(row, element, source, position);
    lemma_spliced_row(prefix, row, element, source, k, edited);
}

/// [`lemma_edited_row_markup`] from the facts a ranged read leaves behind.
#[verifier::rlimit(40)]
proof fn lemma_spliced_row(
    prefix: Option<Seq<u8>>,
    row: RowModel,
    element: SourceElement,
    source: Seq<u8>,
    k: int,
    edited: CellModel,
)
    requires
        qualified_name(element) == qualified(prefix, local_row()),
        element_layout(source, element) is Some,
        !element_layout(source, element)->Some_0.self_closing,
        element_layout(source, element)->Some_0.inner_end + qualified_name(element).len() + 3
            == element_range(source, element)->Some_0.1,
        row.attributes == layout_run_bytes(source, element, element_layout(source, element)),
        ({
            let start = element_layout(source, element)->Some_0.inner_start as int;
            let elements = cell_elements(element);
            &&& row.cells.len() <= elements.len()
            &&& forall|r: int|
                0 <= r < row.cells.len() ==> #[trigger] led_from_cursor(
                    source,
                    elements,
                    start,
                    r,
                    row.cells[r].leading,
                )
            &&& forall|r: int|
                0 <= r < row.cells.len() ==> (#[trigger] row.cells[r]).extent == element_bytes(
                    source,
                    elements[r],
                )
            &&& cursor_before(source, elements, start, row.cells.len() as int) <= element_layout(
                source,
                element,
            )->Some_0.inner_end
            &&& row.trailing == between_bytes(
                source,
                cursor_before(source, elements, start, row.cells.len() as int),
                element_layout(source, element)->Some_0.inner_end as int,
            )
        }),
        0 <= k < row.cells.len(),
        edited.leading == row.cells[k].leading,
    ensures
        ({
            let range = element_range(source, element)->Some_0;
            let cell = element_range(source, cell_elements(element)[k]);
            &&& cell is Some
            &&& range.0 <= cell->Some_0.0 <= cell->Some_0.1 <= range.1
            &&& row_markup(
                prefix,
                RowModel { extent: None, cells: row.cells.update(k, edited), ..row },
            ) == source.subrange(range.0, cell->Some_0.0) + cell_markup(prefix, edited)
                + source.subrange(cell->Some_0.1, range.1)
        }),
{
    let layout = element_layout(source, element)->Some_0;
    let range = element_range(source, element)->Some_0;
    let bytes = source.subrange(range.0, range.1);
    let qname = qualified_name(element);
    lemma_decompose_bounds(bytes, qname);
    let parts = decompose_spec(bytes, qname)->Some_0;
    assert(layout.inner_start == range.0 + parts.inner_start && layout.inner_end == range.0
        + parts.inner_end && layout.attribute_run.start == range.0 + parts.run_start
        && layout.attribute_run.spec_end() == range.0 + parts.run_end
        && layout.self_closing == parts.self_closing);
    let start = layout.inner_start as int;
    let elements = cell_elements(element);
    lemma_changed_cells(
        prefix,
        row.cells,
        source,
        elements,
        start,
        layout.inner_end as int,
        row.trailing,
        k,
        edited,
    );
    let cell = element_range(source, elements[k])->Some_0;
    let changed = row.cells.update(k, edited);
    let inner_bytes = cells_markup(prefix, changed) + or_empty(row.trailing);
    let run = bytes.subrange(parts.run_start, parts.run_end);
    assert(or_empty(row.attributes) == run) by {
        assert(or_empty(row.attributes) =~= run);
    }
    let head = seq![60u8] + qname + run + seq![62u8];
    let tail = seq![60u8, 47u8] + qname + seq![62u8];
    assert(source.subrange(range.0, cell.0) == head + source.subrange(start, cell.0)) by {
        lemma_decompose_shape(bytes, qname);
        assert(bytes.subrange(0, parts.inner_start) =~= head);
        assert(source.subrange(range.0, cell.0) =~= bytes.subrange(0, parts.inner_start)
            + source.subrange(start, cell.0));
    }
    assert(source.subrange(cell.1, range.1) == source.subrange(cell.1, layout.inner_end as int) + tail)
        by {
        lemma_decompose_shape(bytes, qname);
        assert(bytes.subrange(parts.inner_end, bytes.len() as int) =~= tail);
        assert(source.subrange(cell.1, range.1) =~= source.subrange(cell.1, layout.inner_end as int)
            + bytes.subrange(parts.inner_end, bytes.len() as int));
    }
    let rebuilt = RowModel { extent: None, cells: changed, ..row };
    lemma_row_splice(prefix, rebuilt, qname, run, inner_bytes);
    lemma_regroup(
        head,
        source.subrange(start, cell.0),
        cell_markup(prefix, edited),
        source.subrange(cell.1, layout.inner_end as int),
        tail,
    );
}

/// Concatenation regroups: the middle three pieces between a head and a tail may be taken as
/// one, or the head joined to the first and the last to the tail.
proof fn lemma_regroup(head: Seq<u8>, first: Seq<u8>, middle: Seq<u8>, last: Seq<u8>, tail: Seq<u8>)
    ensures
        head + (first + middle + last) + tail == (head + first) + middle + (last + tail),
{
    assert(head + (first + middle + last) + tail =~= (head + first) + middle + (last + tail));
}

/// A row with cells, written from its parts, is its start tag, its cells and trailing bytes, and
/// its end tag.
proof fn lemma_row_splice(prefix: Option<Seq<u8>>, row: RowModel, qname: Seq<u8>, run: Seq<u8>, inner: Seq<u8>)
    requires
        row.extent is None,
        row.cells.len() > 0,
        qualified(prefix, local_row()) == qname,
        or_empty(row.attributes) == run,
        cells_markup(prefix, row.cells) + or_empty(row.trailing) == inner,
    ensures
        row_markup(prefix, row) == seq![60u8] + qname + run + seq![62u8] + inner + (seq![60u8, 47u8]
            + qname + seq![62u8]),
{
    assert(row_markup(prefix, row) =~= seq![60u8] + qname + run + seq![62u8] + inner + (seq![
        60u8,
        47u8,
    ] + qname + seq![62u8]));
}


/// A run of rows read as ranges, with its `r`th replaced by one led by the same bytes, writes
/// with its trailing bytes as the source from where it starts to `inner_end`, with that row's
/// bytes replaced by the new row's markup.
proof fn lemma_changed_rows(
    prefix: Option<Seq<u8>>,
    rows: Seq<RowModel>,
    source: Seq<u8>,
    elements: Seq<SourceElement>,
    start: int,
    inner_end: int,
    trailing: Option<Seq<u8>>,
    r: int,
    replaced: RowModel,
)
    requires
        rows.len() <= elements.len(),
        0 <= start <= source.len(),
        0 <= r < rows.len(),
        forall|i: int|
            0 <= i < rows.len() ==> #[trigger] led_from_cursor(source, elements, start, i, rows[i].leading),
        forall|i: int| 0 <= i < rows.len() ==> (#[trigger] rows[i]).extent == element_bytes(source, elements[i]),
        cursor_before(source, elements, start, rows.len() as int) <= inner_end <= source.len(),
        trailing == between_bytes(source, cursor_before(source, elements, start, rows.len() as int), inner_end),
        replaced.leading == rows[r].leading,
    ensures
        ({
            let row = element_range(source, elements[r]);
            &&& row is Some
            &&& start <= row->Some_0.0 <= row->Some_0.1 <= inner_end
            &&& rows_markup(prefix, rows.update(r, replaced)) + or_empty(trailing) == source.subrange(
                start,
                row->Some_0.0,
            ) + row_markup(prefix, replaced) + source.subrange(row->Some_0.1, inner_end)
        }),
{
    let count = rows.len() as int;
    lemma_rows_markup_between(prefix, rows, source, elements, start, 0, r);
    lemma_rows_markup_between(prefix, rows, source, elements, start, r + 1, count);
    assert(led_from_cursor(source, elements, start, r, rows[r].leading));
    let row = element_range(source, elements[r])->Some_0;
    let before = cursor_before(source, elements, start, r);
    let end = cursor_before(source, elements, start, count);
    assert(cursor_before(source, elements, start, r + 1) == row.1);
    let changed = rows.update(r, replaced);
    assert(changed =~= rows.subrange(0, r) + seq![replaced] + rows.subrange(r + 1, count));
    lemma_rows_markup_concat(prefix, rows.subrange(0, r) + seq![replaced], rows.subrange(r + 1, count));
    lemma_rows_markup_concat(prefix, rows.subrange(0, r), seq![replaced]);
    assert(seq![replaced].drop_last() =~= Seq::<RowModel>::empty());
    assert(seq![replaced].last() == replaced);
    assert(rows_markup(prefix, Seq::<RowModel>::empty()) == Seq::<u8>::empty());
    assert(rows_markup(prefix, seq![replaced]) =~= or_empty(replaced.leading) + row_markup(
        prefix,
        replaced,
    ));
    assert(or_empty(replaced.leading) =~= source.subrange(before, row.0));
    assert(or_empty(trailing) =~= source.subrange(end, inner_end));
    assert(rows_markup(prefix, changed) + or_empty(trailing) =~= source.subrange(start, row.0)
        + row_markup(prefix, replaced) + source.subrange(row.1, inner_end));
}

/// What a sheet read with every row and gap ranged holds: each row led from the cursor and
/// spanning its element's bytes, the bytes after the last row running to the content's end, and
/// the start tag's attribute run as written.
proof fn lemma_sheet_ranged_facts(sheet: SheetData, element: SourceElement, source: Seq<u8>)
    requires
        sheet_read_from(sheet, element, source),
        element_layout(source, element) is Some,
        sheet_walk(source, element).cursor is Some,
    ensures
        ({
            let start = element_layout(source, element)->Some_0.inner_start as int;
            let elements = row_elements(element);
            let rows = sheet@.rows;
            &&& rows.len() == elements.len()
            &&& forall|i: int|
                0 <= i < rows.len() ==> #[trigger] led_from_cursor(
                    source,
                    elements,
                    start,
                    i,
                    rows[i].leading,
                )
            &&& forall|i: int|
                0 <= i < rows.len() ==> (#[trigger] rows[i]).extent == element_bytes(source, elements[i])
            &&& sheet_walk(source, element).cursor == Some(
                cursor_before(source, elements, start, rows.len() as int),
            )
            &&& sheet@.trailing == between_bytes(
                source,
                cursor_before(source, elements, start, rows.len() as int),
                element_layout(source, element)->Some_0.inner_end as int,
            )
        }),
{
    let layout = element_layout(source, element)->Some_0;
    let elements = row_elements(element);
    let start = layout.inner_start as int;
    let walk = sheet_walk(source, element);
    lemma_walk_ranged(source, element.children@, local_row(), start, element.children@.len() as int);
    let rows = sheet@.rows;
    assert forall|i: int| 0 <= i < rows.len() implies #[trigger] led_from_cursor(
        source,
        elements,
        start,
        i,
        rows[i].leading,
    ) by {
        assert(rows[i].leading == walk.leadings[i]);
        assert(led_from_cursor(source, elements, start, i, walk.leadings[i]));
    }
    assert forall|i: int| 0 <= i < rows.len() implies (#[trigger] rows[i]).extent == element_bytes(
        source,
        elements[i],
    ) by {
        assert(row_read_as(rows[i], elements[i], source, i));
    }
}

/// A sheet with rows, written from its parts, is its start tag, its rows and trailing bytes, and
/// its end tag.
proof fn lemma_sheet_splice(model: SheetModel, qname: Seq<u8>, run: Seq<u8>, inner: Seq<u8>)
    requires
        model.extent is None,
        model.rows.len() > 0,
        qualified(model.prefix, local_sheet_data()) == qname,
        or_empty(model.attributes) == run,
        rows_markup(model.prefix, model.rows) + or_empty(model.trailing) == inner,
    ensures
        sheet_markup(model) == seq![60u8] + qname + run + seq![62u8] + inner + (seq![60u8, 47u8]
            + qname + seq![62u8]),
{
    assert(sheet_markup(model) =~= seq![60u8] + qname + run + seq![62u8] + inner + (seq![
        60u8,
        47u8,
    ] + qname + seq![62u8]));
}


/// A cell edit at a cell the sheet holds replaces that cell in its row, and clears that row's and
/// the sheet's extents; nothing else changes.
proof fn lemma_edit_at_held_cell(model: SheetModel, reference: CellReference, edited: CellModel)
    requires
        holds_cell(model, reference),
    ensures
        ({
            let r = edit_row_index(model, reference);
            let k = edit_cell_offset(model, reference);
            &&& find_row(model.rows, row_number_of(reference), 0) == Some(r)
            &&& 0 <= r < model.rows.len()
            &&& 0 <= k < model.rows[r].cells.len()
            &&& with_edited_cell(model, reference, edited) == SheetModel {
                rows: model.rows.update(
                    r,
                    RowModel {
                        extent: None,
                        cells: model.rows[r].cells.update(k, edited),
                        ..model.rows[r]
                    },
                ),
                extent: None,
                ..model
            }
        }),
{
    let number = row_number_of(reference);
    lemma_find_row_found(model.rows, number, 0);
    let r = find_row(model.rows, number, 0)->0;
    reference.lemma_column_bounded();
    lemma_find_cell_found(model.rows[r].cells, reference.column_index() as u16, 0);
}

/// Concatenation regroups around a middle piece.
proof fn lemma_regroup_around(
    head: Seq<u8>,
    a: Seq<u8>,
    b: Seq<u8>,
    middle: Seq<u8>,
    c: Seq<u8>,
    d: Seq<u8>,
    tail: Seq<u8>,
)
    ensures
        head + (a + (b + middle + c) + d) + tail == (head + a + b) + middle + (c + d + tail),
{
    assert(head + (a + (b + middle + c) + d) + tail =~= (head + a + b) + middle + (c + d + tail));
}

/// **An edit rewrites its own cell and nothing else.** A sheet read with every row, and every
/// cell of the edited row, read as ranges of the source — the gaps between them too — writes,
/// after a value or style edit to a cell it holds, exactly the element's source bytes with that
/// one cell's bytes replaced by the edited cell's markup: every other row, every other cell of
/// its row, every gap, and both rows' and the sheet's start tags come back byte for byte. The
/// sheet and the edited row must be spelled with the prefix new elements are written with, and
/// their end tags with no whitespace before `>`; the edited cell keeps the bytes that led it.
pub proof fn law_edit_rewrites_only_its_cell(
    sheet: SheetData,
    element: SourceElement,
    source: Seq<u8>,
    reference: CellReference,
    edited: CellModel,
)
    requires
        sheet_read_from(sheet, element, source),
        element.local@ == local_sheet_data(),
        element_layout(source, element) is Some,
        sheet_walk(source, element).cursor is Some,
        sheet_walk(source, element).cursor->Some_0 <= element_layout(source, element)->Some_0.inner_end,
        element_layout(source, element)->Some_0.self_closing ==> row_elements(element).len() == 0,
        !element_layout(source, element)->Some_0.self_closing ==> element_layout(
            source,
            element,
        )->Some_0.inner_end + qualified_name(element).len() + 3 == element_range(
            source,
            element,
        )->Some_0.1,
        holds_cell(sheet@, reference),
        qualified_name(row_elements(element)[edit_row_index(sheet@, reference)]) == qualified(
            sheet@.prefix,
            local_row(),
        ),
        element_layout(source, row_elements(element)[edit_row_index(sheet@, reference)]) is Some,
        !element_layout(
            source,
            row_elements(element)[edit_row_index(sheet@, reference)],
        )->Some_0.self_closing,
        row_walk(source, row_elements(element)[edit_row_index(sheet@, reference)]).cursor is Some,
        row_walk(source, row_elements(element)[edit_row_index(sheet@, reference)]).cursor->Some_0
            <= element_layout(
            source,
            row_elements(element)[edit_row_index(sheet@, reference)],
        )->Some_0.inner_end,
        element_layout(
            source,
            row_elements(element)[edit_row_index(sheet@, reference)],
        )->Some_0.inner_end + qualified_name(
            row_elements(element)[edit_row_index(sheet@, reference)],
        ).len() + 3 == element_range(
            source,
            row_elements(element)[edit_row_index(sheet@, reference)],
        )->Some_0.1,
        edited.leading == sheet@.rows[edit_row_index(sheet@, reference)].cells[edit_cell_offset(
            sheet@,
            reference,
        )].leading,
    ensures
        ({
            let range = element_range(source, element)->Some_0;
            let cell = element_range(
                source,
                cell_elements(
                    row_elements(element)[edit_row_index(sheet@, reference)],
                )[edit_cell_offset(sheet@, reference)],
            );
            &&& cell is Some
            &&& sheet_markup(with_edited_cell(sheet@, reference, edited)) == source.subrange(
                range.0,
                cell->Some_0.0,
            ) + cell_markup(sheet@.prefix, edited) + source.subrange(cell->Some_0.1, range.1)
        }),
{
    let model = sheet@;
    let prefix = model.prefix;
    lemma_edit_at_held_cell(model, reference, edited);
    let r = edit_row_index(model, reference);
    let k = edit_cell_offset(model, reference);
    let row_element = row_elements(element)[r];
    let old_row = model.rows[r];
    assert(row_read_as(old_row, row_element, source, r));
    lemma_edited_row_markup(prefix, old_row, row_element, source, r, k, edited);
    lemma_sheet_ranged_facts(sheet, element, source);
    lemma_edit_splice(model, element, source, r, k, edited);
}

/// The bytes of an element around a stretch of its content: its start tag and the content
/// before the stretch, and the content after it and its end tag.
#[verifier::rlimit(60)]
proof fn lemma_element_bytes_around(
    source: Seq<u8>,
    qname: Seq<u8>,
    lo: int,
    hi: int,
    a: int,
    c0: int,
    c1: int,
    b: int,
)
    requires
        0 <= lo <= hi <= source.len(),
        decompose_spec(source.subrange(lo, hi), qname) is Some,
        ({
            let parts = decompose_spec(source.subrange(lo, hi), qname)->Some_0;
            &&& !parts.self_closing
            &&& parts.inner_end + qname.len() + 3 == hi - lo
            &&& lo + parts.inner_start <= a <= c0 <= c1 <= b <= lo + parts.inner_end
        }),
    ensures
        ({
            let bytes = source.subrange(lo, hi);
            let parts = decompose_spec(bytes, qname)->Some_0;
            let head = seq![60u8] + qname + bytes.subrange(parts.run_start, parts.run_end) + seq![62u8];
            let tail = seq![60u8, 47u8] + qname + seq![62u8];
            &&& head + source.subrange(lo + parts.inner_start, a) + source.subrange(a, c0)
                == source.subrange(lo, c0)
            &&& source.subrange(c1, b) + source.subrange(b, lo + parts.inner_end) + tail
                == source.subrange(c1, hi)
        }),
{
    let bytes = source.subrange(lo, hi);
    lemma_decompose_bounds(bytes, qname);
    let parts = decompose_spec(bytes, qname)->Some_0;
    let head = seq![60u8] + qname + bytes.subrange(parts.run_start, parts.run_end) + seq![62u8];
    let tail = seq![60u8, 47u8] + qname + seq![62u8];
    let start = lo + parts.inner_start;
    let inner_end = lo + parts.inner_end;
    lemma_decompose_shape(bytes, qname);
    assert(bytes.subrange(0, parts.inner_start) =~= head);
    assert(source.subrange(lo, c0) =~= bytes.subrange(0, parts.inner_start)
        + source.subrange(start, a) + source.subrange(a, c0));
    assert(bytes.subrange(parts.inner_end, bytes.len() as int) =~= tail);
    assert(source.subrange(c1, hi) =~= source.subrange(c1, b) + source.subrange(b, inner_end)
        + bytes.subrange(parts.inner_end, bytes.len() as int));
}

/// [`law_edit_rewrites_only_its_cell`] from the facts a ranged read leaves behind.
#[verifier::rlimit(40)]
proof fn lemma_edit_splice(
    model: SheetModel,
    element: SourceElement,
    source: Seq<u8>,
    r: int,
    k: int,
    edited: CellModel,
)
    requires
        model.prefix == (match element.prefix {
            Some(prefix) => Some(prefix@),
            None => None,
        }),
        element.local@ == local_sheet_data(),
        element_layout(source, element) is Some,
        !element_layout(source, element)->Some_0.self_closing,
        element_layout(source, element)->Some_0.inner_end + qualified_name(element).len() + 3
            == element_range(source, element)->Some_0.1,
        model.attributes == layout_run_bytes(source, element, element_layout(source, element)),
        0 <= r < model.rows.len(),
        0 <= k < model.rows[r].cells.len(),
        edited.leading == model.rows[r].cells[k].leading,
        ({
            let start = element_layout(source, element)->Some_0.inner_start as int;
            let elements = row_elements(element);
            let rows = model.rows;
            &&& rows.len() == elements.len()
            &&& forall|i: int|
                0 <= i < rows.len() ==> #[trigger] led_from_cursor(
                    source,
                    elements,
                    start,
                    i,
                    rows[i].leading,
                )
            &&& forall|i: int|
                0 <= i < rows.len() ==> (#[trigger] rows[i]).extent == element_bytes(source, elements[i])
            &&& cursor_before(source, elements, start, rows.len() as int) <= element_layout(
                source,
                element,
            )->Some_0.inner_end
            &&& model.trailing == between_bytes(
                source,
                cursor_before(source, elements, start, rows.len() as int),
                element_layout(source, element)->Some_0.inner_end as int,
            )
        }),
        ({
            let range = element_range(source, row_elements(element)[r])->Some_0;
            let cell = element_range(source, cell_elements(row_elements(element)[r])[k]);
            &&& cell is Some
            &&& range.0 <= cell->Some_0.0 <= cell->Some_0.1 <= range.1
            &&& row_markup(
                model.prefix,
                RowModel {
                    extent: None,
                    cells: model.rows[r].cells.update(k, edited),
                    ..model.rows[r]
                },
            ) == source.subrange(range.0, cell->Some_0.0) + cell_markup(model.prefix, edited)
                + source.subrange(cell->Some_0.1, range.1)
        }),
    ensures
        ({
            let range = element_range(source, element)->Some_0;
            let cell = element_range(source, cell_elements(row_elements(element)[r])[k])->Some_0;
            sheet_markup(
                SheetModel {
                    rows: model.rows.update(
                        r,
                        RowModel {
                            extent: None,
                            cells: model.rows[r].cells.update(k, edited),
                            ..model.rows[r]
                        },
                    ),
                    extent: None,
                    ..model
                },
            ) == source.subrange(range.0, cell.0) + cell_markup(model.prefix, edited)
                + source.subrange(cell.1, range.1)
        }),
{
    let prefix = model.prefix;
    let old_row = model.rows[r];
    let replaced = RowModel { extent: None, cells: old_row.cells.update(k, edited), ..old_row };
    let after = SheetModel { rows: model.rows.update(r, replaced), extent: None, ..model };
    let row_element = row_elements(element)[r];
    let row_range = element_range(source, row_element)->Some_0;
    let cell = element_range(source, cell_elements(row_element)[k])->Some_0;
    let layout = element_layout(source, element)->Some_0;
    let range = element_range(source, element)->Some_0;
    let bytes = source.subrange(range.0, range.1);
    let qname = qualified_name(element);
    lemma_decompose_bounds(bytes, qname);
    let parts = decompose_spec(bytes, qname)->Some_0;
    assert(layout.inner_start == range.0 + parts.inner_start && layout.inner_end == range.0
        + parts.inner_end && layout.attribute_run.start == range.0 + parts.run_start
        && layout.attribute_run.spec_end() == range.0 + parts.run_end
        && layout.self_closing == parts.self_closing);
    let start = layout.inner_start as int;
    let inner_end = layout.inner_end as int;
    lemma_changed_rows(
        prefix,
        model.rows,
        source,
        row_elements(element),
        start,
        inner_end,
        model.trailing,
        r,
        replaced,
    );
    let inner = rows_markup(prefix, after.rows) + or_empty(after.trailing);
    let run = bytes.subrange(parts.run_start, parts.run_end);
    assert(or_empty(after.attributes) == run) by {
        assert(or_empty(model.attributes) =~= run);
    }
    lemma_sheet_splice(after, qname, run, inner);
    let head = seq![60u8] + qname + run + seq![62u8];
    let tail = seq![60u8, 47u8] + qname + seq![62u8];
    lemma_element_bytes_around(source, qname, range.0, range.1, row_range.0, cell.0, cell.1, row_range.1);
    lemma_regroup_around(
        head,
        source.subrange(start, row_range.0),
        source.subrange(row_range.0, cell.0),
        cell_markup(prefix, edited),
        source.subrange(cell.1, row_range.1),
        source.subrange(row_range.1, inner_end),
        tail,
    );
}


/// Every cell of the first `count` rows, row after row.
pub open spec fn cells_of_rows(rows: Seq<RowModel>, count: int) -> Seq<CellModel>
    decreases count,
{
    if count <= 0 {
        Seq::empty()
    } else {
        cells_of_rows(rows, count - 1) + rows[count - 1].cells
    }
}

/// Where the cells of the row at `count` begin in the flat cell records: past every cell of the
/// rows before it.
spec fn cells_before(sheet: SheetData, count: int) -> int {
    if count <= 0 {
        0
    } else {
        sheet.raw_rows()[count - 1].first_cell + sheet.raw_rows()[count - 1].cell_count
    }
}

/// The cells of the first `count` rows are the first cell records, in order.
proof fn lemma_cells_of_rows_prefix(sheet: SheetData, count: int)
    requires
        sheet.wf(),
        0 <= count <= sheet@.rows.len(),
    ensures
        0 <= cells_before(sheet, count) <= sheet.raw_cells().len(),
        cells_of_rows(sheet@.rows, count) == Seq::new(
            cells_before(sheet, count) as nat,
            |k: int| sheet.cell_at(k),
        ),
    decreases count,
{
    let rows = sheet.raw_rows();
    if count > 0 {
        lemma_cells_of_rows_prefix(sheet, count - 1);
        let row = rows[count - 1];
        assert(row.first_cell + row.cell_count <= sheet.raw_cells().len());
        if count > 1 {
            assert(rows[count - 2].first_cell + rows[count - 2].cell_count == rows[count - 1].first_cell);
        }
        assert(cells_before(sheet, count - 1) == row.first_cell);
        assert(cells_of_rows(sheet@.rows, count) =~= Seq::new(
            cells_before(sheet, count) as nat,
            |k: int| sheet.cell_at(k),
        ));
    }
}

/// **The sheet's cells are its rows' cells, row after row.** Walking every cell of the sheet
/// meets exactly the cells of its first row, then those of its second, and so on, each once and
/// in the order its row holds them; so the sheet holds as many cells as its rows do together.
pub proof fn law_sheet_cells_are_its_rows_cells(sheet: SheetData)
    requires
        sheet.wf(),
    ensures
        cells_of_rows(sheet@.rows, sheet@.rows.len() as int) == Seq::new(
            sheet.raw_cells().len(),
            |k: int| sheet.cell_at(k),
        ),
{
    lemma_cells_of_rows_prefix(sheet, sheet@.rows.len() as int);
}


/// **A part read whole is verbatim throughout.** A `sheetData` element read with its own range,
/// every row's and every cell's range, and every gap between them lying in the source comes back
/// verbatim: the sheet, each row and each cell keep the bytes they were read from, and the store
/// owns no bytes of its own.
pub proof fn law_fully_ranged_read_is_verbatim(sheet: SheetData, element: SourceElement, source: Seq<u8>)
    requires
        sheet_read_from(sheet, element, source),
        sheet_fully_ranged(source, element),
    ensures
        sheet@.extent is Some,
        sheet.edited_count() == 0,
        forall|i: int| 0 <= i < sheet@.rows.len() ==> (#[trigger] sheet@.rows[i]).extent is Some,
        forall|i: int, k: int|
            0 <= i < sheet@.rows.len() && 0 <= k < sheet@.rows[i].cells.len() ==> (
            #[trigger] sheet@.rows[i].cells[k]).extent is Some,
{
    let rows = row_elements(element);
    assert forall|i: int, k: int|
        0 <= i < sheet@.rows.len() && 0 <= k < sheet@.rows[i].cells.len() implies (
        #[trigger] sheet@.rows[i].cells[k]).extent is Some by {
        let row = sheet@.rows[i];
        assert(row_read_as(row, rows[i], source, i));
        assert(row_fully_ranged(source, rows[i]));
        assert(element_layout(source, cell_elements(rows[i])[k]) is Some);
        let parts = row_references(
            cell_elements(rows[i]),
            row_number_used(rows[i], i),
            row.cells.len() as int,
        )->Ok_0;
        assert(cell_model_read_as(row.cells[k], cell_elements(rows[i])[k], source, parts[k]));
    }
    assert forall|i: int| 0 <= i < sheet@.rows.len() implies (#[trigger] sheet@.rows[i]).extent is Some by {
        assert(row_read_as(sheet@.rows[i], rows[i], source, i));
        assert(row_fully_ranged(source, rows[i]));
    }
}


/// Whether `node` is an element named `v` or `is`: one that can hold a cell's value.
pub open spec fn holds_value(node: SourceNode) -> bool {
    match node {
        SourceNode::Element(element) => element.local@ == seq![118u8] || element.local@ == seq![
            105u8,
            115u8,
        ],
        _ => false,
    }
}

/// The search for a cell's value element, from `from` on, stops at the first child that can hold
/// a value.
proof fn lemma_first_value_element_at(nodes: Seq<SourceNode>, from: int, p: int)
    requires
        0 <= from <= p < nodes.len(),
        holds_value(nodes[p]),
        forall|q: int| from <= q < p ==> !holds_value(#[trigger] nodes[q]),
    ensures
        super::read::first_value_element(nodes, from) == Some(p),
    decreases p - from,
{
    if from < p {
        assert(!holds_value(nodes[from]));
        lemma_first_value_element_at(nodes, from + 1, p);
    }
}

/// The model of the `k`th cell of the `i`th row of a read sheet holds what that cell element's
/// content and attributes say.
proof fn lemma_read_cell(sheet: SheetData, element: SourceElement, source: Seq<u8>, i: int, k: int)
    requires
        sheet_read_from(sheet, element, source),
        0 <= i < sheet@.rows.len(),
        0 <= k < sheet@.rows[i].cells.len(),
    ensures
        k < cell_elements(row_elements(element)[i]).len(),
        cell_content_read_as(
            sheet@.rows[i].cells[k],
            cell_elements(row_elements(element)[i])[k],
            source,
        ),
        sheet@.rows[i].cells[k].kind == match super::read::cell_type_spec(
            cell_elements(row_elements(element)[i])[k],
        ) {
            Some(cell_type) => super::record::code_of(cell_type),
            None => 0u8,
        },
{
    let rows = row_elements(element);
    let row = sheet@.rows[i];
    assert(row_read_as(row, rows[i], source, i));
    let parts = row_references(cell_elements(rows[i]), row_number_used(rows[i], i), row.cells.len() as int)->Ok_0;
    assert(cell_model_read_as(row.cells[k], cell_elements(rows[i])[k], source, parts[k]));
}

/// **A cell's `<is>` is its value.** When the first child of a read cell element that can hold a
/// value — a `<v>` or an `<is>` — is an `<is>`, the cell holds an inline string, and its value is
/// that `<is>` element whole: the bytes its range covers when the cell is read by ranges, and its
/// markup otherwise. (A cell read by ranges whose `<is>` has no range of its own keeps its content
/// opaque.)
pub proof fn law_inline_string_is_the_value(
    sheet: SheetData,
    element: SourceElement,
    source: Seq<u8>,
    i: int,
    k: int,
    p: int,
)
    requires
        sheet_read_from(sheet, element, source),
        0 <= i < sheet@.rows.len(),
        0 <= k < sheet@.rows[i].cells.len(),
        ({
            let cell = cell_elements(row_elements(element)[i])[k];
            &&& 0 <= p < cell.children@.len()
            &&& cell.children@[p] matches SourceNode::Element(value) && value.local@ == seq![105u8, 115u8]
            &&& forall|q: int| 0 <= q < p ==> !holds_value(#[trigger] cell.children@[q])
            &&& element_layout(source, cell) is Some ==> element_range(
                source,
                cell.children@[p]->Element_0,
            ) is Some
        }),
    ensures
        ({
            let cell = cell_elements(row_elements(element)[i])[k];
            let value = cell.children@[p]->Element_0;
            let read = sheet@.rows[i].cells[k];
            &&& shape_of_flags(read.flags) == PayloadShape::InlineString
            &&& read.payload == Some(
                if element_layout(source, cell) is Some {
                    element_bytes(source, value)->Some_0
                } else {
                    value.markup@
                },
            )
        }),
{
    lemma_read_cell(sheet, element, source, i, k);
    let cell = cell_elements(row_elements(element)[i])[k];
    lemma_first_value_element_at(cell.children@, 0, p);
    assert(value_index(cell) == Some(p));
    assert(content_shape(cell) == PayloadShape::InlineString);
}

/// **A cell's `t` names its type.** A read cell whose `t` spells the wire form of a cell type
/// carries exactly that type; one with no `t`, or a `t` that spells none, carries no written type.
pub proof fn law_written_type_is_read(
    sheet: SheetData,
    element: SourceElement,
    source: Seq<u8>,
    i: int,
    k: int,
)
    requires
        sheet_read_from(sheet, element, source),
        0 <= i < sheet@.rows.len(),
        0 <= k < sheet@.rows[i].cells.len(),
    ensures
        ({
            let cell = cell_elements(row_elements(element)[i])[k];
            let kind = sheet@.rows[i].cells[k].kind;
            let t = super::read::attribute_text_spec(cell, seq![116u8]);
            &&& forall|cell_type: super::cell_type::CellType|
                t == Some(#[trigger] super::cell_type::wire_spec(cell_type)) ==> super::record::type_of_code(kind)
                    == Some(cell_type)
            &&& (forall|cell_type: super::cell_type::CellType|
                t != Some(#[trigger] super::cell_type::wire_spec(cell_type)))
                ==> super::record::type_of_code(kind) is None
        }),
{
    lemma_read_cell(sheet, element, source, i, k);
    let cell = cell_elements(row_elements(element)[i])[k];
    let kind = sheet@.rows[i].cells[k].kind;
    let t = super::read::attribute_text_spec(cell, seq![116u8]);
    assert forall|cell_type: super::cell_type::CellType|
        t == Some(#[trigger] super::cell_type::wire_spec(cell_type)) implies super::record::type_of_code(kind)
            == Some(cell_type) by {
        super::cell_type::lemma_wire_round_trip(cell_type);
    }
    if forall|cell_type: super::cell_type::CellType|
        t != Some(#[trigger] super::cell_type::wire_spec(cell_type)) {
        if let Some(text) = t {
            assert(t != Some(super::cell_type::wire_spec(super::cell_type::CellType::Boolean)));
            assert(t != Some(super::cell_type::wire_spec(super::cell_type::CellType::Number)));
            assert(t != Some(super::cell_type::wire_spec(super::cell_type::CellType::Error)));
            assert(t != Some(super::cell_type::wire_spec(super::cell_type::CellType::SharedString)));
            assert(t != Some(super::cell_type::wire_spec(super::cell_type::CellType::FormulaString)));
            assert(t != Some(super::cell_type::wire_spec(super::cell_type::CellType::InlineString)));
        }
    }
}

} // verus!
