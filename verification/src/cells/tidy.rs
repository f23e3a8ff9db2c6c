//! Sheets with nothing to report: what every edit keeps of a sheet the store authored itself.
//!
//! A sheet is tidy when its rows carry their numbers in strictly ascending order, each row's
//! cells carry their row's number and strictly ascending columns, each row says its cells
//! ascend, and no cell's type disagrees with its value's element. A tidy sheet has no anomaly to
//! report; an authored sheet starts tidy, and the value, style and row-attribute edits and the
//! removals keep it so.

use vstd::prelude::*;

use crate::address::CellReference;

use super::anomaly::{cell_anomalies, cells_anomalies, row_anomalies, rows_anomalies, type_disagrees};
use super::edits::{
    blank_cell, edit_cell_offset, edit_row_index, first_cell_right_of, first_row_above, holds_cell,
    lemma_first_cell_right_of, lemma_first_row_above, lemma_insert_cell_ascending,
    lemma_insert_row_ascending, name_r, new_row, row_number_of, row_slot_in, row_with_attribute,
    row_with_cell, slot_cell, styled, valued, value_kind, value_shape, with_cell, with_edited_cell,
    with_row, with_row_attribute, without_cell, without_row,
};
use super::model::{
    CellModel, RowModel, SheetModel, cells_strictly_ascending, find_cell, find_row,
    lemma_find_cell_found, lemma_find_row_found, rows_strictly_ascending,
};
use super::record::{PayloadShape, has_flag, lemma_shape_bits, shape_of_flags};
use super::store::SheetData;
use super::view::{CellValue, type_or_number};
use super::cell_type::CellType;

verus! {

/// Whether a row is tidy: it carries its number and says its cells ascend, its cells' columns
/// strictly ascend, and each of its cells lies in its row and agrees with its value's element.
pub open spec fn tidy_row(row: RowModel) -> bool {
    &&& has_flag(row.flags, 1u8)
    &&& has_flag(row.flags, 4u8)
    &&& cells_strictly_ascending(row.cells)
    &&& forall|k: int|
        0 <= k < row.cells.len() ==> row_number_of((#[trigger] row.cells[k]).reference) == row.number
            && !type_disagrees(row.cells[k])
}

/// Whether a sheet is tidy: its rows' numbers strictly ascend and every row is tidy.
pub open spec fn tidy(model: SheetModel) -> bool {
    &&& rows_strictly_ascending(model.rows)
    &&& forall|i: int| 0 <= i < model.rows.len() ==> tidy_row(#[trigger] model.rows[i])
}

/// A tidy row's first `count` cells report nothing.
proof fn lemma_tidy_cells_report_nothing(row: RowModel, count: int)
    requires
        tidy_row(row),
        count <= row.cells.len(),
    ensures
        cells_anomalies(row, count) == Seq::<super::anomaly::SheetDataAnomaly>::empty(),
    decreases count,
{
    if count > 0 {
        lemma_tidy_cells_report_nothing(row, count - 1);
        let k = count - 1;
        assert(!exists|j: int|
            0 <= j < k && (#[trigger] row.cells[j]).reference.column_index()
                == row.cells[k].reference.column_index()) by {
            assert forall|j: int| 0 <= j < k implies (#[trigger] row.cells[j]).reference.column_index()
                != row.cells[k].reference.column_index() by {
                assert(row.cells[j].reference.column_index() < row.cells[k].reference.column_index());
            }
        }
        assert(cell_anomalies(row, k) =~= Seq::<super::anomaly::SheetDataAnomaly>::empty());
        assert(cells_anomalies(row, count) =~= Seq::<super::anomaly::SheetDataAnomaly>::empty());
    }
}

/// A tidy sheet's first `count` rows report nothing.
proof fn lemma_tidy_rows_report_nothing(model: SheetModel, count: int)
    requires
        tidy(model),
        count <= model.rows.len(),
    ensures
        rows_anomalies(model.rows, count) == Seq::<super::anomaly::SheetDataAnomaly>::empty(),
    decreases count,
{
    if count > 0 {
        lemma_tidy_rows_report_nothing(model, count - 1);
        let i = count - 1;
        let rows = model.rows;
        let row = rows[i];
        assert(tidy_row(row));
        lemma_tidy_cells_report_nothing(row, row.cells.len() as int);
        if i > 0 {
            assert(rows[i - 1].number < row.number);
        }
        assert(!exists|j: int| 0 <= j < i && (#[trigger] rows[j]).number == row.number) by {
            assert forall|j: int| 0 <= j < i implies (#[trigger] rows[j]).number != row.number by {
                assert(rows[j].number < rows[i].number);
            }
        }
        assert(row_anomalies(rows, i) =~= Seq::<super::anomaly::SheetDataAnomaly>::empty());
        assert(rows_anomalies(rows, count) =~= Seq::<super::anomaly::SheetDataAnomaly>::empty());
    }
}

/// **A tidy sheet has nothing to report.** The anomalies of a tidy sheet are none at all.
pub proof fn law_tidy_sheet_reports_nothing(sheet: SheetData)
    requires
        sheet.wf(),
        tidy(sheet@),
    ensures
        rows_anomalies(sheet@.rows, sheet@.rows.len() as int) == Seq::<
            super::anomaly::SheetDataAnomaly,
        >::empty(),
{
    lemma_tidy_rows_report_nothing(sheet@, sheet@.rows.len() as int);
}

/// **An authored sheet starts tidy.** A sheet with no rows at all is tidy.
pub proof fn law_sheet_without_rows_is_tidy(model: SheetModel)
    requires
        model.rows.len() == 0,
    ensures
        tidy(model),
{
}

/// Making sure of a row keeps a tidy sheet tidy, and leaves that row at its slot.
proof fn lemma_with_row_tidy(model: SheetModel, number: u32)
    requires
        tidy(model),
    ensures
        tidy(with_row(model, number)),
        0 <= row_slot_in(model.rows, number) < with_row(model, number).rows.len(),
        with_row(model, number).rows[row_slot_in(model.rows, number)].number == number,
{
    lemma_find_row_found(model.rows, number, 0);
    lemma_first_row_above(model.rows, number, 0);
    if find_row(model.rows, number, 0) is None {
        let at = first_row_above(model.rows, number, 0);
        let rows = model.rows.insert(at, new_row(number));
        lemma_insert_row_ascending(model.rows, number);
        assert(has_flag(5u8, 1u8) && has_flag(5u8, 4u8)) by (bit_vector);
        assert(tidy_row(new_row(number)));
        assert forall|i: int| 0 <= i < rows.len() implies tidy_row(#[trigger] rows[i]) by {
            if i < at {
                assert(rows[i] == model.rows[i]);
            } else if i > at {
                assert(rows[i] == model.rows[i - 1]);
            }
        }
    }
}

/// Setting the shape bits leaves the row bits alone, and adding the order bit keeps the number
/// bit.
proof fn lemma_flag_bits(flags: u8)
    ensures
        has_flag(flags | 4u8, 1u8) == has_flag(flags, 1u8),
        has_flag(flags | 4u8, 4u8),
        shape_of_flags(flags | 2u8) == shape_of_flags(flags),
        shape_of_flags(flags & !2u8) == shape_of_flags(flags),
        shape_of_flags(1u8) == PayloadShape::Absent,
{
    assert(((flags | 4u8) & 1u8 != 0) == (flags & 1u8 != 0)) by (bit_vector);
    assert((flags | 4u8) & 4u8 != 0) by (bit_vector);
    assert(((flags | 2u8) & 24u8) >> 3u8 == (flags & 24u8) >> 3u8) by (bit_vector);
    assert(((flags & !2u8) & 24u8) >> 3u8 == (flags & 24u8) >> 3u8) by (bit_vector);
    assert((1u8 & 24u8) >> 3u8 == 0u8) by (bit_vector);
}

/// Making sure of a cell keeps a tidy sheet tidy, and leaves a cell at the edit's slot.
proof fn lemma_with_cell_tidy(model: SheetModel, reference: CellReference)
    requires
        tidy(model),
    ensures
        tidy(with_cell(model, reference)),
        0 <= edit_row_index(model, reference) < with_cell(model, reference).rows.len(),
        0 <= edit_cell_offset(model, reference) < with_cell(model, reference).rows[edit_row_index(
            model,
            reference,
        )].cells.len(),
{
    let number = row_number_of(reference);
    let placed = with_row(model, number);
    let r = edit_row_index(model, reference);
    lemma_with_row_tidy(model, number);
    lemma_find_row_found(model.rows, number, 0);
    reference.lemma_column_bounded();
    let column = reference.column_index();
    let row = placed.rows[r];
    lemma_find_cell_found(row.cells, column as u16, 0);
    lemma_first_cell_right_of(row.cells, column, 0);
    if !holds_cell(model, reference) {
        if find_row(model.rows, number, 0) is None {
            let at = first_row_above(model.rows, number, 0);
            lemma_first_row_above(model.rows, number, 0);
            assert(r == at);
            assert(placed.rows == model.rows.insert(at, new_row(number)));
            assert(placed.rows[at] == new_row(number));
            assert(row == new_row(number));
            assert(find_cell(row.cells, column as u16, 0) is None);
        }
        assert(find_cell(row.cells, column as u16, 0) is None);
        let at = first_cell_right_of(row.cells, column, 0);
        let cells = row.cells.insert(at, blank_cell(reference));
        lemma_insert_cell_ascending(row.cells, reference);
        lemma_flag_bits(row.flags);
        lemma_flag_bits(1u8);
        let grown = row_with_cell(row, reference);
        assert(grown.cells == cells);
        assert forall|k: int| 0 <= k < cells.len() implies row_number_of(
            (#[trigger] cells[k]).reference,
        ) == grown.number && !type_disagrees(cells[k]) by {
            if k < at {
                assert(cells[k] == row.cells[k]);
            } else if k > at {
                assert(cells[k] == row.cells[k - 1]);
            }
        }
        assert(tidy_row(grown));
        let rows = placed.rows.update(r, grown);
        assert forall|i: int| 0 <= i < rows.len() implies tidy_row(#[trigger] rows[i]) by {
            if i != r {
                assert(rows[i] == placed.rows[i]);
            }
        }
        assert forall|i: int, j: int| 0 <= i < j < rows.len() implies #[trigger] rows[i].number
            < #[trigger] rows[j].number by {
            assert(placed.rows[i].number < placed.rows[j].number);
        }
    } else {
        let found = find_row(model.rows, number, 0)->0;
        assert(found == r);
    }
}

/// Replacing the cell at the edit's slot by one with the same reference that agrees with its
/// value's element keeps a tidy sheet tidy.
proof fn lemma_edited_cell_tidy(model: SheetModel, reference: CellReference, edited: CellModel)
    requires
        tidy(model),
        edited.reference == slot_cell(model, reference).reference,
        !type_disagrees(edited),
    ensures
        tidy(with_edited_cell(model, reference, edited)),
{
    lemma_with_cell_tidy(model, reference);
    let placed = with_cell(model, reference);
    let r = edit_row_index(model, reference);
    let k = edit_cell_offset(model, reference);
    let row = placed.rows[r];
    let updated = RowModel { extent: None, cells: row.cells.update(k, edited), ..row };
    assert(tidy_row(row));
    assert forall|a: int, b: int| 0 <= a < b < updated.cells.len() implies (
    #[trigger] updated.cells[a]).reference.column_index() < (
    #[trigger] updated.cells[b]).reference.column_index() by {
        assert(row.cells[a].reference.column_index() < row.cells[b].reference.column_index());
    }
    assert forall|j: int| 0 <= j < updated.cells.len() implies row_number_of(
        (#[trigger] updated.cells[j]).reference,
    ) == updated.number && !type_disagrees(updated.cells[j]) by {
        if j != k {
            assert(updated.cells[j] == row.cells[j]);
        }
    }
    assert(tidy_row(updated));
    let rows = placed.rows.update(r, updated);
    assert forall|i: int| 0 <= i < rows.len() implies tidy_row(#[trigger] rows[i]) by {
        if i != r {
            assert(rows[i] == placed.rows[i]);
        }
    }
    assert forall|i: int, j: int| 0 <= i < j < rows.len() implies #[trigger] rows[i].number
        < #[trigger] rows[j].number by {
        assert(placed.rows[i].number < placed.rows[j].number);
    }
}

/// A value written into a cell agrees with the element it is held in.
proof fn lemma_valued_agrees(cell: CellModel, value: CellValue, prefix: Option<Seq<u8>>, rewrite: bool)
    ensures
        !type_disagrees(valued(cell, value, prefix, rewrite)),
        valued(cell, value, prefix, rewrite).reference == cell.reference,
{
    lemma_shape_bits(cell.flags, value_shape(value));
    let kind = value_kind(value);
    match value {
        CellValue::InlineString(_) => {
            assert(type_or_number(kind) == CellType::InlineString);
        },
        CellValue::Blank => {},
        _ => {
            assert(type_or_number(kind) != CellType::InlineString);
        },
    }
}

/// **A value edit keeps a tidy sheet tidy.** Setting a cell's value — whether the edit
/// completes, or stops once the cell is made sure of or once its value is stored — leaves a tidy
/// sheet tidy.
pub proof fn law_value_edit_keeps_sheet_tidy(
    before: SheetData,
    after: SheetData,
    reference: CellReference,
    value: CellValue,
    done: Result<(), crate::error::SmlError>,
)
    requires
        tidy(before@),
        before.cell_value_outcome(after, reference, value, done),
    ensures
        tidy(after@),
{
    let model = before@;
    lemma_with_cell_tidy(model, reference);
    let cell = slot_cell(model, reference);
    lemma_valued_agrees(cell, value, model.prefix, true);
    lemma_valued_agrees(cell, value, model.prefix, false);
    lemma_edited_cell_tidy(model, reference, valued(cell, value, model.prefix, true));
    lemma_edited_cell_tidy(model, reference, valued(cell, value, model.prefix, false));
}

/// **A style edit keeps a tidy sheet tidy.** Setting or clearing a cell's style — whether or not
/// its attribute run is rewritten — leaves a tidy sheet tidy, and so does making sure of the cell
/// alone.
pub proof fn law_style_edit_keeps_sheet_tidy(
    model: SheetModel,
    reference: CellReference,
    style: Option<u32>,
    rewrite: bool,
)
    requires
        tidy(model),
    ensures
        tidy(with_cell(model, reference)),
        tidy(with_edited_cell(model, reference, styled(slot_cell(model, reference), style, rewrite))),
{
    lemma_with_cell_tidy(model, reference);
    let cell = slot_cell(model, reference);
    lemma_flag_bits(cell.flags);
    lemma_edited_cell_tidy(model, reference, styled(cell, style, rewrite));
}

/// **A row-attribute edit keeps a tidy sheet tidy.** Setting or removing any attribute of a row
/// but its `r` — its spans, its height, whether it is hidden, its style — leaves a tidy sheet
/// tidy, and so does making sure of the row alone.
pub proof fn law_row_attribute_edit_keeps_sheet_tidy(
    model: SheetModel,
    number: u32,
    name: Seq<u8>,
    value: Option<Seq<u8>>,
)
    requires
        tidy(model),
        name != name_r(),
    ensures
        tidy(with_row(model, number)),
        tidy(with_row_attribute(model, number, name, value)),
{
    lemma_with_row_tidy(model, number);
    let placed = with_row(model, number);
    let r = row_slot_in(model.rows, number);
    let rows = placed.rows.update(r, row_with_attribute(placed.rows[r], name, value));
    assert forall|i: int| 0 <= i < rows.len() implies tidy_row(#[trigger] rows[i]) by {
        if i != r {
            assert(rows[i] == placed.rows[i]);
        } else {
            assert(tidy_row(placed.rows[r]));
        }
    }
    assert forall|i: int, j: int| 0 <= i < j < rows.len() implies #[trigger] rows[i].number
        < #[trigger] rows[j].number by {
        assert(placed.rows[i].number < placed.rows[j].number);
    }
}

/// **A removal keeps a tidy sheet tidy.** Removing a cell, or a row with its cells, leaves a
/// tidy sheet tidy.
pub proof fn law_removal_keeps_sheet_tidy(model: SheetModel, reference: CellReference, number: u32)
    requires
        tidy(model),
    ensures
        tidy(without_cell(model, reference)),
        tidy(without_row(model, number)),
{
    if holds_cell(model, reference) {
        let r = find_row(model.rows, row_number_of(reference), 0)->0;
        lemma_find_row_found(model.rows, row_number_of(reference), 0);
        let row = model.rows[r];
        let k = find_cell(row.cells, reference.column_index() as u16, 0)->0;
        lemma_find_cell_found(row.cells, reference.column_index() as u16, 0);
        let cells = row.cells.remove(k);
        let shrunk = RowModel { extent: None, cells, ..row };
        assert(tidy_row(row));
        assert forall|a: int, b: int| 0 <= a < b < cells.len() implies (
        #[trigger] cells[a]).reference.column_index() < (#[trigger] cells[b]).reference.column_index() by {
            let a0 = if a < k { a } else { a + 1 };
            let b0 = if b < k { b } else { b + 1 };
            assert(cells[a] == row.cells[a0]);
            assert(cells[b] == row.cells[b0]);
            assert(row.cells[a0].reference.column_index() < row.cells[b0].reference.column_index());
        }
        assert forall|j: int| 0 <= j < cells.len() implies row_number_of(
            (#[trigger] cells[j]).reference,
        ) == shrunk.number && !type_disagrees(cells[j]) by {
            let j0 = if j < k { j } else { j + 1 };
            assert(cells[j] == row.cells[j0]);
        }
        assert(tidy_row(shrunk));
        let after = without_cell(model, reference);
        assert(after.rows == model.rows.update(r, shrunk));
        assert forall|i: int| 0 <= i < after.rows.len() implies tidy_row(#[trigger] after.rows[i]) by {
            if i != r {
                assert(after.rows[i] == model.rows[i]);
            }
        }
        assert forall|i: int, j: int| 0 <= i < j < after.rows.len() implies #[trigger] after.rows[i].number
            < #[trigger] after.rows[j].number by {
            assert(model.rows[i].number < model.rows[j].number);
        }
    }
    match find_row(model.rows, number, 0) {
        Some(r) => {
            lemma_find_row_found(model.rows, number, 0);
            let rows = model.rows.remove(r);
            assert forall|i: int| 0 <= i < rows.len() implies tidy_row(#[trigger] rows[i]) by {
                let i0 = if i < r { i } else { i + 1 };
                assert(rows[i] == model.rows[i0]);
            }
            assert forall|i: int, j: int| 0 <= i < j < rows.len() implies #[trigger] rows[i].number
                < #[trigger] rows[j].number by {
                let i0 = if i < r { i } else { i + 1 };
                let j0 = if j < r { j } else { j + 1 };
                assert(rows[i] == model.rows[i0]);
                assert(rows[j] == model.rows[j0]);
                assert(model.rows[i0].number < model.rows[j0].number);
            }
        },
        None => {},
    }
}

} // verus!
