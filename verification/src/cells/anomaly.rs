//! What a file got wrong, reported rather than repaired.
//!
//! A worksheet can say things that are not true: rows out of order, the same row number twice, a
//! `c@r` naming a different row than the `row@r` above it, a `t="s"` on a cell holding an `<is>`.
//! **None of these is repaired**: sorting the rows, dropping a duplicate or correcting a reference
//! would change the bytes of a part nobody asked to edit. But "preserved as read" is
//! indistinguishable from "not noticed" unless something can say what was preserved. That is what
//! this is: a read-only description, computed on demand, that changes nothing.

use vstd::prelude::*;

use crate::address::CellReference;

use super::cell_type::CellType;
use super::edits::row_number_of;
use super::model::{CellModel, RowModel};
use super::record::{PayloadShape, RowFlags, has_flag, shape_of_flags};
use super::store::SheetData;
use super::view::type_or_number;

verus! {

/// Something a worksheet said that is true of the file and not of a well-formed sheet.
///
/// Every one of these is **preserved and written back as it stands**. None is an error, and none
/// changes what the store answers.
#[derive(Debug, Clone, Copy, PartialEq, Eq, Structural)]
#[non_exhaustive]
pub enum SheetDataAnomaly {
    /// A row's `r` is not greater than the row before it. Lookups fall back to a scan, which stays
    /// correct; nothing is sorted.
    RowsOutOfOrder {
        /// The `r` of the row that broke the ascent.
        row: u32,
        /// The `r` of the row before it.
        previous_row: u32,
    },
    /// Two rows carry the same `r`. Both are kept; a lookup answers with the first.
    DuplicateRowNumber {
        /// The repeated `r`.
        row: u32,
    },
    /// A row wrote no `r` at all, so its number is its position.
    RowWithoutNumber {
        /// The position the row would be found at.
        position: u32,
    },
    /// A cell's `c@r` names a different row than the `row@r` containing it does.
    CellRowDisagreesWithRow {
        /// The reference the cell wrote.
        cell: CellReference,
        /// The `r` of the row it was written inside.
        row: u32,
    },
    /// Two cells in one row name the same column. Both are kept; a lookup answers with one of
    /// them.
    DuplicateCellReference {
        /// The repeated address.
        cell: CellReference,
    },
    /// A row's cells are not in ascending column order. Lookups in that row fall back to a scan.
    CellsOutOfOrder {
        /// The `r` of the row.
        row: u32,
    },
    /// A cell's `t` does not match the value element it holds — `t="inlineStr"` with a `<v>`, or
    /// any other `t` with an `<is>`.
    CellTypeDisagreesWithContent {
        /// The cell.
        cell: CellReference,
    },
}

/// One anomaly, when `condition` holds; none otherwise.
pub open spec fn when(condition: bool, anomaly: SheetDataAnomaly) -> Seq<SheetDataAnomaly> {
    if condition {
        seq![anomaly]
    } else {
        Seq::empty()
    }
}

/// Whether a cell's `t` disagrees with the element its value is held in.
pub open spec fn type_disagrees(cell: CellModel) -> bool {
    let declared = type_or_number(cell.kind);
    match shape_of_flags(cell.flags) {
        PayloadShape::InlineString => declared != CellType::InlineString,
        PayloadShape::ValueText => declared == CellType::InlineString,
        PayloadShape::Absent => false,
    }
}

/// What the cell at `k` of `row` gets wrong: a row disagreeing with its row's, a column an earlier
/// cell of the row already named, a type disagreeing with its value's element.
pub open spec fn cell_anomalies(row: RowModel, k: int) -> Seq<SheetDataAnomaly> {
    let cell = row.cells[k];
    when(
        has_flag(row.flags, 1u8) && row_number_of(cell.reference) != row.number,
        SheetDataAnomaly::CellRowDisagreesWithRow { cell: cell.reference, row: row.number },
    ) + when(
        exists|j: int|
            0 <= j < k && (#[trigger] row.cells[j]).reference.column_index()
                == cell.reference.column_index(),
        SheetDataAnomaly::DuplicateCellReference { cell: cell.reference },
    ) + when(type_disagrees(cell), SheetDataAnomaly::CellTypeDisagreesWithContent { cell: cell.reference })
}

/// What the first `count` cells of `row` get wrong, in order.
pub open spec fn cells_anomalies(row: RowModel, count: int) -> Seq<SheetDataAnomaly>
    decreases count,
{
    if count <= 0 {
        Seq::empty()
    } else {
        cells_anomalies(row, count - 1) + cell_anomalies(row, count - 1)
    }
}

/// What the row at `i` gets wrong, its cells included.
pub open spec fn row_anomalies(rows: Seq<RowModel>, i: int) -> Seq<SheetDataAnomaly> {
    let row = rows[i];
    when(
        !has_flag(row.flags, 1u8),
        SheetDataAnomaly::RowWithoutNumber { position: i as u32 },
    ) + when(
        i > 0 && row.number <= rows[i - 1].number,
        SheetDataAnomaly::RowsOutOfOrder { row: row.number, previous_row: rows[i - 1].number },
    ) + when(
        exists|j: int| 0 <= j < i && (#[trigger] rows[j]).number == row.number,
        SheetDataAnomaly::DuplicateRowNumber { row: row.number },
    ) + when(
        !has_flag(row.flags, 4u8) && row.cells.len() > 1,
        SheetDataAnomaly::CellsOutOfOrder { row: row.number },
    ) + cells_anomalies(row, row.cells.len() as int)
}

/// What the first `count` rows get wrong, in document order.
pub open spec fn rows_anomalies(rows: Seq<RowModel>, count: int) -> Seq<SheetDataAnomaly>
    decreases count,
{
    if count <= 0 {
        Seq::empty()
    } else {
        rows_anomalies(rows, count - 1) + row_anomalies(rows, count - 1)
    }
}

impl SheetData {
    /// Everything this worksheet said that a well-formed one would not, in document order.
    ///
    /// Computed on demand and never cached: it is a description of the store, not a part of it.
    /// Empty for every file a producer writes.
    pub fn anomalies(&self) -> (found: Vec<SheetDataAnomaly>)
        requires
            self.wf(),
        ensures
            found@ == rows_anomalies(self@.rows, self@.rows.len() as int),
    {
        let ghost rows = self@.rows;
        let count = self.row_count();
        let mut found: Vec<SheetDataAnomaly> = Vec::new();
        let mut position: usize = 0;
        while position < count
            invariant
                self.wf(),
                rows == self@.rows,
                count == rows.len(),
                position <= count,
                found@ == rows_anomalies(rows, position as int),
            decreases count - position,
        {
            let mut anomalies = self.row_anomalies_of(position);
            found.append(&mut anomalies);
            proof {
                assert(found@ =~= rows_anomalies(rows, position as int) + row_anomalies(
                    rows,
                    position as int,
                ));
            }
            position = position + 1;
        }
        found
    }

    /// What the row at `position` gets wrong, its cells included.
    fn row_anomalies_of(&self, position: usize) -> (found: Vec<SheetDataAnomaly>)
        requires
            self.wf(),
            position < self@.rows.len(),
        ensures
            found@ == row_anomalies(self@.rows, position as int),
    {
        let ghost rows = self@.rows;
        let row = self.row_record(position);
        let mut found: Vec<SheetDataAnomaly> = Vec::new();
        if !row.has(RowFlags::HAS_NUMBER) {
            found.push(SheetDataAnomaly::RowWithoutNumber { position: position as u32 });
        }
        let ghost after_number = found@;
        if position > 0 {
            let previous = self.row_record(position - 1).number;
            if row.number <= previous {
                found.push(
                    SheetDataAnomaly::RowsOutOfOrder { row: row.number, previous_row: previous },
                );
            }
        }
        let ghost after_order = found@;
        if self.row_number_seen(position) {
            found.push(SheetDataAnomaly::DuplicateRowNumber { row: row.number });
        }
        let ghost after_duplicate = found@;
        if !row.has(RowFlags::CELLS_ASCENDING) && row.cell_count > 1 {
            found.push(SheetDataAnomaly::CellsOutOfOrder { row: row.number });
        }
        let mut cells = self.cell_anomalies_of(position);
        found.append(&mut cells);
        proof {
            assert(found@ =~= row_anomalies(rows, position as int));
        }
        found
    }

    /// Whether a row before the one at `position` carries its number.
    fn row_number_seen(&self, position: usize) -> (seen: bool)
        requires
            self.wf(),
            position < self@.rows.len(),
        ensures
            seen == exists|j: int|
                0 <= j < position && (#[trigger] self@.rows[j]).number == self@.rows[position as int].number,
    {
        let number = self.row_record(position).number;
        let mut j: usize = 0;
        while j < position
            invariant
                self.wf(),
                position < self@.rows.len(),
                number == self@.rows[position as int].number,
                j <= position,
                forall|m: int| 0 <= m < j ==> (#[trigger] self@.rows[m]).number != number,
            decreases position - j,
        {
            if self.row_record(j).number == number {
                proof {
                    assert(self@.rows[j as int].number == number);
                }
                return true;
            }
            j = j + 1;
        }
        false
    }

    /// What the cells of the row at `position` get wrong, in order.
    fn cell_anomalies_of(&self, position: usize) -> (found: Vec<SheetDataAnomaly>)
        requires
            self.wf(),
            position < self@.rows.len(),
        ensures
            found@ == cells_anomalies(
                self@.rows[position as int],
                self@.rows[position as int].cells.len() as int,
            ),
    {
        let ghost model = self@.rows[position as int];
        let row = self.row_record(position);
        let first = row.first_cell as usize;
        let count = row.cell_count as usize;
        let mut found: Vec<SheetDataAnomaly> = Vec::new();
        let mut k: usize = 0;
        while k < count
            invariant
                self.wf(),
                position < self@.rows.len(),
                model == self@.rows[position as int],
                row == self.raw_rows()[position as int],
                first == row.first_cell,
                count == model.cells.len(),
                k <= count,
                found@ == cells_anomalies(model, k as int),
            decreases count - k,
        {
            proof {
                self.lemma_cell_in_row(position as int, k as int);
            }
            let cell = self.cell_record(first + k);
            let ghost cell_model = model.cells[k as int];
            assert(cell.reference == cell_model.reference);
            if row.has(RowFlags::HAS_NUMBER) && cell.reference.row().saturating_add(1) != row.number {
                found.push(
                    SheetDataAnomaly::CellRowDisagreesWithRow { cell: cell.reference, row: row.number },
                );
            }
            let ghost after_row = found@;
            if self.column_seen(position, k) {
                found.push(SheetDataAnomaly::DuplicateCellReference { cell: cell.reference });
            }
            let ghost after_column = found@;
            let declared = match cell.written_cell_type() {
                Some(cell_type) => cell_type,
                None => CellType::Number,
            };
            let disagrees = match cell.payload_shape() {
                PayloadShape::InlineString => declared != CellType::InlineString,
                PayloadShape::ValueText => declared == CellType::InlineString,
                PayloadShape::Absent => false,
            };
            if disagrees {
                found.push(SheetDataAnomaly::CellTypeDisagreesWithContent { cell: cell.reference });
            }
            proof {
                assert(disagrees == type_disagrees(cell_model));
                assert(found@ =~= cells_anomalies(model, k as int) + cell_anomalies(model, k as int));
            }
            k = k + 1;
        }
        found
    }

    /// Whether a cell before the `k`th of the row at `position` names the same column.
    fn column_seen(&self, position: usize, k: usize) -> (seen: bool)
        requires
            self.wf(),
            position < self@.rows.len(),
            k < self@.rows[position as int].cells.len(),
        ensures
            seen == exists|j: int|
                0 <= j < k && (#[trigger] self@.rows[position as int].cells[j]).reference.column_index()
                    == self@.rows[position as int].cells[k as int].reference.column_index(),
    {
        let ghost cells = self@.rows[position as int].cells;
        let first = self.row_record(position).first_cell as usize;
        proof {
            self.lemma_cell_in_row(position as int, k as int);
        }
        let column = self.cell_record(first + k).reference.column();
        let mut j: usize = 0;
        while j < k
            invariant
                self.wf(),
                position < self@.rows.len(),
                cells == self@.rows[position as int].cells,
                first == self.raw_rows()[position as int].first_cell,
                k < cells.len(),
                column == cells[k as int].reference.column_index(),
                j <= k,
                forall|m: int| 0 <= m < j ==> (#[trigger] cells[m]).reference.column_index() != column,
            decreases k - j,
        {
            proof {
                self.lemma_cell_in_row(position as int, j as int);
            }
            if self.cell_record(first + j).reference.column() == column {
                return true;
            }
            j = j + 1;
        }
        false
    }
}


/// What the first `count` rows report includes what each of them reports.
proof fn lemma_rows_anomalies_include(rows: Seq<RowModel>, count: int, i: int, anomaly: SheetDataAnomaly)
    requires
        0 <= i < count <= rows.len(),
        row_anomalies(rows, i).contains(anomaly),
    ensures
        rows_anomalies(rows, count).contains(anomaly),
    decreases count,
{
    let head = rows_anomalies(rows, count - 1);
    let last = row_anomalies(rows, count - 1);
    assert(rows_anomalies(rows, count) == head + last);
    if i == count - 1 {
        let at = choose|x: int| 0 <= x < last.len() && last[x] == anomaly;
        assert((head + last)[head.len() + at] == anomaly);
    } else {
        lemma_rows_anomalies_include(rows, count - 1, i, anomaly);
        let at = choose|x: int| 0 <= x < head.len() && head[x] == anomaly;
        assert((head + last)[at] == anomaly);
    }
}

/// A cell never reports a repeated row number.
proof fn lemma_cells_report_no_row_number(row: RowModel, count: int, number: u32)
    ensures
        !cells_anomalies(row, count).contains(SheetDataAnomaly::DuplicateRowNumber { row: number }),
    decreases count,
{
    if count > 0 {
        lemma_cells_report_no_row_number(row, count - 1, number);
        let head = cells_anomalies(row, count - 1);
        let last = cell_anomalies(row, count - 1);
        assert(cells_anomalies(row, count) == head + last);
        assert forall|x: int| 0 <= x < (head + last).len() implies (head + last)[x]
            != SheetDataAnomaly::DuplicateRowNumber { row: number } by {
            if x >= head.len() {
                assert((head + last)[x] == last[x - head.len()]);
            } else {
                assert((head + last)[x] == head[x]);
            }
        }
    }
}

/// What the first `count` rows report holds a repeated row number only where one of them is
/// numbered so after an earlier one.
proof fn lemma_reported_repeat(rows: Seq<RowModel>, count: int, number: u32)
    requires
        0 <= count <= rows.len(),
        rows_anomalies(rows, count).contains(SheetDataAnomaly::DuplicateRowNumber { row: number }),
    ensures
        exists|i: int, j: int|
            0 <= j < i < count && #[trigger] rows[j].number == number && #[trigger] rows[i].number
                == number,
    decreases count,
{
    let anomaly = SheetDataAnomaly::DuplicateRowNumber { row: number };
    let head = rows_anomalies(rows, count - 1);
    let last = row_anomalies(rows, count - 1);
    assert(rows_anomalies(rows, count) == head + last);
    let at = choose|x: int| 0 <= x < (head + last).len() && (head + last)[x] == anomaly;
    if at < head.len() {
        assert(head[at] == anomaly);
        lemma_reported_repeat(rows, count - 1, number);
        let (i, j) = choose|i: int, j: int|
            0 <= j < i < count - 1 && #[trigger] rows[j].number == number && #[trigger] rows[i].number
                == number;
        assert(0 <= j < i < count && rows[j].number == number && rows[i].number == number);
    } else {
        let i = count - 1;
        let row = rows[i];
        assert(last[at - head.len()] == anomaly);
        let a = when(
            !has_flag(row.flags, 1u8),
            SheetDataAnomaly::RowWithoutNumber { position: i as u32 },
        );
        let b = when(
            i > 0 && row.number <= rows[i - 1].number,
            SheetDataAnomaly::RowsOutOfOrder { row: row.number, previous_row: rows[i - 1].number },
        );
        let c = when(
            exists|j: int| 0 <= j < i && (#[trigger] rows[j]).number == row.number,
            SheetDataAnomaly::DuplicateRowNumber { row: row.number },
        );
        let d = when(
            !has_flag(row.flags, 4u8) && row.cells.len() > 1,
            SheetDataAnomaly::CellsOutOfOrder { row: row.number },
        );
        let e = cells_anomalies(row, row.cells.len() as int);
        assert(last == a + b + c + d + e);
        lemma_cells_report_no_row_number(row, row.cells.len() as int, number);
        let y = at - head.len();
        if y < a.len() {
            assert(last[y] == a[y]);
        } else if y < a.len() + b.len() {
            assert(last[y] == b[y - a.len()]);
        } else if y < a.len() + b.len() + c.len() {
            assert(last[y] == c[y - a.len() - b.len()]);
            let j = choose|j: int| 0 <= j < i && (#[trigger] rows[j]).number == row.number;
            assert(rows[j].number == number && rows[i].number == number);
        } else if y < a.len() + b.len() + c.len() + d.len() {
            assert(last[y] == d[y - a.len() - b.len() - c.len()]);
        } else {
            assert(last[y] == e[y - a.len() - b.len() - c.len() - d.len()]);
            assert(e.contains(anomaly));
        }
    }
}

/// **A repeated row number is reported, wherever the repeat stands.** What a sheet reports holds
/// `DuplicateRowNumber` for a number exactly when two of its rows — not only neighbouring ones —
/// carry that number.
pub proof fn law_repeated_row_number_is_reported(rows: Seq<RowModel>, number: u32)
    ensures
        rows_anomalies(rows, rows.len() as int).contains(SheetDataAnomaly::DuplicateRowNumber { row: number })
            <==> exists|i: int, j: int|
            0 <= j < i < rows.len() && #[trigger] rows[j].number == number && #[trigger] rows[i].number
                == number,
{
    let anomaly = SheetDataAnomaly::DuplicateRowNumber { row: number };
    if exists|i: int, j: int|
        0 <= j < i < rows.len() && #[trigger] rows[j].number == number && #[trigger] rows[i].number
            == number {
        let (i, j) = choose|i: int, j: int|
            0 <= j < i < rows.len() && #[trigger] rows[j].number == number && #[trigger] rows[i].number
                == number;
        let row = rows[i];
        assert(exists|x: int| 0 <= x < i && (#[trigger] rows[x]).number == row.number) by {
            assert(rows[j].number == row.number);
        }
        let a = when(
            !has_flag(row.flags, 1u8),
            SheetDataAnomaly::RowWithoutNumber { position: i as u32 },
        );
        let b = when(
            i > 0 && row.number <= rows[i - 1].number,
            SheetDataAnomaly::RowsOutOfOrder { row: row.number, previous_row: rows[i - 1].number },
        );
        let all = row_anomalies(rows, i);
        assert(all[(a.len() + b.len()) as int] == anomaly);
        lemma_rows_anomalies_include(rows, rows.len() as int, i, anomaly);
    }
    if rows_anomalies(rows, rows.len() as int).contains(anomaly) {
        lemma_reported_repeat(rows, rows.len() as int, number);
    }
}

} // verus!
