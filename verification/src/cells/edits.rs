//! What each edit does to a sheet, stated over its model.
//!
//! An edit first makes sure the row it names exists — finding it, or creating an empty one in
//! ascending position — then, for a cell edit, that the cell exists within it, and then changes
//! that one cell or row. The spec functions here say where each of those lands and what the model
//! looks like afterwards; the store's methods are proved to do exactly this.

use vstd::prelude::*;
use vstd::string::StringSliceAdditionalSpecFns;

use crate::address::CellReference;
use crate::arena::attributes::set_attribute_spec;
use crate::decimal::{decimal, parse_decimal_spec};
use crate::escape::{escape_attribute_spec, escape_text_spec};

use super::cell_type::{CellType, wire_spec};
use super::record::{PayloadShape, code_of, flags_with_shape, type_of_code};
use super::view::CellValue;
use super::write::inline_string_markup;

use super::model::{
    CellModel, RowModel, SheetModel, cells_strictly_ascending, find_cell, find_row,
    lemma_find_cell_found, lemma_find_row_found, rows_strictly_ascending,
};

verus! {

/// The attribute run of a row the store creates: ` r="N"`.
pub open spec fn row_number_run(number: u32) -> Seq<u8> {
    seq![32u8, 114u8, 61u8, 34u8] + decimal(number as nat) + seq![34u8]
}

/// A row the store creates: numbered, with its cells ordered, empty, and with nothing of a source.
pub open spec fn new_row(number: u32) -> RowModel {
    RowModel {
        number,
        flags: 5u8,
        leading: None,
        extent: None,
        attributes: Some(row_number_run(number)),
        trailing: None,
        cells: Seq::empty(),
    }
}

/// A cell the store creates: its reference written, and no style, no type and no value.
pub open spec fn blank_cell(reference: CellReference) -> CellModel {
    CellModel {
        reference,
        extent: None,
        payload: None,
        style: 0,
        kind: 0,
        flags: 1u8,
        attributes: None,
        leading: None,
        formula: None,
        before_payload: None,
        after_payload: None,
    }
}

/// The first row from `from` on numbered above `number`, or the row count.
pub open spec fn first_row_above(rows: Seq<RowModel>, number: u32, from: int) -> int
    decreases rows.len() - from,
{
    if from < 0 || from >= rows.len() {
        rows.len() as int
    } else if rows[from].number > number {
        from
    } else {
        first_row_above(rows, number, from + 1)
    }
}

/// The first cell from `from` on whose column lies right of `column`, or the cell count.
pub open spec fn first_cell_right_of(cells: Seq<CellModel>, column: nat, from: int) -> int
    decreases cells.len() - from,
{
    if from < 0 || from >= cells.len() {
        cells.len() as int
    } else if cells[from].reference.column_index() > column {
        from
    } else {
        first_cell_right_of(cells, column, from + 1)
    }
}

/// The row number a reference lies in, as `row@r` writes it.
pub open spec fn row_number_of(reference: CellReference) -> u32 {
    if reference.row_index() + 1 > u32::MAX {
        u32::MAX
    } else {
        (reference.row_index() + 1) as u32
    }
}

/// Where the row numbered `number` stands once the sheet surely holds one: the first such row, or
/// where a new one goes.
pub open spec fn row_slot_in(rows: Seq<RowModel>, number: u32) -> int {
    match find_row(rows, number, 0) {
        Some(k) => k,
        None => first_row_above(rows, number, 0),
    }
}

/// How many bytes making sure of the row numbered `number` stores: none when it exists.
pub open spec fn row_growth(rows: Seq<RowModel>, number: u32) -> nat {
    if find_row(rows, number, 0) is Some {
        0
    } else {
        row_number_run(number).len()
    }
}

/// The sheet once it surely holds a row numbered `number`: unchanged when it does, and otherwise
/// with a new row in ascending position and its own source extent gone.
pub open spec fn with_row(model: SheetModel, number: u32) -> SheetModel {
    if find_row(model.rows, number, 0) is Some {
        model
    } else {
        SheetModel {
            rows: model.rows.insert(first_row_above(model.rows, number, 0), new_row(number)),
            extent: None,
            ..model
        }
    }
}

/// Where the cell in `reference`'s column stands within `cells` once the row surely holds one.
pub open spec fn cell_slot_in(cells: Seq<CellModel>, reference: CellReference) -> int {
    match find_cell(cells, reference.column_index() as u16, 0) {
        Some(k) => k,
        None => first_cell_right_of(cells, reference.column_index(), 0),
    }
}

/// A row once it surely holds a cell in `reference`'s column: unchanged when it does, and
/// otherwise with a blank cell in ascending position, its own source extent gone, and its
/// ascending flag set when its cells now ascend.
pub open spec fn row_with_cell(row: RowModel, reference: CellReference) -> RowModel {
    if find_cell(row.cells, reference.column_index() as u16, 0) is Some {
        row
    } else {
        let cells = row.cells.insert(
            first_cell_right_of(row.cells, reference.column_index(), 0),
            blank_cell(reference),
        );
        RowModel {
            cells,
            extent: None,
            flags: if cells_strictly_ascending(cells) {
                row.flags | 4u8
            } else {
                row.flags
            },
            ..row
        }
    }
}

/// Which row a cell edit at `reference` lands in.
pub open spec fn edit_row_index(model: SheetModel, reference: CellReference) -> int {
    row_slot_in(model.rows, row_number_of(reference))
}

/// Which cell of that row a cell edit at `reference` lands on.
pub open spec fn edit_cell_offset(model: SheetModel, reference: CellReference) -> int {
    cell_slot_in(
        with_row(model, row_number_of(reference)).rows[edit_row_index(model, reference)].cells,
        reference,
    )
}

/// Whether the sheet already holds a cell at `reference`.
pub open spec fn holds_cell(model: SheetModel, reference: CellReference) -> bool {
    match find_row(model.rows, row_number_of(reference), 0) {
        Some(r) => find_cell(model.rows[r].cells, reference.column_index() as u16, 0) is Some,
        None => false,
    }
}

/// The sheet once it surely holds a cell at `reference`: unchanged when it does; otherwise with
/// the row and the blank cell it needs, and the source extents of that row and the sheet gone.
pub open spec fn with_cell(model: SheetModel, reference: CellReference) -> SheetModel {
    let placed = with_row(model, row_number_of(reference));
    let r = edit_row_index(model, reference);
    if holds_cell(model, reference) {
        model
    } else {
        SheetModel {
            rows: placed.rows.update(r, row_with_cell(placed.rows[r], reference)),
            extent: None,
            ..placed
        }
    }
}

/// The cell at `reference` once the sheet surely holds one, before it is edited.
pub open spec fn slot_cell(model: SheetModel, reference: CellReference) -> CellModel {
    with_cell(model, reference).rows[edit_row_index(model, reference)].cells[edit_cell_offset(
        model,
        reference,
    )]
}

/// The sheet with the cell at `reference` made sure of and then replaced by `edited`: that cell's
/// row, and the sheet, lose their source extents.
pub open spec fn with_edited_cell(
    model: SheetModel,
    reference: CellReference,
    edited: CellModel,
) -> SheetModel {
    let placed = with_cell(model, reference);
    let r = edit_row_index(model, reference);
    let k = edit_cell_offset(model, reference);
    SheetModel {
        rows: placed.rows.update(
            r,
            RowModel { extent: None, cells: placed.rows[r].cells.update(k, edited), ..placed.rows[r] },
        ),
        extent: None,
        ..placed
    }
}

/// The sheet with the cell at offset `k` of row `r` replaced by `cell`.
pub open spec fn with_cell_at(model: SheetModel, r: int, k: int, cell: CellModel) -> SheetModel {
    SheetModel {
        rows: model.rows.update(
            r,
            RowModel { cells: model.rows[r].cells.update(k, cell), ..model.rows[r] },
        ),
        ..model
    }
}

/// The sheet with the source extents of row `r`, and of the sheet itself, gone.
pub open spec fn dirtied(model: SheetModel, r: int) -> SheetModel {
    SheetModel {
        rows: model.rows.update(r, RowModel { extent: None, ..model.rows[r] }),
        extent: None,
        ..model
    }
}

/// A value given as optional bytes, as a sequence.
pub open spec fn optional_bytes(value: Option<&[u8]>) -> Option<Seq<u8>> {
    match value {
        Some(bytes) => Some(bytes@),
        None => None,
    }
}

/// Replacing a cell by itself changes nothing.
pub proof fn lemma_with_cell_at_same(model: SheetModel, r: int, k: int)
    requires
        0 <= r < model.rows.len(),
        0 <= k < model.rows[r].cells.len(),
    ensures
        with_cell_at(model, r, k, model.rows[r].cells[k]) == model,
{
    assert(model.rows[r].cells.update(k, model.rows[r].cells[k]) =~= model.rows[r].cells);
    assert(model.rows.update(r, model.rows[r]) =~= model.rows);
}

/// Replacing a cell and then clearing its row's extents is the one edit `with_edited_cell`
/// describes.
pub proof fn lemma_edited_cell(model: SheetModel, reference: CellReference, edited: CellModel)
    requires
        0 <= edit_row_index(model, reference) < with_cell(model, reference).rows.len(),
    ensures
        dirtied(
            with_cell_at(
                with_cell(model, reference),
                edit_row_index(model, reference),
                edit_cell_offset(model, reference),
                edited,
            ),
            edit_row_index(model, reference),
        ) == with_edited_cell(model, reference, edited),
{
    let placed = with_cell(model, reference);
    let r = edit_row_index(model, reference);
    let k = edit_cell_offset(model, reference);
    let left = dirtied(with_cell_at(placed, r, k, edited), r);
    let right = with_edited_cell(model, reference, edited);
    assert(left.rows =~= right.rows);
}

/// Replacing a cell of a dirtied row a second time leaves only the second replacement.
pub proof fn lemma_with_cell_at_twice(model: SheetModel, r: int, k: int, first: CellModel, second: CellModel)
    requires
        0 <= r < model.rows.len(),
        0 <= k < model.rows[r].cells.len(),
    ensures
        with_cell_at(dirtied(with_cell_at(model, r, k, first), r), r, k, second) == dirtied(
            with_cell_at(model, r, k, second),
            r,
        ),
{
    let left = with_cell_at(dirtied(with_cell_at(model, r, k, first), r), r, k, second);
    let right = dirtied(with_cell_at(model, r, k, second), r);
    assert(left.rows[r].cells =~= right.rows[r].cells);
    assert(left.rows =~= right.rows);
}

/// The sheet with the cell at `reference` removed from its row, and that row's and the sheet's
/// source extents gone; unchanged when it holds no such cell.
pub open spec fn without_cell(model: SheetModel, reference: CellReference) -> SheetModel {
    if holds_cell(model, reference) {
        let r = find_row(model.rows, row_number_of(reference), 0)->0;
        let k = find_cell(model.rows[r].cells, reference.column_index() as u16, 0)->0;
        dirtied(
            SheetModel {
                rows: model.rows.update(
                    r,
                    RowModel { cells: model.rows[r].cells.remove(k), ..model.rows[r] },
                ),
                ..model
            },
            r,
        )
    } else {
        model
    }
}

/// The sheet with the first row numbered `number` removed, cells and all, and the sheet's source
/// extent gone; unchanged when it holds no such row.
pub open spec fn without_row(model: SheetModel, number: u32) -> SheetModel {
    match find_row(model.rows, number, 0) {
        Some(r) => SheetModel { rows: model.rows.remove(r), extent: None, ..model },
        None => model,
    }
}

/// A text given as an optional string, as bytes.
pub open spec fn optional_text(value: Option<&str>) -> Option<Seq<u8>> {
    match value {
        Some(text) => Some(text.spec_bytes()),
        None => None,
    }
}

/// An attribute value escaped for writing between double quotes.
pub open spec fn escaped_value(value: Option<Seq<u8>>) -> Option<Seq<u8>> {
    match value {
        Some(text) => Some(escape_attribute_spec(text)),
        None => None,
    }
}

/// The row number an `r` value spells, when it spells one.
pub open spec fn parsed_number(value: Option<Seq<u8>>) -> Option<u32> {
    match value {
        Some(text) => parse_decimal_spec(text, u32::MAX),
        None => None,
    }
}

/// A row's attribute run, or nothing at all when it keeps none.
pub open spec fn run_or_empty(run: Option<Seq<u8>>) -> Seq<u8> {
    match run {
        Some(run) => run,
        None => Seq::empty(),
    }
}

/// The name `r`.
pub open spec fn name_r() -> Seq<u8> {
    seq![114u8]
}

/// A row with attribute `name` set to `value` escaped, or removed with `None`, and its source
/// extent gone. Setting `r` also sets the number the row is indexed by, and whether it has one,
/// from what `value` spells.
pub open spec fn row_with_attribute(row: RowModel, name: Seq<u8>, value: Option<Seq<u8>>) -> RowModel {
    let written = RowModel {
        attributes: Some(set_attribute_spec(run_or_empty(row.attributes), name, escaped_value(value))),
        extent: None,
        ..row
    };
    if name == name_r() {
        match parsed_number(value) {
            Some(number) => RowModel { number, flags: row.flags | 1u8, ..written },
            None => RowModel { number: 0, flags: row.flags & !1u8, ..written },
        }
    } else {
        written
    }
}

/// How many bytes setting that attribute stores: the whole rewritten run.
pub open spec fn attribute_growth(row: RowModel, name: Seq<u8>, value: Option<Seq<u8>>) -> nat {
    set_attribute_spec(run_or_empty(row.attributes), name, escaped_value(value)).len()
}

/// The sheet with attribute `name` of the row numbered `number` set to `value` — the row made
/// sure of first — and the sheet's source extent gone. Setting `r` re-derives whether the rows
/// ascend.
pub open spec fn with_row_attribute(
    model: SheetModel,
    number: u32,
    name: Seq<u8>,
    value: Option<Seq<u8>>,
) -> SheetModel {
    let placed = with_row(model, number);
    let r = row_slot_in(model.rows, number);
    let rows = placed.rows.update(r, row_with_attribute(placed.rows[r], name, value));
    SheetModel {
        rows,
        extent: None,
        rows_ascending: if name == name_r() {
            rows_strictly_ascending(rows)
        } else {
            placed.rows_ascending
        },
        ..placed
    }
}

/// The name `hidden`.
pub open spec fn name_hidden() -> Seq<u8> {
    seq![104u8, 105u8, 100u8, 100u8, 101u8, 110u8]
}

/// The `xsd:boolean` spelling the store writes: `true` or `false`.
pub open spec fn boolean_wire(flag: bool) -> Seq<u8> {
    if flag {
        seq![116u8, 114u8, 117u8, 101u8]
    } else {
        seq![102u8, 97u8, 108u8, 115u8, 101u8]
    }
}

/// The cell a lookup at `reference` answers with: the first row numbered as its row, and in it
/// the first cell in its column.
pub open spec fn cell_of(model: SheetModel, reference: CellReference) -> Option<CellModel> {
    match find_row(model.rows, row_number_of(reference), 0) {
        Some(r) => match find_cell(model.rows[r].cells, reference.column_index() as u16, 0) {
            Some(k) => Some(model.rows[r].cells[k]),
            None => None,
        },
        None => None,
    }
}

/// An attribute run with `name` set to `value`; a cell that keeps no run keeps none.
pub open spec fn rewritten_run(run: Option<Seq<u8>>, name: Seq<u8>, value: Option<Seq<u8>>) -> Option<
    Seq<u8>,
> {
    match run {
        Some(run) => Some(set_attribute_spec(run, name, value)),
        None => None,
    }
}

/// How many bytes rewriting that run stores: none when there is no run.
pub open spec fn run_growth(run: Option<Seq<u8>>, name: Seq<u8>, value: Option<Seq<u8>>) -> nat {
    match run {
        Some(run) => set_attribute_spec(run, name, value).len(),
        None => 0,
    }
}

/// The decimal text of a number, when there is one.
pub open spec fn decimal_of(value: Option<u32>) -> Option<Seq<u8>> {
    match value {
        Some(value) => Some(decimal(value as nat)),
        None => None,
    }
}

/// A cell with `c@s` set to `style`, or removed with `None`, and its source extent gone; its
/// verbatim run, when it keeps one, rewritten too when `rewrite` says so.
pub open spec fn styled(cell: CellModel, style: Option<u32>, rewrite: bool) -> CellModel {
    CellModel {
        style: match style {
            Some(style) => style,
            None => 0,
        },
        flags: match style {
            Some(_) => cell.flags | 2u8,
            None => cell.flags & !2u8,
        },
        extent: None,
        attributes: if rewrite {
            rewritten_run(cell.attributes, seq![115u8], decimal_of(style))
        } else {
            cell.attributes
        },
        ..cell
    }
}

/// The bytes a value is stored as: its `<v>` text escaped, or a whole `<is>` for an inline
/// string; nothing for a blank.
pub open spec fn value_payload(value: CellValue, prefix: Option<Seq<u8>>) -> Option<Seq<u8>> {
    match value {
        CellValue::Blank => None,
        CellValue::NumberText(text) => Some(escape_text_spec(text.spec_bytes())),
        CellValue::SharedString(index) => Some(decimal(index as nat)),
        CellValue::Boolean(flag) => Some(
            if flag {
                seq![49u8]
            } else {
                seq![48u8]
            },
        ),
        CellValue::Error(text) => Some(escape_text_spec(text.spec_bytes())),
        CellValue::FormulaString(text) => Some(escape_text_spec(text.spec_bytes())),
        CellValue::InlineString(text) => Some(inline_string_markup(prefix, text.spec_bytes())),
    }
}

/// How many bytes storing a value takes.
pub open spec fn payload_growth(value: CellValue, prefix: Option<Seq<u8>>) -> nat {
    match value_payload(value, prefix) {
        Some(bytes) => bytes.len(),
        None => 0,
    }
}

/// The element a value is written in.
pub open spec fn value_shape(value: CellValue) -> PayloadShape {
    match value {
        CellValue::Blank => PayloadShape::Absent,
        CellValue::InlineString(_) => PayloadShape::InlineString,
        _ => PayloadShape::ValueText,
    }
}

/// The `c@t` code a value writes: none for a blank or a number.
pub open spec fn value_kind(value: CellValue) -> u8 {
    match value {
        CellValue::Blank => 0u8,
        CellValue::NumberText(_) => 0u8,
        CellValue::SharedString(_) => code_of(CellType::SharedString),
        CellValue::Boolean(_) => code_of(CellType::Boolean),
        CellValue::Error(_) => code_of(CellType::Error),
        CellValue::FormulaString(_) => code_of(CellType::FormulaString),
        CellValue::InlineString(_) => code_of(CellType::InlineString),
    }
}

/// The wire spelling of a `c@t` code, or `None` for no attribute.
pub open spec fn type_wire(kind: u8) -> Option<Seq<u8>> {
    match type_of_code(kind) {
        Some(cell_type) => Some(wire_spec(cell_type)),
        None => None,
    }
}

/// How many bytes rewriting a cell's `t` to `kind` stores: none when the type does not change.
pub open spec fn type_growth(cell: CellModel, kind: u8) -> nat {
    if kind != cell.kind {
        run_growth(cell.attributes, seq![116u8], type_wire(kind))
    } else {
        0
    }
}

/// A cell holding `value`, with its source extent gone; its verbatim run, when it keeps one, has
/// its `t` rewritten too when `rewrite` says so and the type changed.
pub open spec fn valued(
    cell: CellModel,
    value: CellValue,
    prefix: Option<Seq<u8>>,
    rewrite: bool,
) -> CellModel {
    let kind = value_kind(value);
    CellModel {
        payload: value_payload(value, prefix),
        flags: flags_with_shape(cell.flags, value_shape(value)),
        kind,
        extent: None,
        attributes: if rewrite && kind != cell.kind {
            rewritten_run(cell.attributes, seq![116u8], type_wire(kind))
        } else {
            cell.attributes
        },
        ..cell
    }
}

/// `first_row_above` lies at or after `from`, every row it passes is numbered at most `number`,
/// and the row it lands on is numbered above it.
pub proof fn lemma_first_row_above(rows: Seq<RowModel>, number: u32, from: int)
    requires
        0 <= from <= rows.len(),
    ensures
        from <= first_row_above(rows, number, from) <= rows.len(),
        forall|i: int|
            from <= i < first_row_above(rows, number, from) ==> (#[trigger] rows[i]).number <= number,
        first_row_above(rows, number, from) < rows.len() ==> rows[first_row_above(
            rows,
            number,
            from,
        )].number > number,
    decreases rows.len() - from,
{
    if from < rows.len() && rows[from].number <= number {
        lemma_first_row_above(rows, number, from + 1);
    }
}

/// `first_row_above` is the position `at` when every row before it is numbered at most `number`
/// and the row at it above.
pub proof fn lemma_first_row_above_is(rows: Seq<RowModel>, number: u32, from: int, at: int)
    requires
        0 <= from <= at <= rows.len(),
        forall|i: int| from <= i < at ==> (#[trigger] rows[i]).number <= number,
        at < rows.len() ==> rows[at].number > number,
    ensures
        first_row_above(rows, number, from) == at,
    decreases at - from,
{
    if from < at {
        lemma_first_row_above_is(rows, number, from + 1, at);
    }
}

/// `first_cell_right_of` lies at or after `from`, every cell it passes lies at or left of
/// `column`, and the cell it lands on lies right of it.
pub proof fn lemma_first_cell_right_of(cells: Seq<CellModel>, column: nat, from: int)
    requires
        0 <= from <= cells.len(),
    ensures
        from <= first_cell_right_of(cells, column, from) <= cells.len(),
        forall|i: int|
            from <= i < first_cell_right_of(cells, column, from) ==> (
            #[trigger] cells[i]).reference.column_index() <= column,
        first_cell_right_of(cells, column, from) < cells.len() ==> cells[first_cell_right_of(
            cells,
            column,
            from,
        )].reference.column_index() > column,
    decreases cells.len() - from,
{
    if from < cells.len() && cells[from].reference.column_index() <= column {
        lemma_first_cell_right_of(cells, column, from + 1);
    }
}

/// `first_cell_right_of` is the position `at` when every cell before it lies at or left of
/// `column` and the cell at it right of it.
pub proof fn lemma_first_cell_right_of_is(cells: Seq<CellModel>, column: nat, from: int, at: int)
    requires
        0 <= from <= at <= cells.len(),
        forall|i: int| from <= i < at ==> (#[trigger] cells[i]).reference.column_index() <= column,
        at < cells.len() ==> cells[at].reference.column_index() > column,
    ensures
        first_cell_right_of(cells, column, from) == at,
    decreases at - from,
{
    if from < at {
        lemma_first_cell_right_of_is(cells, column, from + 1, at);
    }
}

/// A new row placed by `first_row_above` keeps ascending rows ascending, when no row carried its
/// number.
pub proof fn lemma_insert_row_ascending(rows: Seq<RowModel>, number: u32)
    requires
        rows_strictly_ascending(rows),
        find_row(rows, number, 0) is None,
    ensures
        rows_strictly_ascending(rows.insert(first_row_above(rows, number, 0), new_row(number))),
{
    let at = first_row_above(rows, number, 0);
    let grown = rows.insert(at, new_row(number));
    lemma_first_row_above(rows, number, 0);
    lemma_find_row_found(rows, number, 0);
    assert forall|i: int, j: int| 0 <= i < j < grown.len() implies #[trigger] grown[i].number
        < #[trigger] grown[j].number by {
        if j < at {
            assert(rows[i].number < rows[j].number);
        } else if j == at {
            assert(rows[i].number <= number && rows[i].number != number);
        } else if i == at {
            if j - 1 > at {
                assert(rows[at].number < rows[j - 1].number);
            }
        } else if i < at {
            assert(rows[i].number <= number && rows[i].number != number);
            if j - 1 > at {
                assert(rows[at].number < rows[j - 1].number);
            }
        } else {
            assert(rows[i - 1].number < rows[j - 1].number);
        }
    }
}

/// A blank cell placed by `first_cell_right_of` keeps ascending cells ascending, when no cell
/// stood in its column.
pub proof fn lemma_insert_cell_ascending(cells: Seq<CellModel>, reference: CellReference)
    requires
        cells_strictly_ascending(cells),
        reference.column_index() <= u16::MAX,
        find_cell(cells, reference.column_index() as u16, 0) is None,
    ensures
        cells_strictly_ascending(
            cells.insert(
                first_cell_right_of(cells, reference.column_index(), 0),
                blank_cell(reference),
            ),
        ),
{
    let column = reference.column_index();
    let at = first_cell_right_of(cells, column, 0);
    let grown = cells.insert(at, blank_cell(reference));
    lemma_first_cell_right_of(cells, column, 0);
    lemma_find_cell_found(cells, column as u16, 0);
    assert forall|i: int, j: int| 0 <= i < j < grown.len() implies (
    #[trigger] grown[i]).reference.column_index() < (#[trigger] grown[j]).reference.column_index() by {
        if j < at {
            assert(cells[i].reference.column_index() < cells[j].reference.column_index());
        } else if j == at {
            assert(cells[i].reference.column_index() != column);
        } else if i == at {
            if j - 1 > at {
                assert(cells[at].reference.column_index() < cells[j - 1].reference.column_index());
            }
        } else if i < at {
            assert(cells[i].reference.column_index() != column);
            if j - 1 > at {
                assert(cells[at].reference.column_index() < cells[j - 1].reference.column_index());
            }
        } else {
            assert(cells[i - 1].reference.column_index() < cells[j - 1].reference.column_index());
        }
    }
}

} // verus!
