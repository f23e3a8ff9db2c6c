//! Writing the store back out — the copy-on-write half of the design.
//!
//! Every level asks the same question first: *does this record still carry the byte range it was
//! read from?* A range that is still present means nothing under it has been touched, so the bytes
//! are copied and the walk stops there.
//!
//! * The **sheet** — an untouched worksheet is one copy, and the walk below never runs.
//! * A **row** — after an edit somewhere else in the sheet, every other row is copied whole.
//! * A **cell** — inside the one row that *was* rewritten, every cell but the edited one is still
//!   copied from its own range, so the row comes back differing only where it was changed.

use vstd::prelude::*;
use vstd::string::StringSliceAdditionalSpecFns;

use crate::address::CellReference;
use crate::decimal::{decimal, push_decimal};
use crate::escape::{escape_text, escape_text_spec};

use super::edits::{optional_bytes, type_wire};
use super::model::{CellModel, RowModel, SheetModel};
use super::record::{
    CellFlags, PackedCell, PayloadShape, RowFlags, has_flag, shape_of_flags,
};
use super::store::SheetData;

verus! {

/// A name as written with `prefix`: `prefix:local`, or `local` alone.
pub open spec fn qualified(prefix: Option<Seq<u8>>, local: Seq<u8>) -> Seq<u8> {
    match prefix {
        Some(prefix) => prefix + seq![58u8] + local,
        None => local,
    }
}

/// `<name>`.
pub open spec fn start_tag(prefix: Option<Seq<u8>>, local: Seq<u8>) -> Seq<u8> {
    seq![60u8] + qualified(prefix, local) + seq![62u8]
}

/// `</name>`.
pub open spec fn end_tag(prefix: Option<Seq<u8>>, local: Seq<u8>) -> Seq<u8> {
    seq![60u8, 47u8] + qualified(prefix, local) + seq![62u8]
}

/// The local name `is`.
pub open spec fn local_is() -> Seq<u8> {
    seq![105u8, 115u8]
}

/// The local name `t`.
pub open spec fn local_t() -> Seq<u8> {
    seq![116u8]
}

/// `<is><t>text</t></is>`, with `text` escaped as character data.
pub open spec fn inline_string_markup(prefix: Option<Seq<u8>>, text: Seq<u8>) -> Seq<u8> {
    start_tag(prefix, local_is()) + start_tag(prefix, local_t()) + escape_text_spec(text) + end_tag(
        prefix,
        local_t(),
    ) + end_tag(prefix, local_is())
}

/// The bytes of an optional range, or nothing.
pub open spec fn or_empty(bytes: Option<Seq<u8>>) -> Seq<u8> {
    match bytes {
        Some(bytes) => bytes,
        None => Seq::empty(),
    }
}

/// The local name `c`.
pub open spec fn local_c() -> Seq<u8> {
    seq![99u8]
}

/// The local name `v`.
pub open spec fn local_v() -> Seq<u8> {
    seq![118u8]
}

/// The local name `row`.
pub open spec fn local_row() -> Seq<u8> {
    seq![114u8, 111u8, 119u8]
}

/// The local name `sheetData`.
pub open spec fn local_sheet_data() -> Seq<u8> {
    seq![115u8, 104u8, 101u8, 101u8, 116u8, 68u8, 97u8, 116u8, 97u8]
}

/// ` name="value"`, for a one-letter attribute name.
pub open spec fn attribute_text(name: u8, value: Seq<u8>) -> Seq<u8> {
    seq![32u8, name, 61u8, 34u8] + value + seq![34u8]
}

/// The start-tag attribute run the store regenerates for a cell: `r`, then `s`, then `t`, each
/// only if the file wrote it, each double-quoted and introduced by one space.
pub open spec fn canonical_run(reference: CellReference, flags: u8, style: u32, kind: u8) -> Seq<u8> {
    (if has_flag(flags, 1u8) {
        attribute_text(114u8, reference.spec_text())
    } else {
        Seq::empty()
    }) + (if has_flag(flags, 2u8) {
        attribute_text(115u8, decimal(style as nat))
    } else {
        Seq::empty()
    }) + match type_wire(kind) {
        Some(wire) => attribute_text(116u8, wire),
        None => Seq::empty(),
    }
}

/// A cell's value element: `<v>text</v>`, its `<is>` as kept, or nothing.
pub open spec fn payload_markup(prefix: Option<Seq<u8>>, cell: CellModel) -> Seq<u8> {
    match shape_of_flags(cell.flags) {
        PayloadShape::Absent => Seq::empty(),
        PayloadShape::ValueText => start_tag(prefix, local_v()) + or_empty(cell.payload) + end_tag(
            prefix,
            local_v(),
        ),
        PayloadShape::InlineString => or_empty(cell.payload),
    }
}

/// A cell as it is written: its source bytes while it is untouched, and a rebuild otherwise —
/// its verbatim attribute run or the regenerated one, then its children and its value.
pub open spec fn cell_markup(prefix: Option<Seq<u8>>, cell: CellModel) -> Seq<u8> {
    match cell.extent {
        Some(bytes) => bytes,
        None => {
            let open = cell_opening(prefix, cell);
            let before = or_empty(cell.before_payload);
            let after = or_empty(cell.after_payload);
            if shape_of_flags(cell.flags) == PayloadShape::Absent && before.len() == 0 && after.len()
                == 0 && has_flag(cell.flags, 4u8) {
                open + seq![47u8, 62u8]
            } else {
                open + seq![62u8] + before + payload_markup(prefix, cell) + after + end_tag(
                    prefix,
                    local_c(),
                )
            }
        },
    }
}

/// A row's cells as written, each after the bytes that lead it.
pub open spec fn cells_markup(prefix: Option<Seq<u8>>, cells: Seq<CellModel>) -> Seq<u8>
    decreases cells.len(),
{
    if cells.len() == 0 {
        Seq::empty()
    } else {
        cells_markup(prefix, cells.drop_last()) + or_empty(cells.last().leading) + cell_markup(
            prefix,
            cells.last(),
        )
    }
}

/// A row as it is written: its source bytes while it is untouched, and a rebuild otherwise.
pub open spec fn row_markup(prefix: Option<Seq<u8>>, row: RowModel) -> Seq<u8> {
    match row.extent {
        Some(bytes) => bytes,
        None => {
            let open = seq![60u8] + qualified(prefix, local_row()) + or_empty(row.attributes);
            let trailing = or_empty(row.trailing);
            if row.cells.len() == 0 && trailing.len() == 0 && has_flag(row.flags, 2u8) {
                open + seq![47u8, 62u8]
            } else {
                open + seq![62u8] + cells_markup(prefix, row.cells) + trailing + end_tag(
                    prefix,
                    local_row(),
                )
            }
        },
    }
}

/// The rows as written, each after the bytes that lead it.
pub open spec fn rows_markup(prefix: Option<Seq<u8>>, rows: Seq<RowModel>) -> Seq<u8>
    decreases rows.len(),
{
    if rows.len() == 0 {
        Seq::empty()
    } else {
        rows_markup(prefix, rows.drop_last()) + or_empty(rows.last().leading) + row_markup(
            prefix,
            rows.last(),
        )
    }
}

/// A whole `sheetData` as it is written: its source bytes while nothing in it is edited, and a
/// rebuild otherwise.
pub open spec fn sheet_markup(model: SheetModel) -> Seq<u8> {
    match model.extent {
        Some(bytes) => bytes,
        None => {
            let open = seq![60u8] + qualified(model.prefix, local_sheet_data()) + or_empty(
                model.attributes,
            );
            let trailing = or_empty(model.trailing);
            if model.rows.len() == 0 && trailing.len() == 0 && model.self_closing {
                open + seq![47u8, 62u8]
            } else {
                open + seq![62u8] + rows_markup(model.prefix, model.rows) + trailing + end_tag(
                    model.prefix,
                    local_sheet_data(),
                )
            }
        },
    }
}

/// Appends `local`, qualified with `prefix` when there is one.
fn write_prefixed_name(prefix: Option<&[u8]>, local: &[u8], out: &mut Vec<u8>)
    ensures
        final(out)@ == old(out)@ + qualified(optional_bytes(prefix), local@),
{
    let ghost start = out@;
    match prefix {
        Some(prefix) => {
            out.extend_from_slice(prefix);
            out.push(58u8);
        },
        None => {},
    }
    out.extend_from_slice(local);
    proof {
        assert(out@ =~= start + qualified(optional_bytes(prefix), local@));
    }
}

/// Appends `<name>`.
fn write_start_tag(prefix: Option<&[u8]>, local: &[u8], out: &mut Vec<u8>)
    ensures
        final(out)@ == old(out)@ + start_tag(optional_bytes(prefix), local@),
{
    let ghost start = out@;
    out.push(60u8);
    write_prefixed_name(prefix, local, out);
    out.push(62u8);
    proof {
        assert(out@ =~= start + start_tag(optional_bytes(prefix), local@));
    }
}

/// Appends `</name>`.
fn write_end_tag(prefix: Option<&[u8]>, local: &[u8], out: &mut Vec<u8>)
    ensures
        final(out)@ == old(out)@ + end_tag(optional_bytes(prefix), local@),
{
    let ghost start = out@;
    out.push(60u8);
    out.push(47u8);
    write_prefixed_name(prefix, local, out);
    out.push(62u8);
    proof {
        assert(out@ =~= start + end_tag(optional_bytes(prefix), local@));
    }
}

/// Writes `<is><t>text</t></is>` for a caller setting an inline string, with `text` escaped as
/// character data.
pub fn write_inline_string(prefix: Option<&[u8]>, text: &str, out: &mut Vec<u8>)
    ensures
        final(out)@ == old(out)@ + inline_string_markup(optional_bytes(prefix), text.spec_bytes()),
{
    let ghost start = out@;
    let escaped = escape_text(text);
    let is_name = vec![105u8, 115u8];
    let t_name = vec![116u8];
    write_start_tag(prefix, is_name.as_slice(), out);
    write_start_tag(prefix, t_name.as_slice(), out);
    out.extend_from_slice(escaped.as_slice());
    write_end_tag(prefix, t_name.as_slice(), out);
    write_end_tag(prefix, is_name.as_slice(), out);
    proof {
        assert(is_name@ =~= local_is());
        assert(t_name@ =~= local_t());
        assert(out@ =~= start + inline_string_markup(optional_bytes(prefix), text.spec_bytes()));
    }
}

/// Appends ` name="` for a one-letter attribute name.
fn write_attribute_opening(name: u8, out: &mut Vec<u8>)
    ensures
        final(out)@ == old(out)@ + seq![32u8, name, 61u8, 34u8],
{
    let ghost start = out@;
    out.push(32u8);
    out.push(name);
    out.push(61u8);
    out.push(34u8);
    proof {
        assert(out@ =~= start + seq![32u8, name, 61u8, 34u8]);
    }
}

/// Writes the attribute run for a cell whose start tag this store regenerates: `r`, then `s`, then
/// `t`, each only if the file wrote it, each double-quoted and separated by one space.
///
/// **This function is also the reader's canonicality test.** The reader writes this run and
/// compares it byte for byte with the one the file has; equal means the cell needs no verbatim run
/// at all.
pub fn write_canonical_attribute_run(cell: &PackedCell, out: &mut Vec<u8>)
    ensures
        final(out)@ == old(out)@ + canonical_run(cell.reference, cell.flags, cell.style, cell.kind),
{
    let ghost start = out@;
    if cell.has(CellFlags::HAS_REFERENCE) {
        write_attribute_opening(114u8, out);
        cell.reference.write_text(out);
        out.push(34u8);
    }
    let ghost after_reference = out@;
    if cell.has(CellFlags::HAS_STYLE) {
        write_attribute_opening(115u8, out);
        push_decimal(out, cell.style as u64);
        out.push(34u8);
    }
    let ghost after_style = out@;
    match cell.written_cell_type() {
        Some(cell_type) => {
            write_attribute_opening(116u8, out);
            cell_type.write_wire(out);
            out.push(34u8);
        },
        None => {},
    }
    proof {
        assert(after_reference =~= start + if has_flag(cell.flags, 1u8) {
            attribute_text(114u8, cell.reference.spec_text())
        } else {
            Seq::empty()
        });
        assert(after_style =~= after_reference + if has_flag(cell.flags, 2u8) {
            attribute_text(115u8, decimal(cell.style as nat))
        } else {
            Seq::empty()
        });
        assert(out@ =~= after_style + match type_wire(cell.kind) {
            Some(wire) => attribute_text(116u8, wire),
            None => Seq::empty(),
        });
    }
}

/// The start of a rebuilt cell's start tag: `<c` and its attribute run, verbatim or regenerated.
pub open spec fn cell_opening(prefix: Option<Seq<u8>>, cell: CellModel) -> Seq<u8> {
    seq![60u8] + qualified(prefix, local_c()) + match cell.attributes {
        Some(run) => run,
        None => canonical_run(cell.reference, cell.flags, cell.style, cell.kind),
    }
}

/// Appends `<c` and the cell's attribute run.
fn write_cell_opening(sheet: &SheetData, index: usize, out: &mut Vec<u8>)
    requires
        sheet.wf(),
        index < sheet.raw_cells().len(),
    ensures
        final(out)@ == old(out)@ + cell_opening(sheet@.prefix, sheet.cell_at(index as int)),
{
    let ghost start = out@;
    let cell = sheet.cell_record(index);
    let prefix = sheet.element_prefix();
    let c_name = vec![99u8];
    out.push(60u8);
    write_prefixed_name(prefix, c_name.as_slice(), out);
    match sheet.cell_attribute_run(index) {
        Some(run) => out.extend_from_slice(run),
        None => write_canonical_attribute_run(&cell, out),
    }
    proof {
        assert(c_name@ =~= local_c());
        assert(out@ =~= start + cell_opening(sheet@.prefix, sheet.cell_at(index as int)));
    }
}

/// Appends the cell's value element.
fn write_cell_value(sheet: &SheetData, index: usize, out: &mut Vec<u8>)
    requires
        sheet.wf(),
        index < sheet.raw_cells().len(),
    ensures
        final(out)@ == old(out)@ + payload_markup(sheet@.prefix, sheet.cell_at(index as int)),
{
    let ghost start = out@;
    let cell = sheet.cell_record(index);
    let prefix = sheet.element_prefix();
    let v_name = vec![118u8];
    match cell.payload_shape() {
        PayloadShape::Absent => {},
        PayloadShape::ValueText => {
            write_start_tag(prefix, v_name.as_slice(), out);
            out.extend_from_slice(sheet.cell_payload_bytes(index));
            write_end_tag(prefix, v_name.as_slice(), out);
        },
        PayloadShape::InlineString => out.extend_from_slice(sheet.cell_payload_bytes(index)),
    }
    proof {
        assert(v_name@ =~= local_v());
        assert(out@ =~= start + payload_markup(sheet@.prefix, sheet.cell_at(index as int)));
    }
}

/// Appends one cell element.
pub fn write_cell(sheet: &SheetData, index: usize, out: &mut Vec<u8>)
    requires
        sheet.wf(),
        index < sheet.raw_cells().len(),
    ensures
        final(out)@ == old(out)@ + cell_markup(sheet@.prefix, sheet.cell_at(index as int)),
{
    let ghost start = out@;
    let ghost model = sheet.cell_at(index as int);
    let ghost prefix_bytes = sheet@.prefix;
    match sheet.verbatim_cell(index) {
        Some(verbatim) => {
            out.extend_from_slice(verbatim);
            return;
        },
        None => {},
    }
    let cell = sheet.cell_record(index);
    write_cell_opening(sheet, index, out);
    let ghost open = out@;
    let before = sheet.cell_before_payload_bytes(index);
    let after = sheet.cell_after_payload_bytes(index);
    let shape = cell.payload_shape();
    if shape == PayloadShape::Absent && before.len() == 0 && after.len() == 0 && cell.has(
        CellFlags::SELF_CLOSING,
    ) {
        out.push(47u8);
        out.push(62u8);
        proof {
            assert(out@ =~= open + seq![47u8, 62u8]);
        }
        return;
    }
    out.push(62u8);
    out.extend_from_slice(before);
    write_cell_value(sheet, index, out);
    out.extend_from_slice(after);
    let prefix = sheet.element_prefix();
    let c_name = vec![99u8];
    write_end_tag(prefix, c_name.as_slice(), out);
    proof {
        assert(c_name@ =~= local_c());
        assert(out@ =~= open + seq![62u8] + or_empty(model.before_payload) + payload_markup(
            prefix_bytes,
            model,
        ) + or_empty(model.after_payload) + end_tag(prefix_bytes, local_c()));
    }
}

/// Appends one row element — **not** the bytes that precede it.
pub fn write_row(sheet: &SheetData, index: usize, out: &mut Vec<u8>)
    requires
        sheet.wf(),
        index < sheet@.rows.len(),
    ensures
        final(out)@ == old(out)@ + row_markup(sheet@.prefix, sheet@.rows[index as int]),
{
    let ghost start = out@;
    let ghost model = sheet@.rows[index as int];
    let ghost prefix_bytes = sheet@.prefix;
    match sheet.verbatim_row(index) {
        Some(verbatim) => {
            out.extend_from_slice(verbatim);
            return;
        },
        None => {},
    }
    let row = sheet.row_record(index);
    let prefix = sheet.element_prefix();
    let row_name = vec![114u8, 111u8, 119u8];
    out.push(60u8);
    write_prefixed_name(prefix, row_name.as_slice(), out);
    out.extend_from_slice(sheet.row_attribute_run(index));
    let ghost open = out@;
    proof {
        assert(row_name@ =~= local_row());
        assert(open =~= start + (seq![60u8] + qualified(prefix_bytes, local_row()) + or_empty(
            model.attributes,
        )));
    }
    let trailing = sheet.row_trailing_bytes(index);
    if row.cell_count == 0 && trailing.len() == 0 && row.has(RowFlags::SELF_CLOSING) {
        out.push(47u8);
        out.push(62u8);
        proof {
            assert(out@ =~= open + seq![47u8, 62u8]);
        }
        return;
    }
    out.push(62u8);
    let mut produced: Vec<u8> = Vec::new();
    let first = row.first_cell as usize;
    let count = row.cell_count as usize;
    proof {
        assert(row.first_cell + row.cell_count <= sheet.raw_cells().len());
    }
    let mut k: usize = 0;
    while k < count
        invariant
            sheet.wf(),
            index < sheet@.rows.len(),
            model == sheet@.rows[index as int],
            prefix_bytes == sheet@.prefix,
            first == sheet.raw_rows()[index as int].first_cell,
            count == model.cells.len(),
            first + count <= sheet.raw_cells().len(),
            k <= count,
            produced@ == cells_markup(prefix_bytes, model.cells.subrange(0, k as int)),
        decreases count - k,
    {
        proof {
            sheet.lemma_cell_in_row(index as int, k as int);
        }
        produced.extend_from_slice(sheet.cell_leading_bytes(first + k));
        write_cell(sheet, first + k, &mut produced);
        proof {
            assert(model.cells.subrange(0, k + 1).drop_last() =~= model.cells.subrange(0, k as int));
        }
        k = k + 1;
    }
    proof {
        assert(model.cells.subrange(0, count as int) =~= model.cells);
    }
    out.extend_from_slice(produced.as_slice());
    out.extend_from_slice(trailing);
    write_end_tag(prefix, row_name.as_slice(), out);
    proof {
        assert(out@ =~= open + seq![62u8] + cells_markup(prefix_bytes, model.cells) + or_empty(
            model.trailing,
        ) + end_tag(prefix_bytes, local_row()));
    }
}

/// Appends the whole `<sheetData>` element.
pub fn write_sheet_data(sheet: &SheetData, out: &mut Vec<u8>)
    requires
        sheet.wf(),
    ensures
        final(out)@ == old(out)@ + sheet_markup(sheet@),
{
    let ghost start = out@;
    let ghost model = sheet@;
    match sheet.verbatim_sheet() {
        Some(verbatim) => {
            out.extend_from_slice(verbatim);
            return;
        },
        None => {},
    }
    let prefix = sheet.element_prefix();
    let name = vec![115u8, 104u8, 101u8, 101u8, 116u8, 68u8, 97u8, 116u8, 97u8];
    out.push(60u8);
    write_prefixed_name(prefix, name.as_slice(), out);
    out.extend_from_slice(sheet.attribute_run());
    let ghost open = out@;
    proof {
        assert(name@ =~= local_sheet_data());
        assert(open =~= start + (seq![60u8] + qualified(model.prefix, local_sheet_data()) + or_empty(
            model.attributes,
        )));
    }
    let trailing = sheet.trailing_bytes();
    let count = sheet.row_count();
    if count == 0 && trailing.len() == 0 && sheet.was_self_closing() {
        out.push(47u8);
        out.push(62u8);
        proof {
            assert(out@ =~= open + seq![47u8, 62u8]);
        }
        return;
    }
    out.push(62u8);
    let mut produced: Vec<u8> = Vec::new();
    let mut index: usize = 0;
    while index < count
        invariant
            sheet.wf(),
            model == sheet@,
            count == model.rows.len(),
            index <= count,
            produced@ == rows_markup(model.prefix, model.rows.subrange(0, index as int)),
        decreases count - index,
    {
        produced.extend_from_slice(sheet.row_leading_bytes(index));
        write_row(sheet, index, &mut produced);
        proof {
            assert(model.rows.subrange(0, index + 1).drop_last() =~= model.rows.subrange(
                0,
                index as int,
            ));
        }
        index = index + 1;
    }
    proof {
        assert(model.rows.subrange(0, count as int) =~= model.rows);
    }
    out.extend_from_slice(produced.as_slice());
    out.extend_from_slice(trailing);
    write_end_tag(prefix, name.as_slice(), out);
    proof {
        assert(out@ =~= open + seq![62u8] + rows_markup(model.prefix, model.rows) + or_empty(
            model.trailing,
        ) + end_tag(model.prefix, local_sheet_data()));
    }
}

} // verus!
