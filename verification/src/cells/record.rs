//! The packed records: what a row and a cell cost.
//!
//! | Record | Bytes |
//! |---|---|
//! | [`PackedCell`] | 36 — an 8-byte reference, two 8-byte spans, two 4-byte indices and two bytes of discriminant |
//! | [`PackedRow`] | 48 |
//! | [`CellExtras`] | 40, allocated only for a cell that has rare data |
//!
//! Every byte a record preserves is a [`TextSpan`] into the sheet's one byte arena, so the store
//! owns no per-cell allocation at all. [`PackedCell::extent`] is the cell's own `<c …>…</c>` range
//! in the part's bytes: the write path copies it rather than rebuilding it, which is what makes an
//! untouched cell inside a rewritten row come back byte-identical.

use vstd::prelude::*;

use crate::address::CellReference;
use crate::arena::text::TextSpan;

use super::cell_type::CellType;

verus! {

/// Where a cell's value lives, and in what shape.
#[derive(Debug, Clone, Copy, PartialEq, Eq, Structural)]
pub enum PayloadShape {
    /// The cell carries neither `<v>` nor `<is>` — a blank cell, which is still a cell because it
    /// may carry a style.
    Absent,
    /// The cell record's payload span is the raw, still-escaped text **inside** a `<v>` element.
    ValueText,
    /// The cell record's payload span is a whole `<is>…</is>` element, kept verbatim.
    InlineString,
}

/// One cell, packed: 36 bytes.
#[derive(Debug, Clone, Copy)]
pub struct PackedCell {
    /// `c@r`, or the position-derived address when the file left it out.
    pub reference: CellReference,
    /// The whole `<c …>…</c>` in the part's bytes, or [`TextSpan::none`] once the cell is edited or
    /// if it was authored. **This is the cell's copy-on-write state.**
    pub extent: TextSpan,
    /// The value, in the shape the payload bits of [`Self::flags`] name.
    pub payload: TextSpan,
    /// `c@s`, the `cellXfs` index. Zero when the attribute is absent, which is also its schema
    /// default; [`CellFlags::HAS_STYLE`] is what distinguishes "wrote `s="0"`" from "wrote nothing".
    pub style: u32,
    /// Index into the sheet's cell-extras table, or [`NO_EXTRAS`]. Stable across insertions.
    pub extra: u32,
    /// `c@t` as a [`CellTypeCode`].
    pub kind: u8,
    /// [`CellFlags`].
    pub flags: u8,
}

/// The value of [`PackedCell::extra`] meaning "this cell has no side-table entry".
pub const NO_EXTRAS: u32 = 0xFFFF_FFFFu32;

/// `c@t`, stored as one byte with a distinct code for "the attribute was absent".
///
/// The schema default is `n`, so an absent `t` and `t="n"` *mean* the same thing — and must not be
/// written the same way, because a file that said nothing must come back saying nothing.
pub struct CellTypeCode;

/// The code a written `c@t` is stored as.
pub open spec fn code_of(cell_type: CellType) -> u8 {
    match cell_type {
        CellType::Boolean => 1u8,
        CellType::Number => 2u8,
        CellType::Error => 3u8,
        CellType::SharedString => 4u8,
        CellType::FormulaString => 5u8,
        CellType::InlineString => 6u8,
    }
}

/// The type a code names, or `None` when the attribute was absent.
pub open spec fn type_of_code(code: u8) -> Option<CellType> {
    if code == 1 {
        Some(CellType::Boolean)
    } else if code == 2 {
        Some(CellType::Number)
    } else if code == 3 {
        Some(CellType::Error)
    } else if code == 4 {
        Some(CellType::SharedString)
    } else if code == 5 {
        Some(CellType::FormulaString)
    } else if code == 6 {
        Some(CellType::InlineString)
    } else {
        None
    }
}

impl CellTypeCode {
    /// `c@t` was not written. The cell's type is [`CellType::Number`] by schema default.
    pub const ABSENT: u8 = 0u8;

    /// The code for a written `c@t`.
    pub fn of(cell_type: CellType) -> (code: u8)
        ensures
            code == code_of(cell_type),
            code != 0,
            type_of_code(code) == Some(cell_type),
    {
        match cell_type {
            CellType::Boolean => 1u8,
            CellType::Number => 2u8,
            CellType::Error => 3u8,
            CellType::SharedString => 4u8,
            CellType::FormulaString => 5u8,
            CellType::InlineString => 6u8,
        }
    }

    /// The type a code names, or `None` when the attribute was absent.
    pub fn cell_type(code: u8) -> (cell_type: Option<CellType>)
        ensures
            cell_type == type_of_code(code),
    {
        if code == 1 {
            Some(CellType::Boolean)
        } else if code == 2 {
            Some(CellType::Number)
        } else if code == 3 {
            Some(CellType::Error)
        } else if code == 4 {
            Some(CellType::SharedString)
        } else if code == 5 {
            Some(CellType::FormulaString)
        } else if code == 6 {
            Some(CellType::InlineString)
        } else {
            None
        }
    }
}

/// The bit flags [`PackedCell::flags`] carries.
pub struct CellFlags;

impl CellFlags {
    /// `c@r` was written. A cell without one takes its address from its position, and must not gain
    /// the attribute on the way out.
    pub const HAS_REFERENCE: u8 = 1u8;
    /// `c@s` was written, even if it was written as the schema default `0`.
    pub const HAS_STYLE: u8 = 2u8;
    /// The cell was written `<c …/>` rather than `<c …></c>`.
    pub const SELF_CLOSING: u8 = 4u8;
    /// Bits 3–4 hold the [`PayloadShape`].
    pub const PAYLOAD_SHIFT: u8 = 3u8;
    /// The mask for those two bits.
    pub const PAYLOAD_MASK: u8 = 24u8;
}

/// The payload shape the flag bits `flags` record.
pub open spec fn shape_of_flags(flags: u8) -> PayloadShape {
    let code = (flags & 24u8) >> 3u8;
    if code == 1 {
        PayloadShape::ValueText
    } else if code == 2 {
        PayloadShape::InlineString
    } else {
        PayloadShape::Absent
    }
}

/// The two-bit code a payload shape is recorded as.
pub open spec fn shape_code(shape: PayloadShape) -> u8 {
    match shape {
        PayloadShape::Absent => 0u8,
        PayloadShape::ValueText => 1u8,
        PayloadShape::InlineString => 2u8,
    }
}

/// `flags` with its payload bits replaced by `shape`'s code.
pub open spec fn flags_with_shape(flags: u8, shape: PayloadShape) -> u8 {
    (flags & !24u8) | (shape_code(shape) << 3u8)
}

/// Whether `flag` is set in `flags`.
pub open spec fn has_flag(flags: u8, flag: u8) -> bool {
    flags & flag != 0
}

/// Recording a payload shape records exactly that shape and leaves the three flag bits beside it
/// alone.
pub proof fn lemma_shape_bits(flags: u8, shape: PayloadShape)
    ensures
        shape_of_flags(flags_with_shape(flags, shape)) == shape,
        has_flag(flags_with_shape(flags, shape), 1u8) == has_flag(flags, 1u8),
        has_flag(flags_with_shape(flags, shape), 2u8) == has_flag(flags, 2u8),
        has_flag(flags_with_shape(flags, shape), 4u8) == has_flag(flags, 4u8),
{
    let code = shape_code(shape);
    assert(code <= 2);
    assert(((((flags & !24u8) | (code << 3u8)) & 24u8) >> 3u8) == code) by (bit_vector)
        requires
            code <= 2,
    ;
    assert((((flags & !24u8) | (code << 3u8)) & 1u8 != 0) == (flags & 1u8 != 0)) by (bit_vector)
        requires
            code <= 2,
    ;
    assert((((flags & !24u8) | (code << 3u8)) & 2u8 != 0) == (flags & 2u8 != 0)) by (bit_vector)
        requires
            code <= 2,
    ;
    assert((((flags & !24u8) | (code << 3u8)) & 4u8 != 0) == (flags & 4u8 != 0)) by (bit_vector)
        requires
            code <= 2,
    ;
}

impl PackedCell {
    /// The shape of [`Self::payload`].
    pub open spec fn shape(&self) -> PayloadShape {
        shape_of_flags(self.flags)
    }

    /// The shape of [`Self::payload`].
    pub fn payload_shape(&self) -> (shape: PayloadShape)
        ensures
            shape == self.shape(),
    {
        let code = (self.flags & CellFlags::PAYLOAD_MASK) >> CellFlags::PAYLOAD_SHIFT;
        if code == 1 {
            PayloadShape::ValueText
        } else if code == 2 {
            PayloadShape::InlineString
        } else {
            PayloadShape::Absent
        }
    }

    /// Records the shape of [`Self::payload`], leaving every other bit of the flags alone.
    pub fn set_payload_shape(&mut self, shape: PayloadShape)
        ensures
            final(self).flags == flags_with_shape(old(self).flags, shape),
            final(self).shape() == shape,
            final(self).reference == old(self).reference,
            final(self).extent == old(self).extent,
            final(self).payload == old(self).payload,
            final(self).style == old(self).style,
            final(self).extra == old(self).extra,
            final(self).kind == old(self).kind,
    {
        let code: u8 = match shape {
            PayloadShape::Absent => 0,
            PayloadShape::ValueText => 1,
            PayloadShape::InlineString => 2,
        };
        proof {
            lemma_shape_bits(self.flags, shape);
        }
        self.flags = (self.flags & !CellFlags::PAYLOAD_MASK) | (code << CellFlags::PAYLOAD_SHIFT);
    }

    /// Whether `flag` is set.
    pub fn has(&self, flag: u8) -> (set: bool)
        ensures
            set == has_flag(self.flags, flag),
    {
        self.flags & flag != 0
    }

    /// `c@t`, or `None` when the attribute was absent (meaning [`CellType::Number`]).
    pub fn written_cell_type(&self) -> (cell_type: Option<CellType>)
        ensures
            cell_type == type_of_code(self.kind),
    {
        CellTypeCode::cell_type(self.kind)
    }
}

/// A cell's rare data — allocated only for a cell that has some, so the common cell pays nothing but
/// the four bytes of [`PackedCell::extra`].
///
/// Every field is a byte range: a `<f>` formula, an `extLst` nobody models, foreign markup between
/// two cells, and the whitespace a pretty-printer put there. **This is the unknown bucket for a
/// packed store.**
#[derive(Debug, Clone, Copy)]
pub struct CellExtras {
    /// The start tag's attribute run, kept only when regenerating it from `r`, `s` and `t` would
    /// **not** reproduce it byte for byte.
    pub attributes: TextSpan,
    /// Bytes between the previous sibling's end and this cell's `<`, when there are any.
    pub leading: TextSpan,
    /// The cell's `<f …>…</f>`, when it has one — a view into [`Self::before_payload`].
    pub formula: TextSpan,
    /// The cell's children **before** its value element.
    pub before_payload: TextSpan,
    /// The cell's children **after** its value element.
    pub after_payload: TextSpan,
}

impl Default for CellExtras {
    fn default() -> (extras: Self)
        ensures
            extras.is_blank(),
    {
        CellExtras {
            attributes: TextSpan::none(),
            leading: TextSpan::none(),
            formula: TextSpan::none(),
            before_payload: TextSpan::none(),
            after_payload: TextSpan::none(),
        }
    }
}

impl CellExtras {
    /// Whether every field is absent.
    pub open spec fn is_blank(&self) -> bool {
        &&& self.attributes.absent()
        &&& self.leading.absent()
        &&& self.formula.absent()
        &&& self.before_payload.absent()
        &&& self.after_payload.absent()
    }

    /// Whether this record carries nothing, in which case the cell need not point at one.
    pub fn is_empty(&self) -> (empty: bool)
        ensures
            empty == self.is_blank(),
    {
        self.attributes.is_none() && self.leading.is_none() && self.formula.is_none()
            && self.before_payload.is_none() && self.after_payload.is_none()
    }
}

/// One row, packed: 48 bytes.
#[derive(Debug, Clone, Copy)]
pub struct PackedRow {
    /// `row@r` exactly as written. Zero when the attribute is absent — see
    /// [`RowFlags::HAS_NUMBER`], because `r="0"` is a thing a file can say.
    pub number: u32,
    /// The first of this row's cells in the sheet's flat cell arena.
    pub first_cell: u32,
    /// How many cells this row has.
    pub cell_count: u32,
    /// Bytes between the previous row's end and this row's `<`.
    pub leading: TextSpan,
    /// The whole `<row …>…</row>` in the part's bytes, or [`TextSpan::none`] once the row or any
    /// cell in it is edited. **The row's copy-on-write state.**
    pub extent: TextSpan,
    /// The start tag's attribute run — everything between `<row` and the `>` that closes it.
    pub attributes: TextSpan,
    /// Bytes after the last cell and before the end tag.
    pub trailing: TextSpan,
    /// [`RowFlags`].
    pub flags: u8,
}

/// The bit flags [`PackedRow::flags`] carries.
pub struct RowFlags;

impl RowFlags {
    /// `row@r` was written.
    pub const HAS_NUMBER: u8 = 1u8;
    /// The row was written `<row …/>` rather than `<row …></row>`.
    pub const SELF_CLOSING: u8 = 2u8;
    /// This row's cells are in strictly ascending column order, so a column can be found by binary
    /// search.
    pub const CELLS_ASCENDING: u8 = 4u8;
}

impl PackedRow {
    /// Whether `flag` is set.
    pub fn has(&self, flag: u8) -> (set: bool)
        ensures
            set == has_flag(self.flags, flag),
    {
        self.flags & flag != 0
    }

    /// The range of the cell arena this row owns.
    pub fn cell_range(&self) -> (range: core::ops::Range<usize>)
        requires
            self.first_cell + self.cell_count <= usize::MAX,
        ensures
            range.start == self.first_cell,
            range.end == self.first_cell + self.cell_count,
    {
        let first = self.first_cell as usize;
        first..first + self.cell_count as usize
    }
}

} // verus!
