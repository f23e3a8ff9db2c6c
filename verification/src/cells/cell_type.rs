//! `ST_CellType` — the six values a cell's `t` attribute may take, and their wire spelling.

use vstd::prelude::*;

use crate::arena::attributes::bytes_equal;

verus! {

/// `ST_CellType`: what a cell's `<v>` holds, as its `t` attribute says.
#[derive(Debug, Clone, Copy, PartialEq, Eq, Structural)]
pub enum CellType {
    /// `b` — a boolean, `0` or `1`.
    Boolean,
    /// `n` — a number. The schema default when `t` is absent.
    Number,
    /// `e` — an error code such as `#DIV/0!`.
    Error,
    /// `s` — an index into the shared-string table.
    SharedString,
    /// `str` — the string result of a formula.
    FormulaString,
    /// `inlineStr` — a string stored in the cell itself.
    InlineString,
}

/// The wire spelling of a cell type: `b`, `n`, `e`, `s`, `str` or `inlineStr`.
pub open spec fn wire_spec(cell_type: CellType) -> Seq<u8> {
    match cell_type {
        CellType::Boolean => seq![98u8],
        CellType::Number => seq![110u8],
        CellType::Error => seq![101u8],
        CellType::SharedString => seq![115u8],
        CellType::FormulaString => seq![115u8, 116u8, 114u8],
        CellType::InlineString => seq![105u8, 110u8, 108u8, 105u8, 110u8, 101u8, 83u8, 116u8, 114u8],
    }
}

/// The cell type whose wire spelling is `text`, if any.
pub open spec fn from_wire_spec(text: Seq<u8>) -> Option<CellType> {
    if text == wire_spec(CellType::Boolean) {
        Some(CellType::Boolean)
    } else if text == wire_spec(CellType::Number) {
        Some(CellType::Number)
    } else if text == wire_spec(CellType::Error) {
        Some(CellType::Error)
    } else if text == wire_spec(CellType::SharedString) {
        Some(CellType::SharedString)
    } else if text == wire_spec(CellType::FormulaString) {
        Some(CellType::FormulaString)
    } else if text == wire_spec(CellType::InlineString) {
        Some(CellType::InlineString)
    } else {
        None
    }
}

/// Reading a written cell type gives it back.
pub proof fn lemma_wire_round_trip(cell_type: CellType)
    ensures
        from_wire_spec(wire_spec(cell_type)) == Some(cell_type),
{
    let b = wire_spec(CellType::Boolean);
    let n = wire_spec(CellType::Number);
    let e = wire_spec(CellType::Error);
    let s = wire_spec(CellType::SharedString);
    let f = wire_spec(CellType::FormulaString);
    let w = wire_spec(cell_type);
    assert(b[0] != n[0] && b[0] != e[0] && b[0] != s[0] && n[0] != e[0] && n[0] != s[0] && e[0]
        != s[0]);
    assert(f.len() != b.len() && f.len() != n.len() && f.len() != e.len() && f.len() != s.len());
    assert(wire_spec(CellType::InlineString).len() != f.len());
    assert(wire_spec(CellType::InlineString).len() != b.len());
    if w == b {
        assert(w[0] == b[0]);
    }
    if w == n {
        assert(w[0] == n[0]);
    }
    if w == e {
        assert(w[0] == e[0]);
    }
    if w == s {
        assert(w[0] == s[0]);
    }
}

impl CellType {
    /// Appends the wire spelling of this type.
    pub fn write_wire(&self, out: &mut Vec<u8>)
        ensures
            final(out)@ == old(out)@ + wire_spec(*self),
    {
        match self {
            CellType::Boolean => out.push(98u8),
            CellType::Number => out.push(110u8),
            CellType::Error => out.push(101u8),
            CellType::SharedString => out.push(115u8),
            CellType::FormulaString => {
                out.push(115u8);
                out.push(116u8);
                out.push(114u8);
            },
            CellType::InlineString => {
                out.push(105u8);
                out.push(110u8);
                out.push(108u8);
                out.push(105u8);
                out.push(110u8);
                out.push(101u8);
                out.push(83u8);
                out.push(116u8);
                out.push(114u8);
            },
        }
        proof {
            assert(out@ =~= old(out)@ + wire_spec(*self));
        }
    }

    /// The wire spelling of this type: `b`, `n`, `e`, `s`, `str` or `inlineStr`.
    pub fn to_wire(&self) -> (wire: Vec<u8>)
        ensures
            wire@ == wire_spec(*self),
    {
        let mut out = Vec::new();
        self.write_wire(&mut out);
        proof {
            assert(out@ =~= wire_spec(*self));
        }
        out
    }

    /// The type whose wire spelling is `text`, or `None` for anything else.
    pub fn from_wire(text: &[u8]) -> (cell_type: Option<CellType>)
        ensures
            cell_type == from_wire_spec(text@),
    {
        let b = CellType::Boolean.to_wire();
        if bytes_equal(text, b.as_slice()) {
            return Some(CellType::Boolean);
        }
        let n = CellType::Number.to_wire();
        if bytes_equal(text, n.as_slice()) {
            return Some(CellType::Number);
        }
        let e = CellType::Error.to_wire();
        if bytes_equal(text, e.as_slice()) {
            return Some(CellType::Error);
        }
        let s = CellType::SharedString.to_wire();
        if bytes_equal(text, s.as_slice()) {
            return Some(CellType::SharedString);
        }
        let f = CellType::FormulaString.to_wire();
        if bytes_equal(text, f.as_slice()) {
            return Some(CellType::FormulaString);
        }
        let w = CellType::InlineString.to_wire();
        if bytes_equal(text, w.as_slice()) {
            return Some(CellType::InlineString);
        }
        None
    }
}

} // verus!
