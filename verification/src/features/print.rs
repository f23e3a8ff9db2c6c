//! The header and footer vocabulary of a worksheet's page setup: the three areas a header or
//! footer is divided into, and the six slots `CT_HeaderFooter` holds.

use vstd::prelude::*;
use vstd::string::StringSliceAdditionalSpecFns;

verus! {

/// Which of a header or footer's three areas a run of text belongs to.
///
/// Each header and footer is divided into a left section, a center section and a right section,
/// each introduced by `&` and a one-letter code. The spelling is the specification's — `&C` is a
/// *center* section — because the variant names a wire code rather than a piece of prose.
#[derive(Debug, Clone, Copy, PartialEq, Eq, Structural, Hash)]
pub enum HeaderFooterSection {
    /// `&L` — the left section.
    Left,
    /// `&C` — the center section.
    Center,
    /// `&R` — the right section.
    Right,
}

impl HeaderFooterSection {
    /// The letter that follows `&` in a section's specifier.
    pub open spec fn spec_code(self) -> char {
        match self {
            HeaderFooterSection::Left => 'L',
            HeaderFooterSection::Center => 'C',
            HeaderFooterSection::Right => 'R',
        }
    }

    /// The single character that follows `&` in this section's specifier.
    pub fn code(self) -> (code: char)
        ensures
            code == self.spec_code(),
    {
        match self {
            HeaderFooterSection::Left => 'L',
            HeaderFooterSection::Center => 'C',
            HeaderFooterSection::Right => 'R',
        }
    }
}

/// Which of `CT_HeaderFooter`'s six string slots one value fills — `x:oddHeader`,
/// `x:oddFooter`, `x:evenHeader`, `x:evenFooter`, `x:firstHeader` or `x:firstFooter`.
///
/// All six are the same complex type, and only the element name distinguishes them.
#[derive(Debug, Clone, Copy, PartialEq, Eq, Structural, Hash)]
pub enum HeaderFooterSlot {
    /// `x:oddHeader`.
    OddHeader,
    /// `x:oddFooter`.
    OddFooter,
    /// `x:evenHeader`.
    EvenHeader,
    /// `x:evenFooter`.
    EvenFooter,
    /// `x:firstHeader`.
    FirstHeader,
    /// `x:firstFooter`.
    FirstFooter,
}

/// The local name of the element a slot names, as bytes.
pub open spec fn slot_local(slot: HeaderFooterSlot) -> Seq<u8> {
    match slot {
        HeaderFooterSlot::OddHeader => seq![111u8, 100u8, 100u8, 72u8, 101u8, 97u8, 100u8, 101u8, 114u8],
        HeaderFooterSlot::OddFooter => seq![111u8, 100u8, 100u8, 70u8, 111u8, 111u8, 116u8, 101u8, 114u8],
        HeaderFooterSlot::EvenHeader => seq![
            101u8, 118u8, 101u8, 110u8, 72u8, 101u8, 97u8, 100u8, 101u8, 114u8,
        ],
        HeaderFooterSlot::EvenFooter => seq![
            101u8, 118u8, 101u8, 110u8, 70u8, 111u8, 111u8, 116u8, 101u8, 114u8,
        ],
        HeaderFooterSlot::FirstHeader => seq![
            102u8, 105u8, 114u8, 115u8, 116u8, 72u8, 101u8, 97u8, 100u8, 101u8, 114u8,
        ],
        HeaderFooterSlot::FirstFooter => seq![
            102u8, 105u8, 114u8, 115u8, 116u8, 70u8, 111u8, 111u8, 116u8, 101u8, 114u8,
        ],
    }
}

impl HeaderFooterSlot {
    /// The wire local name of the element this slot names.
    pub fn wire_local(self) -> (local: &'static str)
        ensures
            local.spec_bytes() == slot_local(self),
    {
        proof {
            reveal_strlit("oddHeader");
            reveal_strlit("oddFooter");
            reveal_strlit("evenHeader");
            reveal_strlit("evenFooter");
            reveal_strlit("firstHeader");
            reveal_strlit("firstFooter");
            vstd::string::is_ascii_spec_bytes("oddHeader");
            vstd::string::is_ascii_spec_bytes("oddFooter");
            vstd::string::is_ascii_spec_bytes("evenHeader");
            vstd::string::is_ascii_spec_bytes("evenFooter");
            vstd::string::is_ascii_spec_bytes("firstHeader");
            vstd::string::is_ascii_spec_bytes("firstFooter");
            assert("oddHeader".spec_bytes() =~= slot_local(HeaderFooterSlot::OddHeader));
            assert("oddFooter".spec_bytes() =~= slot_local(HeaderFooterSlot::OddFooter));
            assert("evenHeader".spec_bytes() =~= slot_local(HeaderFooterSlot::EvenHeader));
            assert("evenFooter".spec_bytes() =~= slot_local(HeaderFooterSlot::EvenFooter));
            assert("firstHeader".spec_bytes() =~= slot_local(HeaderFooterSlot::FirstHeader));
            assert("firstFooter".spec_bytes() =~= slot_local(HeaderFooterSlot::FirstFooter));
        }
        match self {
            HeaderFooterSlot::OddHeader => "oddHeader",
            HeaderFooterSlot::OddFooter => "oddFooter",
            HeaderFooterSlot::EvenHeader => "evenHeader",
            HeaderFooterSlot::EvenFooter => "evenFooter",
            HeaderFooterSlot::FirstHeader => "firstHeader",
            HeaderFooterSlot::FirstFooter => "firstFooter",
        }
    }
}

} // verus!
