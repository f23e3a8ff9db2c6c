//! Cell addressing: cell references in A1 notation.
//!
//! A reference is a *value*, not a string: a zero-based column (`A` is 0, `XFD` is 16,383), a
//! zero-based row (row `1` is 0, row `1048576` is 1,048,575), and whether each of the two is
//! anchored with a `$`. Its text is `$`-optional column letters followed by a `$`-optional row
//! number — `B7`, `$B$7` — and [`CellReference::parse`] accepts exactly the texts
//! [`CellReference::text`] writes.

use vstd::prelude::*;
use vstd::string::StringSliceAdditionalSpecFns;

use crate::decimal::{
    all_digits, decimal, digits_value, is_digit, lemma_decimal_reads_back, parse_decimal,
    parse_decimal_spec, push_decimal,
};

verus! {

/// The highest zero-based column index, `XFD`.
pub const MAX_COLUMN: u16 = 16383u16;

/// The highest zero-based row index, row 1,048,576.
pub const MAX_ROW: u32 = 1048575u32;

/// A cell reference, range, `sqref` or `spans` value that did not parse.
#[derive(Debug, Clone, Copy, PartialEq, Eq, Structural)]
pub enum AddressError {
    /// A column beyond `XFD`.
    ColumnOutOfGrid,
    /// A row beyond 1,048,576.
    RowOutOfGrid,
    /// Text that is not the spelling of a reference.
    Malformed,
}

/// Whether one coordinate of a reference is written with a `$`.
#[derive(Debug, Clone, Copy, PartialEq, Eq, Structural)]
pub enum Anchoring {
    /// `B7` — the coordinate moves when a formula is copied.
    Relative,
    /// `$B$7` — the coordinate stays put.
    Absolute,
}

/// One cell's address: a column, a row, and the anchoring of each.
///
/// Anchoring is not part of *which* cell is meant — `$B$7` and `B7` name the same cell — but it is
/// part of the text, so it is kept.
#[derive(Debug, Clone, Copy, PartialEq, Eq, Structural)]
pub struct CellReference {
    row: u32,
    column: u16,
    column_anchoring: Anchoring,
    row_anchoring: Anchoring,
}

/// The column letters of zero-based column `column`: `A`–`Z`, then `AA`, `AB`, …
pub open spec fn column_letters(column: nat) -> Seq<u8>
    decreases column,
{
    if column < 26 {
        seq![(65 + column) as u8]
    } else {
        column_letters((column / 26 - 1) as nat).push((65 + column % 26) as u8)
    }
}

/// `$` for an anchored coordinate, nothing for a relative one.
pub open spec fn anchor_text(anchoring: Anchoring) -> Seq<u8> {
    match anchoring {
        Anchoring::Absolute => seq![36u8],
        Anchoring::Relative => Seq::empty(),
    }
}

/// The A1 text of a reference.
pub open spec fn reference_text(
    column: nat,
    row: nat,
    column_anchoring: Anchoring,
    row_anchoring: Anchoring,
) -> Seq<u8> {
    anchor_text(column_anchoring) + column_letters(column) + anchor_text(row_anchoring) + decimal(
        row + 1,
    )
}

/// Whether `byte` is an ASCII capital letter.
pub open spec fn is_capital(byte: u8) -> bool {
    65u8 <= byte <= 90u8
}

/// The first position at or after `at` that does not hold a capital letter.
pub open spec fn capitals_stop(text: Seq<u8>, at: int) -> int
    decreases text.len() - at,
{
    if 0 <= at < text.len() && is_capital(text[at]) {
        capitals_stop(text, at + 1)
    } else {
        at
    }
}

/// The bijective base-26 value of capital letters: `A` is 1, `Z` 26, `AA` 27.
pub open spec fn letters_value(letters: Seq<u8>) -> nat
    decreases letters.len(),
{
    if letters.len() == 0 {
        0
    } else {
        (letters_value(letters.drop_last()) * 26 + (letters.last() - 64u8)) as nat
    }
}

/// The parts of a reference's text: column, row, and the anchoring of each — or `None` when
/// `text` is not `$`? capitals `$`? digits, with a first digit that is not zero and both
/// coordinates inside the grid.
pub open spec fn parse_reference_spec(text: Seq<u8>) -> Option<(nat, nat, Anchoring, Anchoring)> {
    let column_anchored = text.len() > 0 && text[0] == 36u8;
    let letters_start: int = if column_anchored {
        1
    } else {
        0
    };
    let letters_end = capitals_stop(text, letters_start);
    let row_anchored = letters_end < text.len() && text[letters_end] == 36u8;
    let digits_start = if row_anchored {
        letters_end + 1
    } else {
        letters_end
    };
    let letters = text.subrange(letters_start, letters_end);
    let digits = text.subrange(digits_start, text.len() as int);
    if letters.len() == 0 || letters_value(letters) > MAX_COLUMN + 1 {
        None
    } else if digits.len() == 0 || !all_digits(digits) || digits[0] == 48u8 || digits_value(digits)
        > MAX_ROW + 1 {
        None
    } else {
        Some(
            (
                (letters_value(letters) - 1) as nat,
                (digits_value(digits) - 1) as nat,
                if column_anchored {
                    Anchoring::Absolute
                } else {
                    Anchoring::Relative
                },
                if row_anchored {
                    Anchoring::Absolute
                } else {
                    Anchoring::Relative
                },
            ),
        )
    }
}

impl CellReference {
    /// The zero-based column.
    pub closed spec fn column_index(self) -> nat {
        self.column as nat
    }

    /// The zero-based row.
    pub closed spec fn row_index(self) -> nat {
        self.row as nat
    }

    /// How the column is anchored.
    pub closed spec fn column_anchor(self) -> Anchoring {
        self.column_anchoring
    }

    /// How the row is anchored.
    pub closed spec fn row_anchor(self) -> Anchoring {
        self.row_anchoring
    }

    /// A column index fits the `u16` it is held in.
    pub proof fn lemma_column_bounded(self)
        ensures
            self.column_index() <= u16::MAX,
    {
    }

    /// Whether this reference is the one with these parts.
    pub open spec fn has_parts(
        self,
        column: nat,
        row: nat,
        column_anchoring: Anchoring,
        row_anchoring: Anchoring,
    ) -> bool {
        &&& self.column_index() == column
        &&& self.row_index() == row
        &&& self.column_anchor() == column_anchoring
        &&& self.row_anchor() == row_anchoring
    }

    /// The A1 text of this reference.
    pub open spec fn spec_text(self) -> Seq<u8> {
        reference_text(self.column_index(), self.row_index(), self.column_anchor(), self.row_anchor())
    }

    /// A reference to `column`, `row` with the given anchoring.
    ///
    /// # Errors
    ///
    /// [`AddressError::ColumnOutOfGrid`] for a column beyond `XFD`, then
    /// [`AddressError::RowOutOfGrid`] for a row beyond 1,048,576.
    pub fn new(column: u16, row: u32, column_anchoring: Anchoring, row_anchoring: Anchoring) -> (made:
        Result<Self, AddressError>)
        ensures
            match made {
                Ok(reference) => {
                    &&& column <= MAX_COLUMN && row <= MAX_ROW
                    &&& reference.has_parts(column as nat, row as nat, column_anchoring, row_anchoring)
                },
                Err(error) => if column > MAX_COLUMN {
                    error == AddressError::ColumnOutOfGrid
                } else {
                    row > MAX_ROW && error == AddressError::RowOutOfGrid
                },
            },
    {
        if column > MAX_COLUMN {
            return Err(AddressError::ColumnOutOfGrid);
        }
        if row > MAX_ROW {
            return Err(AddressError::RowOutOfGrid);
        }
        Ok(CellReference { row, column, column_anchoring, row_anchoring })
    }

    /// A relative reference to `column`, `row`, or `None` outside the grid.
    pub fn relative(column: u16, row: u32) -> (made: Option<Self>)
        ensures
            match made {
                Some(reference) => {
                    &&& column <= MAX_COLUMN && row <= MAX_ROW
                    &&& reference.has_parts(
                        column as nat,
                        row as nat,
                        Anchoring::Relative,
                        Anchoring::Relative,
                    )
                },
                None => column > MAX_COLUMN || row > MAX_ROW,
            },
    {
        match Self::new(column, row, Anchoring::Relative, Anchoring::Relative) {
            Ok(reference) => Some(reference),
            Err(_) => None,
        }
    }

    /// The zero-based column.
    pub fn column(&self) -> (column: u16)
        ensures
            column == self.column_index(),
    {
        self.column
    }

    /// The zero-based row.
    pub fn row(&self) -> (row: u32)
        ensures
            row == self.row_index(),
    {
        self.row
    }

    /// How the column is anchored.
    pub fn column_anchoring(&self) -> (anchoring: Anchoring)
        ensures
            anchoring == self.column_anchor(),
    {
        self.column_anchoring
    }

    /// How the row is anchored.
    pub fn row_anchoring(&self) -> (anchoring: Anchoring)
        ensures
            anchoring == self.row_anchor(),
    {
        self.row_anchoring
    }

    /// Appends this reference's A1 text to `out`.
    pub fn write_text(&self, out: &mut Vec<u8>)
        ensures
            final(out)@ == old(out)@ + self.spec_text(),
    {
        if matches!(self.column_anchoring, Anchoring::Absolute) {
            out.push(36u8);
        }
        let ghost after_anchor = out@;
        push_column_letters(out, self.column as u32);
        let ghost after_letters = out@;
        if matches!(self.row_anchoring, Anchoring::Absolute) {
            out.push(36u8);
        }
        let ghost after_row_anchor = out@;
        push_decimal(out, self.row as u64 + 1);
        proof {
            assert(out@ =~= old(out)@ + anchor_text(self.column_anchor()) + column_letters(
                self.column_index(),
            ) + anchor_text(self.row_anchor()) + decimal(self.row_index() + 1));
        }
    }

    /// This reference's A1 text — `B7`, `$B$7`.
    pub fn text(&self) -> (text: Vec<u8>)
        ensures
            text@ == self.spec_text(),
    {
        let mut out = Vec::new();
        self.write_text(&mut out);
        out
    }

    /// Reads an A1 reference: an optional `$`, one or more capital letters naming a column no
    /// further than `XFD`, an optional `$`, and a row number from 1 to 1,048,576 written without a
    /// leading zero.
    ///
    /// # Errors
    ///
    /// [`AddressError::Malformed`] for any other text.
    pub fn parse(text: &str) -> (parsed: Result<Self, AddressError>)
        ensures
            match parse_reference_spec(text.spec_bytes()) {
                Some((column, row, column_anchoring, row_anchoring)) => parsed matches Ok(reference)
                    && reference.has_parts(column, row, column_anchoring, row_anchoring),
                None => parsed == Err::<Self, AddressError>(AddressError::Malformed),
            },
    {
        let bytes = text.as_bytes();
        Self::parse_bytes(bytes)
    }

    /// [`parse`](Self::parse), over bytes.
    pub fn parse_bytes(bytes: &[u8]) -> (parsed: Result<Self, AddressError>)
        ensures
            match parse_reference_spec(bytes@) {
                Some((column, row, column_anchoring, row_anchoring)) => parsed matches Ok(reference)
                    && reference.has_parts(column, row, column_anchoring, row_anchoring),
                None => parsed == Err::<Self, AddressError>(AddressError::Malformed),
            },
    {
        let length = bytes.len();
        let column_anchored = length > 0 && bytes[0] == 36u8;
        let letters_start: usize = if column_anchored {
            1
        } else {
            0
        };
        let mut at = letters_start;
        let mut value: u32 = 0;
        let mut overflowed = false;
        while at < length && 65u8 <= bytes[at] && bytes[at] <= 90u8
            invariant
                length == bytes@.len(),
                letters_start <= at <= length,
                letters_start == (if column_anchored {
                    1int
                } else {
                    0int
                }),
                capitals_stop(bytes@, letters_start as int) == capitals_stop(bytes@, at as int),
                forall|k: int| letters_start <= k < at ==> is_capital(#[trigger] bytes@[k]),
                !overflowed ==> value == letters_value(bytes@.subrange(letters_start as int, at as int)),
                !overflowed ==> value <= MAX_COLUMN + 1,
                overflowed ==> letters_value(bytes@.subrange(letters_start as int, at as int))
                    > MAX_COLUMN + 1,
            decreases length - at,
        {
            let letter = bytes[at];
            let ghost before = bytes@.subrange(letters_start as int, at as int);
            proof {
                assert(bytes@.subrange(letters_start as int, at + 1).drop_last() =~= before);
                lemma_letters_value_grows(bytes@.subrange(letters_start as int, at + 1));
            }
            if !overflowed {
                let next = value * 26 + (letter - 64u8) as u32;
                if next > MAX_COLUMN as u32 + 1 {
                    overflowed = true;
                } else {
                    value = next;
                }
            }
            at = at + 1;
        }
        let letters_end = at;
        if letters_end == letters_start || overflowed {
            return Err(AddressError::Malformed);
        }
        let row_anchored = letters_end < length && bytes[letters_end] == 36u8;
        let digits_start = if row_anchored {
            letters_end + 1
        } else {
            letters_end
        };
        if digits_start >= length || bytes[digits_start] == 48u8 {
            return Err(AddressError::Malformed);
        }
        let ghost digits = bytes@.subrange(digits_start as int, length as int);
        let ghost column_anchor = if column_anchored {
            Anchoring::Absolute
        } else {
            Anchoring::Relative
        };
        let ghost row_anchor = if row_anchored {
            Anchoring::Absolute
        } else {
            Anchoring::Relative
        };
        proof {
            assert(bytes@.subrange(letters_start as int, letters_end as int).len() > 0);
            assert(digits.len() > 0);
            assert(digits[0] != 48u8);
            assert(parse_reference_spec(bytes@) == if !all_digits(digits) || digits_value(digits)
                > MAX_ROW + 1 {
                None
            } else {
                Some(
                    (
                        (value - 1) as nat,
                        (digits_value(digits) - 1) as nat,
                        column_anchor,
                        row_anchor,
                    ),
                )
            });
        }
        let mut row_value: u32 = 0;
        let mut i = digits_start;
        while i < length
            invariant
                length == bytes@.len(),
                digits_start < length,
                digits_start <= i <= length,
                digits == bytes@.subrange(digits_start as int, length as int),
                digits[0] != 48u8,
                all_digits(bytes@.subrange(digits_start as int, i as int)),
                row_value == digits_value(bytes@.subrange(digits_start as int, i as int)),
                row_value <= MAX_ROW + 1,
                parse_reference_spec(bytes@) == if !all_digits(digits) || digits_value(digits)
                    > MAX_ROW + 1 {
                    None
                } else {
                    Some(
                        (
                            (value - 1) as nat,
                            (digits_value(digits) - 1) as nat,
                            column_anchor,
                            row_anchor,
                        ),
                    )
                },
            decreases length - i,
        {
            let digit = bytes[i];
            let ghost before = bytes@.subrange(digits_start as int, i as int);
            proof {
                assert(bytes@.subrange(digits_start as int, i + 1).drop_last() =~= before);
            }
            if digit < 48u8 || digit > 57u8 {
                proof {
                    assert(digits[i - digits_start] == digit);
                    assert(!all_digits(digits));
                }
                return Err(AddressError::Malformed);
            }
            let next = row_value * 10 + (digit - 48u8) as u32;
            if next > MAX_ROW + 1 {
                proof {
                    assert(digits.subrange(0, i + 1 - digits_start) =~= bytes@.subrange(
                        digits_start as int,
                        i + 1,
                    ));
                    if all_digits(digits) {
                        crate::decimal::lemma_digits_value_prefix(digits, i + 1 - digits_start);
                    }
                }
                return Err(AddressError::Malformed);
            }
            row_value = next;
            i = i + 1;
        }
        proof {
            assert(bytes@.subrange(digits_start as int, i as int) =~= digits);
            crate::decimal::lemma_digits_value_prefix(digits, 1);
            assert(digits.subrange(0, 1).drop_last() =~= Seq::<u8>::empty());
            assert(digits.subrange(0, 1).last() == digits[0]);
            assert(digits_value(Seq::<u8>::empty()) == 0);
            assert(digits_value(digits.subrange(0, 1)) == digits[0] - 48u8);
        }
        let column_anchoring = if column_anchored {
            Anchoring::Absolute
        } else {
            Anchoring::Relative
        };
        let row_anchoring = if row_anchored {
            Anchoring::Absolute
        } else {
            Anchoring::Relative
        };
        Ok(
            CellReference {
                row: row_value - 1,
                column: (value - 1) as u16,
                column_anchoring,
                row_anchoring,
            },
        )
    }
}

/// A letter adds at least one to the value of the letters before it.
proof fn lemma_letters_value_grows(letters: Seq<u8>)
    requires
        letters.len() > 0,
        is_capital(letters.last()),
    ensures
        letters_value(letters) >= letters_value(letters.drop_last()) * 26 + 1,
{
}

/// Appends the column letters of zero-based `column`.
fn push_column_letters(out: &mut Vec<u8>, column: u32)
    ensures
        final(out)@ == old(out)@ + column_letters(column as nat),
    decreases column,
{
    if column >= 26 {
        push_column_letters(out, column / 26 - 1);
    }
    out.push(65u8 + (column % 26) as u8);
    proof {
        if column >= 26 {
            assert(column_letters(column as nat) == column_letters((column / 26 - 1) as nat).push(
                (65 + column % 26) as u8,
            ));
        }
    }
}

/// The highest one-based column number a span may name: `XFD`'s.
pub const MAX_SPAN_COLUMN: u16 = 16384u16;

/// The first position from `at` on holding `byte`, or the length of `text`.
pub open spec fn byte_stop(text: Seq<u8>, at: int, byte: u8) -> int
    decreases text.len() - at,
{
    if at < 0 || at >= text.len() {
        text.len() as int
    } else if text[at] == byte {
        at
    } else {
        byte_stop(text, at + 1, byte)
    }
}

/// `byte_stop` lies between `at` and the end of `text`, and only other bytes come before it.
pub proof fn lemma_byte_stop(text: Seq<u8>, at: int, byte: u8)
    requires
        0 <= at <= text.len(),
    ensures
        at <= byte_stop(text, at, byte) <= text.len(),
        forall|k: int| at <= k < byte_stop(text, at, byte) ==> #[trigger] text[k] != byte,
        byte_stop(text, at, byte) < text.len() ==> text[byte_stop(text, at, byte)] == byte,
    decreases text.len() - at,
{
    if at < text.len() && text[at] != byte {
        lemma_byte_stop(text, at + 1, byte);
    }
}

/// Whether `first:last` is a span of one-based columns inside the grid, in order.
pub open spec fn span_in_grid(first: u16, last: u16) -> bool {
    1 <= first <= last <= MAX_SPAN_COLUMN
}

/// One `first:last` token read: both numbers, within the grid, in order.
pub open spec fn parse_span_spec(token: Seq<u8>) -> Result<(u16, u16), AddressError> {
    let colon = byte_stop(token, 0, 58u8);
    if colon >= token.len() {
        Err(AddressError::Malformed)
    } else {
        match (
            parse_decimal_spec(token.subrange(0, colon), u32::MAX),
            parse_decimal_spec(token.subrange(colon + 1, token.len() as int), u32::MAX),
        ) {
            (Some(first), Some(last)) => if first < 1 || last < 1 || first > MAX_SPAN_COLUMN
                || last > MAX_SPAN_COLUMN {
                Err(AddressError::ColumnOutOfGrid)
            } else if first > last {
                Err(AddressError::Malformed)
            } else {
                Ok((first as u16, last as u16))
            },
            _ => Err(AddressError::Malformed),
        }
    }
}

/// The spans of `text` from `at` on: tokens separated by single spaces, each read by
/// [`parse_span_spec`]; the first token that does not read is the error.
pub open spec fn parse_spans_from(text: Seq<u8>, at: int) -> Result<Seq<(u16, u16)>, AddressError>
    decreases text.len() - at,
{
    let stop = byte_stop(text, at, 32u8);
    if at < 0 || at > text.len() {
        Err(AddressError::Malformed)
    } else {
        match parse_span_spec(text.subrange(at, stop)) {
            Err(error) => Err(error),
            Ok(span) => if stop >= text.len() {
                Ok(seq![span])
            } else {
                proof {
                    lemma_byte_stop(text, at, 32u8);
                }
                match parse_spans_from(text, stop + 1) {
                    Ok(rest) => Ok(seq![span] + rest),
                    Err(error) => Err(error),
                }
            },
        }
    }
}

/// The text of one span: `first:last`.
pub open spec fn span_text(span: (u16, u16)) -> Seq<u8> {
    decimal(span.0 as nat) + seq![58u8] + decimal(span.1 as nat)
}

/// The text of a spans list: each span's text, separated by single spaces.
pub open spec fn spans_text(spans: Seq<(u16, u16)>) -> Seq<u8>
    decreases spans.len(),
{
    if spans.len() == 0 {
        Seq::empty()
    } else if spans.len() == 1 {
        span_text(spans[0])
    } else {
        spans_text(spans.drop_last()) + seq![32u8] + span_text(spans.last())
    }
}

/// `byte_stop` finds the first `byte` at or after `at`: at `end` when nothing before it holds
/// `byte` and `end` either holds it or ends the text.
proof fn lemma_byte_stop_at(text: Seq<u8>, at: int, end: int, byte: u8)
    requires
        0 <= at <= end <= text.len(),
        forall|k: int| at <= k < end ==> #[trigger] text[k] != byte,
        end == text.len() || text[end] == byte,
    ensures
        byte_stop(text, at, byte) == end,
    decreases end - at,
{
    if at < end {
        lemma_byte_stop_at(text, at + 1, end, byte);
    }
}

/// A span's text holds neither a space nor anything but digits around its one colon, and reads
/// back as the span.
proof fn lemma_span_text_reads_back(span: (u16, u16))
    requires
        span_in_grid(span.0, span.1),
    ensures
        parse_span_spec(span_text(span)) == Ok::<(u16, u16), AddressError>(span),
        span_text(span).len() > 0,
        forall|k: int| 0 <= k < span_text(span).len() ==> #[trigger] span_text(span)[k] != 32u8,
{
    let first = decimal(span.0 as nat);
    let last = decimal(span.1 as nat);
    let token = span_text(span);
    lemma_decimal_reads_back(span.0 as nat);
    lemma_decimal_reads_back(span.1 as nat);
    assert forall|k: int| 0 <= k < token.len() implies #[trigger] token[k] != 32u8 by {
        if k < first.len() {
            assert(token[k] == first[k]);
            assert(is_digit(first[k]));
        } else if k > first.len() {
            assert(token[k] == last[k - first.len() - 1]);
            assert(is_digit(last[k - first.len() - 1]));
        }
    }
    assert forall|k: int| 0 <= k < first.len() implies #[trigger] token[k] != 58u8 by {
        assert(token[k] == first[k]);
        assert(is_digit(first[k]));
    }
    lemma_byte_stop_at(token, 0, first.len() as int, 58u8);
    assert(token.subrange(0, first.len() as int) =~= first);
    assert(token.subrange(first.len() + 1int, token.len() as int) =~= last);
    assert(is_digit(first[0]));
    assert(is_digit(last[0]));
}

/// A spans text splits after its first span's text, at the space before the rest.
proof fn lemma_spans_text_front(spans: Seq<(u16, u16)>)
    requires
        spans.len() >= 2,
    ensures
        spans_text(spans) == span_text(spans[0]) + seq![32u8] + spans_text(spans.drop_first()),
    decreases spans.len(),
{
    let dl = spans.drop_last();
    let df = spans.drop_first();
    assert(spans_text(spans) == spans_text(dl) + seq![32u8] + span_text(spans.last()));
    if spans.len() > 2 {
        lemma_spans_text_front(dl);
        assert(dl.drop_first() =~= df.drop_last());
        assert(df.last() == spans.last());
        assert(dl[0] == spans[0]);
        assert(spans_text(df) == spans_text(df.drop_last()) + seq![32u8] + span_text(df.last()));
        assert(spans_text(spans) =~= span_text(spans[0]) + seq![32u8] + spans_text(df));
    } else {
        assert(dl[0] == spans[0]);
        assert(df[0] == spans.last());
        assert(spans_text(dl) == span_text(dl[0]));
        assert(spans_text(df) == span_text(df[0]));
        assert(spans_text(spans) =~= span_text(spans[0]) + seq![32u8] + spans_text(df));
    }
}

/// The text from `at` on, when it is the text of `spans`, reads back as `spans`.
proof fn lemma_spans_read_from(text: Seq<u8>, at: int, spans: Seq<(u16, u16)>)
    requires
        0 <= at <= text.len(),
        spans.len() > 0,
        forall|i: int| 0 <= i < spans.len() ==> span_in_grid(#[trigger] spans[i].0, spans[i].1),
        text.subrange(at, text.len() as int) == spans_text(spans),
    ensures
        parse_spans_from(text, at) == Ok::<Seq<(u16, u16)>, AddressError>(spans),
    decreases spans.len(),
{
    let token = span_text(spans[0]);
    lemma_span_text_reads_back(spans[0]);
    let end = at + token.len();
    if spans.len() == 1 {
        assert(end == text.len());
        assert forall|k: int| at <= k < end implies #[trigger] text[k] != 32u8 by {
            assert(text[k] == text.subrange(at, text.len() as int)[k - at]);
        }
        lemma_byte_stop_at(text, at, end, 32u8);
        assert(text.subrange(at, end) =~= token);
        assert(seq![spans[0]] =~= spans);
    } else {
        lemma_spans_text_front(spans);
        let rest = spans.drop_first();
        let tail = text.subrange(at, text.len() as int);
        assert(tail == token + seq![32u8] + spans_text(rest));
        assert forall|k: int| at <= k < end implies #[trigger] text[k] != 32u8 by {
            assert(text[k] == tail[k - at]);
            assert(tail[k - at] == token[k - at]);
        }
        assert(text[end] == tail[end - at]);
        lemma_byte_stop_at(text, at, end, 32u8);
        assert(text.subrange(at, end) =~= token);
        assert(tail.subrange(token.len() + 1int, tail.len() as int) =~= spans_text(rest));
        assert(text.subrange(end + 1, text.len() as int) =~= tail.subrange(
            token.len() + 1int,
            tail.len() as int,
        ));
        assert forall|i: int| 0 <= i < rest.len() implies span_in_grid(#[trigger] rest[i].0, rest[i].1) by {
            assert(rest[i] == spans[i + 1]);
        }
        lemma_spans_read_from(text, end + 1, rest);
        assert(seq![spans[0]] + rest =~= spans);
    }
}

/// **A spans list's text reads back as the list.** Writing a non-empty list of in-grid spans as
/// text and reading that text gives the same spans, in the same order.
pub proof fn law_spans_text_reads_back(spans: Seq<(u16, u16)>)
    requires
        spans.len() > 0,
        forall|i: int| 0 <= i < spans.len() ==> span_in_grid(#[trigger] spans[i].0, spans[i].1),
    ensures
        parse_spans_from(spans_text(spans), 0) == Ok::<Seq<(u16, u16)>, AddressError>(spans),
{
    let text = spans_text(spans);
    assert(text.subrange(0, text.len() as int) =~= text);
    lemma_spans_read_from(text, 0, spans);
}

/// `ST_CellSpans` — the advisory hint a row carries naming the columns its cells occupy: one or
/// more `first:last` ranges of one-based column numbers, separated by spaces.
#[derive(Debug, Clone, PartialEq, Eq)]
pub struct CellSpans {
    ranges: Vec<(u16, u16)>,
}

impl View for CellSpans {
    type V = Seq<(u16, u16)>;

    closed spec fn view(&self) -> Seq<(u16, u16)> {
        self.ranges@
    }
}

impl CellSpans {
    /// The spans `ranges`, each `(first, last)` in one-based columns.
    ///
    /// # Errors
    ///
    /// [`AddressError::Malformed`] for an empty list or a span whose first column lies after its
    /// last; [`AddressError::ColumnOutOfGrid`] for a column outside `1..=16384`.
    pub fn new(ranges: Vec<(u16, u16)>) -> (made: Result<Self, AddressError>)
        ensures
            match made {
                Ok(spans) => spans@ == ranges@ && ranges@.len() > 0 && forall|i: int|
                    0 <= i < ranges@.len() ==> span_in_grid(ranges@[i].0, ranges@[i].1),
                Err(_) => ranges@.len() == 0 || exists|i: int|
                    0 <= i < ranges@.len() && !span_in_grid(#[trigger] ranges@[i].0, ranges@[i].1),
            },
    {
        if ranges.len() == 0 {
            return Err(AddressError::Malformed);
        }
        let mut i: usize = 0;
        while i < ranges.len()
            invariant
                i <= ranges@.len(),
                forall|j: int| 0 <= j < i ==> span_in_grid(ranges@[j].0, ranges@[j].1),
            decreases ranges@.len() - i,
        {
            let (first, last) = ranges[i];
            if first < 1 || last < 1 || first > MAX_SPAN_COLUMN || last > MAX_SPAN_COLUMN {
                return Err(AddressError::ColumnOutOfGrid);
            }
            if first > last {
                return Err(AddressError::Malformed);
            }
            i = i + 1;
        }
        Ok(CellSpans { ranges })
    }

    /// The spans, each `(first, last)` in one-based columns.
    pub fn ranges(&self) -> (ranges: &[(u16, u16)])
        ensures
            ranges@ == self@,
    {
        self.ranges.as_slice()
    }

    /// Reads a `spans` value: `first:last` tokens, one-based, separated by single spaces.
    ///
    /// # Errors
    ///
    /// [`AddressError::ColumnOutOfGrid`] for a column number outside `1..=16384`;
    /// [`AddressError::Malformed`] for any other text that is not such a list.
    pub fn parse(text: &str) -> (parsed: Result<Self, AddressError>)
        ensures
            match parse_spans_from(text.spec_bytes(), 0) {
                Ok(spans) => parsed matches Ok(read) && read@ == spans,
                Err(error) => parsed == Err::<Self, AddressError>(error),
            },
    {
        Self::parse_bytes(text.as_bytes())
    }

    /// [`parse`](Self::parse), over bytes.
    pub fn parse_bytes(text: &[u8]) -> (parsed: Result<Self, AddressError>)
        ensures
            match parse_spans_from(text@, 0) {
                Ok(spans) => parsed matches Ok(read) && read@ == spans,
                Err(error) => parsed == Err::<Self, AddressError>(error),
            },
    {
        let mut ranges: Vec<(u16, u16)> = Vec::new();
        let mut at: usize = 0;
        loop
            invariant
                at <= text@.len(),
                parse_spans_from(text@, 0) == match parse_spans_from(text@, at as int) {
                    Ok(rest) => Ok(ranges@ + rest),
                    Err(error) => Err(error),
                },
            decreases text@.len() - at,
        {
            let stop = byte_position(text, at, 32u8);
            let token = vstd::slice::slice_subrange(text, at, stop);
            let span = match parse_span(token) {
                Ok(span) => span,
                Err(error) => {
                    return Err(error);
                },
            };
            let ghost before = ranges@;
            ranges.push(span);
            if stop >= text.len() {
                proof {
                    assert(ranges@ =~= before + seq![span]);
                }
                return Ok(CellSpans { ranges });
            }
            proof {
                assert(ranges@ =~= before + seq![span]);
                assert forall|rest: Seq<(u16, u16)>| true implies before + (seq![span] + rest)
                    =~= ranges@ + rest by {}
            }
            at = stop + 1;
        }
    }

    /// This list's text: `first:last` tokens separated by single spaces.
    pub fn to_text(&self) -> (text: Vec<u8>)
        ensures
            text@ == spans_text(self@),
    {
        let mut out: Vec<u8> = Vec::new();
        let mut i: usize = 0;
        while i < self.ranges.len()
            invariant
                i <= self@.len(),
                out@ == spans_text(self@.subrange(0, i as int)),
            decreases self@.len() - i,
        {
            let ghost before = out@;
            if i > 0 {
                out.push(32u8);
            }
            let (first, last) = self.ranges[i];
            push_decimal(&mut out, first as u64);
            out.push(58u8);
            push_decimal(&mut out, last as u64);
            proof {
                let seen = self@.subrange(0, i + 1);
                assert(seen.drop_last() =~= self@.subrange(0, i as int));
                if i == 0 {
                    assert(out@ =~= span_text(seen[0]));
                } else {
                    assert(out@ =~= before + seq![32u8] + span_text(seen.last()));
                }
            }
            i = i + 1;
        }
        proof {
            assert(self@.subrange(0, i as int) =~= self@);
        }
        out
    }
}

/// The first position from `at` on holding `byte`, or the length of `text`.
fn byte_position(text: &[u8], at: usize, byte: u8) -> (stop: usize)
    requires
        at <= text@.len(),
    ensures
        stop == byte_stop(text@, at as int, byte),
        at <= stop <= text@.len(),
{
    let mut i = at;
    while i < text.len() && text[i] != byte
        invariant
            at <= i <= text@.len(),
            byte_stop(text@, at as int, byte) == byte_stop(text@, i as int, byte),
        decreases text@.len() - i,
    {
        i = i + 1;
    }
    i
}

/// Reads one `first:last` token.
fn parse_span(token: &[u8]) -> (span: Result<(u16, u16), AddressError>)
    ensures
        span == parse_span_spec(token@),
{
    let colon = byte_position(token, 0, 58u8);
    if colon >= token.len() {
        return Err(AddressError::Malformed);
    }
    let first = parse_decimal(vstd::slice::slice_subrange(token, 0, colon), u32::MAX);
    let last = parse_decimal(vstd::slice::slice_subrange(token, colon + 1, token.len()), u32::MAX);
    match (first, last) {
        (Some(first), Some(last)) => {
            if first < 1 || last < 1 || first > MAX_SPAN_COLUMN as u32 || last > MAX_SPAN_COLUMN as u32 {
                Err(AddressError::ColumnOutOfGrid)
            } else if first > last {
                Err(AddressError::Malformed)
            } else {
                Ok((first as u16, last as u16))
            }
        },
        _ => Err(AddressError::Malformed),
    }
}

} // verus!
