//! Decimal numerals as bytes: the spelling every number in a SpreadsheetML attribute or value
//! takes, written and read without going through a formatter.
//!
//! Reading follows the rule `str::parse::<u32>` follows: an optional `+`, then one or more ASCII
//! digits, and nothing else — no sign but `+`, no whitespace, no overflow. Writing produces the
//! shortest spelling, with no sign and no leading zero.

use vstd::prelude::*;

verus! {

/// Whether `byte` is an ASCII digit.
pub open spec fn is_digit(byte: u8) -> bool {
    48u8 <= byte <= 57u8
}

/// Whether every byte of `digits` is an ASCII digit.
pub open spec fn all_digits(digits: Seq<u8>) -> bool {
    forall|i: int| 0 <= i < digits.len() ==> is_digit(#[trigger] digits[i])
}

/// The number the digits spell, most significant first (zero for no digits).
pub open spec fn digits_value(digits: Seq<u8>) -> nat
    decreases digits.len(),
{
    if digits.len() == 0 {
        0
    } else {
        (digits_value(digits.drop_last()) * 10 + (digits.last() - 48u8)) as nat
    }
}

/// The shortest decimal spelling of `n`.
pub open spec fn decimal(n: nat) -> Seq<u8>
    decreases n,
{
    if n < 10 {
        seq![(48u8 + n) as u8]
    } else {
        decimal(n / 10).push((48u8 + n % 10) as u8)
    }
}

/// What `str::parse::<u32>` makes of `text`, bounded by `max`: an optional `+`, then at least one
/// digit, and a value no greater than `max`.
pub open spec fn parse_decimal_spec(text: Seq<u8>, max: u32) -> Option<u32> {
    let digits = if text.len() > 0 && text[0] == 43u8 {
        text.drop_first()
    } else {
        text
    };
    if digits.len() > 0 && all_digits(digits) && digits_value(digits) <= max {
        Some(digits_value(digits) as u32)
    } else {
        None
    }
}

/// The decimal spelling of `n` is digits only, never empty, and reads back as `n`.
pub proof fn lemma_decimal_reads_back(n: nat)
    ensures
        decimal(n).len() > 0,
        all_digits(decimal(n)),
        digits_value(decimal(n)) == n,
        n > 0 ==> decimal(n)[0] != 48u8,
    decreases n,
{
    if n < 10 {
        assert(decimal(n).drop_last() =~= Seq::<u8>::empty());
        assert(decimal(n).last() == (48 + n) as u8);
        assert(decimal(n).last() - 48u8 == n);
        assert(digits_value(Seq::<u8>::empty()) == 0);
        assert(digits_value(decimal(n)) == digits_value(decimal(n).drop_last()) * 10 + (decimal(n).last() - 48u8));
    } else {
        lemma_decimal_reads_back(n / 10);
        let d = decimal(n);
        assert(d.drop_last() =~= decimal(n / 10));
        assert(d.last() == (48u8 + n % 10) as u8);
        assert(d.last() - 48u8 == n % 10);
        assert(n / 10 * 10 + n % 10 == n);
        assert forall|i: int| 0 <= i < d.len() implies is_digit(#[trigger] d[i]) by {
            if i < d.len() - 1 {
                assert(d[i] == decimal(n / 10)[i]);
            }
        }
    }
}

/// Appending digits never makes a value smaller.
pub proof fn lemma_digits_value_prefix(digits: Seq<u8>, k: int)
    requires
        0 <= k <= digits.len(),
        all_digits(digits),
    ensures
        digits_value(digits.subrange(0, k)) <= digits_value(digits),
    decreases digits.len(),
{
    if k < digits.len() {
        lemma_digits_value_prefix(digits.drop_last(), k);
        assert(digits.drop_last().subrange(0, k) =~= digits.subrange(0, k));
        assert(is_digit(digits[digits.len() - 1]));
    } else {
        assert(digits.subrange(0, k) =~= digits);
    }
}

/// Appends the shortest decimal spelling of `n` to `out`.
pub fn push_decimal(out: &mut Vec<u8>, n: u64)
    ensures
        final(out)@ == old(out)@ + decimal(n as nat),
    decreases n,
{
    if n >= 10 {
        push_decimal(out, n / 10);
    }
    out.push(48u8 + (n % 10) as u8);
    proof {
        if n >= 10 {
            assert(decimal(n as nat) == decimal((n / 10) as nat).push((48u8 + n % 10) as u8));
        }
    }
}

/// Reads `text` the way `str::parse::<u32>` does, refusing a value above `max`.
pub fn parse_decimal(text: &[u8], max: u32) -> (value: Option<u32>)
    ensures
        value == parse_decimal_spec(text@, max),
{
    let mut at: usize = 0;
    if text.len() > 0 && text[0] == 43u8 {
        at = 1;
    }
    let ghost digits = if text@.len() > 0 && text@[0] == 43u8 {
        text@.drop_first()
    } else {
        text@
    };
    assert(digits =~= text@.subrange(at as int, text@.len() as int));
    if at >= text.len() {
        return None;
    }
    let mut value: u32 = 0;
    let mut i: usize = at;
    while i < text.len()
        invariant
            at <= i <= text@.len(),
            digits == text@.subrange(at as int, text@.len() as int),
            digits == (if text@.len() > 0 && text@[0] == 43u8 {
                text@.drop_first()
            } else {
                text@
            }),
            all_digits(text@.subrange(at as int, i as int)),
            value as nat == digits_value(text@.subrange(at as int, i as int)),
            value <= max,
        decreases text@.len() - i,
    {
        let byte = text[i];
        let ghost before = text@.subrange(at as int, i as int);
        assert(text@.subrange(at as int, i + 1) =~= before.push(byte));
        assert(text@.subrange(at as int, i + 1).drop_last() =~= before);
        if byte < 48u8 || byte > 57u8 {
            proof {
                assert(digits[i - at] == text@[i as int]);
                assert(!is_digit(digits[i - at]));
                assert(!all_digits(digits));
                assert(parse_decimal_spec(text@, max) is None);
            }
            return None;
        }
        let d = (byte - 48u8) as u32;
        assert(digits_value(text@.subrange(at as int, i + 1)) == value * 10 + d);
        if d > max || value > (max - d) / 10 {
            proof {
                assert(digits.subrange(0, i + 1 - at) =~= text@.subrange(at as int, i + 1));
                if d <= max {
                    assert(value * 10 + d > max) by (nonlinear_arith)
                        requires
                            value > (max - d) / 10,
                            d <= max,
                    ;
                }
                if all_digits(digits) {
                    lemma_digits_value_prefix(digits, i + 1 - at);
                    assert(value * 10 + d > max);
                    assert(digits_value(digits) > max);
                }
                assert(parse_decimal_spec(text@, max) is None);
            }
            return None;
        }
        proof {
            assert(value * 10 + d <= max) by (nonlinear_arith)
                requires
                    value <= (max - d) / 10,
                    d <= max,
            ;
        }
        value = value * 10 + d;
        i = i + 1;
    }
    assert(text@.subrange(at as int, i as int) =~= digits);
    Some(value)
}

} // verus!
