//! Escaping text for the two places the store writes it: character data and attribute values.
//!
//! Both escapes are minimal. Character data needs only `&` and `<` spelled as references;
//! a double-quoted attribute value needs `"` as well. Every other byte is written as it is, so
//! text with nothing to escape is written unchanged.

use vstd::prelude::*;
use vstd::string::StringSliceAdditionalSpecFns;

verus! {

/// How one byte is spelled in character data.
pub open spec fn text_escape_of(byte: u8) -> Seq<u8> {
    if byte == 38u8 {
        seq![38u8, 97u8, 109u8, 112u8, 59u8]
    } else if byte == 60u8 {
        seq![38u8, 108u8, 116u8, 59u8]
    } else {
        seq![byte]
    }
}

/// How one byte is spelled in a double-quoted attribute value.
pub open spec fn attribute_escape_of(byte: u8) -> Seq<u8> {
    if byte == 34u8 {
        seq![38u8, 113u8, 117u8, 111u8, 116u8, 59u8]
    } else {
        text_escape_of(byte)
    }
}

/// `text` escaped for character data: `&` as `&amp;`, `<` as `&lt;`.
pub open spec fn escape_text_spec(text: Seq<u8>) -> Seq<u8>
    decreases text.len(),
{
    if text.len() == 0 {
        Seq::empty()
    } else {
        escape_text_spec(text.drop_last()) + text_escape_of(text.last())
    }
}

/// `text` escaped for a double-quoted attribute value: as for character data, and `"` as
/// `&quot;`.
pub open spec fn escape_attribute_spec(text: Seq<u8>) -> Seq<u8>
    decreases text.len(),
{
    if text.len() == 0 {
        Seq::empty()
    } else {
        escape_attribute_spec(text.drop_last()) + attribute_escape_of(text.last())
    }
}

/// Appends the spelling of `byte`, in an attribute value when `quote` is set and in character
/// data otherwise.
fn push_escaped(out: &mut Vec<u8>, byte: u8, quote: bool)
    ensures
        final(out)@ == old(out)@ + if quote {
            attribute_escape_of(byte)
        } else {
            text_escape_of(byte)
        },
{
    let ghost start = out@;
    if byte == 38u8 {
        out.push(38u8);
        out.push(97u8);
        out.push(109u8);
        out.push(112u8);
        out.push(59u8);
    } else if byte == 60u8 {
        out.push(38u8);
        out.push(108u8);
        out.push(116u8);
        out.push(59u8);
    } else if quote && byte == 34u8 {
        out.push(38u8);
        out.push(113u8);
        out.push(117u8);
        out.push(111u8);
        out.push(116u8);
        out.push(59u8);
    } else {
        out.push(byte);
    }
    proof {
        assert(out@ =~= start + if quote {
            attribute_escape_of(byte)
        } else {
            text_escape_of(byte)
        });
    }
}

/// `text` escaped for character data.
pub fn escape_text(text: &str) -> (escaped: Vec<u8>)
    ensures
        escaped@ == escape_text_spec(text.spec_bytes()),
{
    let bytes = text.as_bytes();
    let mut out: Vec<u8> = Vec::new();
    let mut i: usize = 0;
    while i < bytes.len()
        invariant
            i <= bytes@.len(),
            bytes@ == text.spec_bytes(),
            out@ == escape_text_spec(bytes@.subrange(0, i as int)),
        decreases bytes@.len() - i,
    {
        push_escaped(&mut out, bytes[i], false);
        proof {
            assert(bytes@.subrange(0, i + 1).drop_last() =~= bytes@.subrange(0, i as int));
        }
        i = i + 1;
    }
    assert(bytes@.subrange(0, i as int) =~= bytes@);
    out
}

/// `text` escaped for a double-quoted attribute value.
pub fn escape_attribute(text: &str) -> (escaped: Vec<u8>)
    ensures
        escaped@ == escape_attribute_spec(text.spec_bytes()),
{
    escape_attribute_bytes(text.as_bytes())
}

/// `bytes` escaped for a double-quoted attribute value.
pub fn escape_attribute_bytes(bytes: &[u8]) -> (escaped: Vec<u8>)
    ensures
        escaped@ == escape_attribute_spec(bytes@),
{
    let mut out: Vec<u8> = Vec::new();
    let mut i: usize = 0;
    while i < bytes.len()
        invariant
            i <= bytes@.len(),
            out@ == escape_attribute_spec(bytes@.subrange(0, i as int)),
        decreases bytes@.len() - i,
    {
        push_escaped(&mut out, bytes[i], true);
        proof {
            assert(bytes@.subrange(0, i + 1).drop_last() =~= bytes@.subrange(0, i as int));
        }
        i = i + 1;
    }
    assert(bytes@.subrange(0, i as int) =~= bytes@);
    out
}

} // verus!
