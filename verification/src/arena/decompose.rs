//! Splitting one element's own bytes into its start tag, its attribute run and its content.
//!
//! A packed store leans on the byte range a reader recorded for each element: it is what lets an
//! untouched row, cell or `si` be re-emitted by copying instead of being serialised from a model.
//! But a range is a *claim about somebody else's buffer*, so [`decompose`] takes the bytes a range
//! resolved to **and the qualified name they are supposed to describe**, and returns `None` unless
//! they open with `<` + that name followed by a delimiter and close the way that element closes.
//! Every caller degrades to a rebuild when the check fails; none of them degrades to wrong bytes.

use vstd::prelude::*;

use super::attributes::{is_ascii_space, is_space};
use super::text::TextSpan;

verus! {

/// A span over `start..end`, or [`TextSpan::none`] when that is empty or inverted.
pub fn span_between(start: u32, end: u32) -> (span: TextSpan)
    ensures
        span == if end > start {
            TextSpan { start, length: (end - start) as u32 }
        } else {
            TextSpan::spec_none()
        },
{
    if end > start {
        TextSpan::new(start, end - start)
    } else {
        TextSpan::none()
    }
}

/// A span over `start..end` that stays **present** when empty — `<v></v>` is a value, and an absent
/// one is not the same thing.
pub fn span_present_between(start: u32, end: u32) -> (span: TextSpan)
    ensures
        span == if end >= start {
            TextSpan { start, length: (end - start) as u32 }
        } else {
            TextSpan::spec_none()
        },
{
    if end >= start {
        TextSpan::new(start, end - start)
    } else {
        TextSpan::none()
    }
}

/// Whether `byte` ends an element name in a start tag: whitespace, `/` or `>`.
pub open spec fn ends_name(byte: u8) -> bool {
    is_space(byte) || byte == 47u8 || byte == 62u8
}

/// The first position at or after `at` whose byte ends an element name (or the end).
pub open spec fn element_name_stop(bytes: Seq<u8>, at: int) -> int
    decreases bytes.len() - at,
{
    if 0 <= at < bytes.len() && !ends_name(bytes[at]) {
        element_name_stop(bytes, at + 1)
    } else {
        at
    }
}

/// The position of the `>` that closes a start tag, scanning from `at` while inside the quote
/// `quote` (zero for none): a `>` inside a quoted attribute value does not close the tag.
pub open spec fn tag_close(bytes: Seq<u8>, at: int, quote: u8) -> Option<int>
    decreases bytes.len() - at,
{
    if at < 0 || at >= bytes.len() {
        None
    } else if quote != 0 {
        if bytes[at] == quote {
            tag_close(bytes, at + 1, 0u8)
        } else {
            tag_close(bytes, at + 1, quote)
        }
    } else if bytes[at] == 34u8 || bytes[at] == 39u8 {
        tag_close(bytes, at + 1, bytes[at])
    } else if bytes[at] == 62u8 {
        Some(at)
    } else {
        tag_close(bytes, at + 1, 0u8)
    }
}

/// Where the start tag's attribute run ends, given where it starts and the closing `>`: one
/// before a `/` that makes the tag self-closing.
pub open spec fn run_end_for(bytes: Seq<u8>, run_start: int, tag_end: int) -> int {
    if tag_end > run_start && bytes[tag_end - 1] == 47u8 {
        tag_end - 1
    } else {
        tag_end
    }
}

/// The attribute run of an element's bytes, whatever the element's name.
pub open spec fn attribute_run_spec(bytes: Seq<u8>) -> Option<Seq<u8>> {
    if bytes.len() == 0 || bytes[0] != 60u8 {
        None
    } else {
        let run_start = element_name_stop(bytes, 1);
        match tag_close(bytes, run_start, 0u8) {
            Some(tag_end) => Some(
                bytes.subrange(run_start, run_end_for(bytes, run_start, tag_end)),
            ),
            None => None,
        }
    }
}

/// The qualified name in an element's start tag.
pub open spec fn qualified_name_spec(bytes: Seq<u8>) -> Option<Seq<u8>> {
    if bytes.len() == 0 || bytes[0] != 60u8 {
        None
    } else {
        let stop = element_name_stop(bytes, 1);
        if stop >= bytes.len() || stop == 1 {
            None
        } else {
            Some(bytes.subrange(1, stop))
        }
    }
}

proof fn lemma_element_name_stop(bytes: Seq<u8>, at: int)
    requires
        0 <= at <= bytes.len(),
    ensures
        at <= element_name_stop(bytes, at) <= bytes.len(),
        element_name_stop(bytes, at) < bytes.len() ==> ends_name(
            bytes[element_name_stop(bytes, at)],
        ),
    decreases bytes.len() - at,
{
    if at < bytes.len() && !ends_name(bytes[at]) {
        lemma_element_name_stop(bytes, at + 1);
    }
}

proof fn lemma_tag_close(bytes: Seq<u8>, at: int, quote: u8)
    requires
        0 <= at,
    ensures
        tag_close(bytes, at, quote) matches Some(end) ==> at <= end < bytes.len() && bytes[end]
            == 62u8,
    decreases bytes.len() - at,
{
    if 0 <= at < bytes.len() {
        if quote != 0 {
            if bytes[at] == quote {
                lemma_tag_close(bytes, at + 1, 0u8);
            } else {
                lemma_tag_close(bytes, at + 1, quote);
            }
        } else if bytes[at] == 34u8 || bytes[at] == 39u8 {
            lemma_tag_close(bytes, at + 1, bytes[at]);
        } else if bytes[at] != 62u8 {
            lemma_tag_close(bytes, at + 1, 0u8);
        }
    }
}

/// The first position at or after `at` whose byte ends an element name.
fn scan_name(bytes: &[u8], at: usize) -> (stop: usize)
    requires
        at <= bytes@.len(),
    ensures
        stop == element_name_stop(bytes@, at as int),
{
    let ghost first = at;
    let mut at = at;
    while at < bytes.len() && !(is_ascii_space(bytes[at]) || bytes[at] == 47u8 || bytes[at]
        == 62u8)
        invariant
            at <= bytes@.len(),
            element_name_stop(bytes@, first as int) == element_name_stop(bytes@, at as int),
        decreases bytes@.len() - at,
    {
        at = at + 1;
    }
    at
}

/// The position of the `>` that closes a start tag whose attributes begin at `at`.
fn scan_tag_close(bytes: &[u8], at: usize) -> (end: Option<usize>)
    requires
        at <= bytes@.len(),
    ensures
        match end {
            Some(end) => tag_close(bytes@, at as int, 0u8) == Some(end as int),
            None => tag_close(bytes@, at as int, 0u8) is None,
        },
{
    let mut cursor = at;
    let mut quote: u8 = 0;
    let ghost first = at;
    while cursor < bytes.len()
        invariant
            cursor <= bytes@.len(),
            first == at,
            tag_close(bytes@, first as int, 0u8) == tag_close(bytes@, cursor as int, quote),
        decreases bytes@.len() - cursor,
    {
        let byte = bytes[cursor];
        if quote != 0 {
            if byte == quote {
                quote = 0;
            }
        } else if byte == 34u8 || byte == 39u8 {
            quote = byte;
        } else if byte == 62u8 {
            assert(tag_close(bytes@, cursor as int, quote) == Some(cursor as int));
            return Some(cursor);
        }
        cursor = cursor + 1;
    }
    None
}

/// The attribute run of an element whose own bytes are `bytes`, **without being told its name**.
///
/// [`decompose`] is the right tool when the caller knows what the element is supposed to be. This
/// exists for the case where the name is genuinely not known — a `phoneticPr` whose prefix need not
/// match the `si` around it — and it is deliberately weaker: it says what the start tag's attributes
/// are, and makes no claim about which element they belong to.
///
/// `None` unless the bytes open with `<`, a name, and a start tag that closes.
pub fn attribute_run_of(bytes: &[u8]) -> (run: Option<&[u8]>)
    ensures
        match attribute_run_spec(bytes@) {
            Some(spec) => run matches Some(run) && run@ == spec,
            None => run is None,
        },
{
    if bytes.len() == 0 || bytes[0] != 60u8 {
        return None;
    }
    let run_start = scan_name(bytes, 1);
    proof {
        lemma_element_name_stop(bytes@, 1);
    }
    let tag_end = match scan_tag_close(bytes, run_start) {
        Some(end) => end,
        None => {
            return None;
        },
    };
    proof {
        lemma_tag_close(bytes@, run_start as int, 0u8);
    }
    let run_end = if tag_end > run_start && bytes[tag_end - 1] == 47u8 {
        tag_end - 1
    } else {
        tag_end
    };
    Some(vstd::slice::slice_subrange(bytes, run_start, run_end))
}

/// The qualified name in `bytes`' start tag — the prefix and local name exactly as written.
///
/// `None` unless the bytes open with `<` and a non-empty name that is followed by a delimiter.
pub fn qualified_name_of(bytes: &[u8]) -> (name: Option<&[u8]>)
    ensures
        match qualified_name_spec(bytes@) {
            Some(spec) => name matches Some(name) && name@ == spec,
            None => name is None,
        },
{
    if bytes.len() == 0 || bytes[0] != 60u8 {
        return None;
    }
    let stop = scan_name(bytes, 1);
    proof {
        lemma_element_name_stop(bytes@, 1);
    }
    if stop >= bytes.len() || stop == 1 {
        return None;
    }
    Some(vstd::slice::slice_subrange(bytes, 1, stop))
}

/// Where an element's start tag ends and its content begins and ends, as offsets into its own
/// bytes.
pub struct Decomposed {
    /// The bytes between the qualified name and the `>` (or `/>`) that closes the start tag.
    pub attribute_run: core::ops::Range<usize>,
    /// The element's content, between its start tag and its end tag.
    pub inner: core::ops::Range<usize>,
    /// Whether the element was written `<name/>`.
    pub self_closing: bool,
}

/// [`Decomposed`] as plain offsets, for contracts.
pub struct DecomposedSpec {
    pub run_start: int,
    pub run_end: int,
    pub inner_start: int,
    pub inner_end: int,
    pub self_closing: bool,
}

impl Decomposed {
    /// Whether these offsets are the ones `spec` names.
    pub open spec fn matches_spec(&self, spec: DecomposedSpec) -> bool {
        &&& self.attribute_run.start == spec.run_start
        &&& self.attribute_run.end == spec.run_end
        &&& self.inner.start == spec.inner_start
        &&& self.inner.end == spec.inner_end
        &&& self.self_closing == spec.self_closing
    }
}

/// The position at or before `end` after stepping back over trailing whitespace.
pub open spec fn trim_space_end(bytes: Seq<u8>, end: int) -> int
    decreases end,
{
    if 0 < end <= bytes.len() && is_space(bytes[end - 1]) {
        trim_space_end(bytes, end - 1)
    } else {
        end
    }
}

/// Whether `bytes` opens with `<` and `qname` followed by `>`, `/` or whitespace.
pub open spec fn opens_as(bytes: Seq<u8>, qname: Seq<u8>) -> bool {
    &&& bytes.len() >= qname.len() + 2
    &&& bytes[0] == 60u8
    &&& bytes.subrange(1, 1 + qname.len() as int) == qname
    &&& ends_name(bytes[1 + qname.len() as int])
}

/// How [`decompose`] splits `bytes`, if they are exactly one element named `qname`.
///
/// The start tag opens with `<` and the name followed by `>`, `/` or whitespace, and closes at the
/// first `>` outside a quoted value. A self-closing tag must be the whole of `bytes`; otherwise the
/// bytes must end with `</`, the name, optional whitespace and `>`, and the content is what lies
/// between the two tags.
pub open spec fn decompose_spec(bytes: Seq<u8>, qname: Seq<u8>) -> Option<DecomposedSpec> {
    let run_start = 1 + qname.len() as int;
    if !opens_as(bytes, qname) {
        None
    } else {
        match tag_close(bytes, run_start, 0u8) {
            None => None,
            Some(tag_end) => {
                let self_closing = tag_end > run_start && bytes[tag_end - 1] == 47u8;
                let run_end = run_end_for(bytes, run_start, tag_end);
                if self_closing {
                    if tag_end + 1 == bytes.len() {
                        Some(
                            DecomposedSpec {
                                run_start,
                                run_end,
                                inner_start: bytes.len() as int,
                                inner_end: bytes.len() as int,
                                self_closing: true,
                            },
                        )
                    } else {
                        None
                    }
                } else {
                    let end = trim_space_end(bytes, bytes.len() - 1);
                    let inner_end = end - qname.len() - 2;
                    if bytes[bytes.len() - 1] != 62u8 {
                        None
                    } else if end < qname.len() + 2 || bytes.subrange(end - qname.len(), end)
                        != qname {
                        None
                    } else if bytes[inner_end] != 60u8 || bytes[inner_end + 1] != 47u8 {
                        None
                    } else if inner_end < tag_end + 1 {
                        None
                    } else {
                        Some(
                            DecomposedSpec {
                                run_start,
                                run_end,
                                inner_start: tag_end + 1,
                                inner_end,
                                self_closing: false,
                            },
                        )
                    }
                }
            },
        }
    }
}

proof fn lemma_trim_space_end(bytes: Seq<u8>, end: int)
    requires
        0 <= end <= bytes.len(),
    ensures
        0 <= trim_space_end(bytes, end) <= end,
    decreases end,
{
    if 0 < end && is_space(bytes[end - 1]) {
        lemma_trim_space_end(bytes, end - 1);
    }
}

/// Whether `bytes[at..at + part.len()]` is exactly `part`.
fn bytes_at(bytes: &[u8], at: usize, part: &[u8]) -> (found: bool)
    requires
        at <= bytes@.len(),
    ensures
        found == (at + part@.len() <= bytes@.len() && bytes@.subrange(
            at as int,
            at + part@.len(),
        ) == part@),
{
    if part.len() > bytes.len() - at {
        return false;
    }
    let mut i: usize = 0;
    while i < part.len()
        invariant
            i <= part@.len(),
            at + part@.len() <= bytes@.len(),
            bytes@.subrange(at as int, at + i) == part@.subrange(0, i as int),
        decreases part@.len() - i,
    {
        assert(at + i < bytes.len());
        if bytes[at + i] != part[i] {
            proof {
                assert(bytes@.subrange(at as int, at + part@.len())[i as int] != part@[i as int]);
            }
            return false;
        }
        proof {
            assert(bytes@.subrange(at as int, at + i + 1) =~= bytes@.subrange(at as int, at + i).push(
                bytes@[at + i],
            ));
            assert(part@.subrange(0, i + 1) =~= part@.subrange(0, i as int).push(part@[i as int]));
        }
        i = i + 1;
    }
    proof {
        assert(part@.subrange(0, i as int) =~= part@);
    }
    true
}

/// Splits `bytes` — which must be exactly one element — into its attribute run and its content.
///
/// Returns `None` unless the bytes open with `<` and `qname` followed by a delimiter, and close the
/// way an element closes: the range is a claim about somebody else's buffer, and a claim that does
/// not check out must degrade to a rebuild rather than to wrong bytes.
pub fn decompose(bytes: &[u8], qname: &[u8]) -> (parts: Option<Decomposed>)
    ensures
        match decompose_spec(bytes@, qname@) {
            Some(spec) => parts matches Some(parts) && parts.matches_spec(spec),
            None => parts is None,
        },
{
    if bytes.len() < 2 || qname.len() > bytes.len() - 2 || bytes[0] != 60u8 || !bytes_at(
        bytes,
        1,
        qname,
    ) {
        return None;
    }
    let run_start = 1 + qname.len();
    let delimiter = bytes[run_start];
    if !(is_ascii_space(delimiter) || delimiter == 47u8 || delimiter == 62u8) {
        return None;
    }
    let tag_end = match scan_tag_close(bytes, run_start) {
        Some(end) => end,
        None => {
            return None;
        },
    };
    proof {
        lemma_tag_close(bytes@, run_start as int, 0u8);
    }
    let self_closing = tag_end > run_start && bytes[tag_end - 1] == 47u8;
    let run_end = if self_closing {
        tag_end - 1
    } else {
        tag_end
    };
    if self_closing {
        if tag_end + 1 != bytes.len() {
            return None;
        }
        return Some(
            Decomposed {
                attribute_run: run_start..run_end,
                inner: bytes.len()..bytes.len(),
                self_closing: true,
            },
        );
    }
    if bytes[bytes.len() - 1] != 62u8 {
        return None;
    }
    let mut end = bytes.len() - 1;
    proof {
        lemma_trim_space_end(bytes@, end as int);
    }
    while end > 0 && is_ascii_space(bytes[end - 1])
        invariant
            end < bytes@.len(),
            trim_space_end(bytes@, bytes@.len() - 1) == trim_space_end(bytes@, end as int),
        decreases end,
    {
        end = end - 1;
    }
    if end < qname.len() + 2 || !bytes_at(bytes, end - qname.len(), qname) {
        return None;
    }
    let inner_end = end - qname.len() - 2;
    if bytes[inner_end] != 60u8 || bytes[inner_end + 1] != 47u8 {
        return None;
    }
    let inner_start = tag_end + 1;
    if inner_end < inner_start {
        return None;
    }
    Some(
        Decomposed {
            attribute_run: run_start..run_end,
            inner: inner_start..inner_end,
            self_closing: false,
        },
    )
}

/// Where an element's start tag ends and its content begins and ends, **in arena addresses**.
#[derive(Debug, Clone, Copy)]
pub struct ElementLayout {
    /// The bytes between the qualified name and the `>` (or `/>`) that closes the start tag,
    /// leading whitespace included — exactly what the file wrote.
    pub attribute_run: TextSpan,
    /// The first content byte.
    pub inner_start: u32,
    /// One past the last content byte.
    pub inner_end: u32,
    /// Whether the file wrote `<name/>` rather than `<name></name>`.
    pub self_closing: bool,
}

/// [`decompose_spec`] moved into arena addresses by adding `base`.
pub open spec fn layout_spec(bytes: Seq<u8>, qname: Seq<u8>, extent: TextSpan) -> Option<
    ElementLayout,
> {
    if extent.absent() || bytes.len() == 0 {
        None
    } else {
        match decompose_spec(bytes, qname) {
            None => None,
            Some(parts) => Some(
                ElementLayout {
                    attribute_run: TextSpan {
                        start: (extent.start + parts.run_start) as u32,
                        length: (parts.run_end - parts.run_start) as u32,
                    },
                    inner_start: (extent.start + parts.inner_start) as u32,
                    inner_end: (extent.start + parts.inner_end) as u32,
                    self_closing: parts.self_closing,
                },
            ),
        }
    }
}

/// Every offset [`decompose_spec`] reports lies inside the bytes, in order.
pub proof fn lemma_decompose_bounds(bytes: Seq<u8>, qname: Seq<u8>)
    ensures
        decompose_spec(bytes, qname) matches Some(parts) ==> {
            &&& 1 <= parts.run_start <= parts.run_end
            &&& parts.run_end < parts.inner_start <= parts.inner_end <= bytes.len()
        },
{
    let run_start = 1 + qname.len() as int;
    if opens_as(bytes, qname) {
        lemma_tag_close(bytes, run_start, 0u8);
        lemma_trim_space_end(bytes, bytes.len() - 1);
    }
}

/// [`decompose`] against the bytes `extent` covers, in arena addresses.
///
/// `None` when `extent` is absent, resolves to nothing, or does not describe an element named
/// `qname`.
pub fn layout_in_arena(bytes: &[u8], qname: &[u8], extent: TextSpan) -> (layout: Option<
    ElementLayout,
>)
    requires
        extent.start + bytes@.len() <= u32::MAX,
    ensures
        layout == layout_spec(bytes@, qname@, extent),
{
    if extent.is_none() || bytes.len() == 0 {
        return None;
    }
    let parts = match decompose(bytes, qname) {
        Some(parts) => parts,
        None => {
            return None;
        },
    };
    proof {
        lemma_decompose_bounds(bytes@, qname@);
    }
    let base = extent.start();
    Some(
        ElementLayout {
            attribute_run: TextSpan::new(
                base + parts.attribute_run.start as u32,
                (parts.attribute_run.end - parts.attribute_run.start) as u32,
            ),
            inner_start: base + parts.inner.start as u32,
            inner_end: base + parts.inner.end as u32,
            self_closing: parts.self_closing,
        },
    )
}


/// The bytes an element is made of, as [`decompose_spec`] splits them: a self-closing element is
/// `<`, its name, its attribute run and `/>`; any other whose end tag carries no whitespace is
/// `<`, its name, its attribute run, `>`, its content, `</`, its name and `>`.
pub proof fn lemma_decompose_shape(bytes: Seq<u8>, qname: Seq<u8>)
    requires
        decompose_spec(bytes, qname) is Some,
    ensures
        ({
            let parts = decompose_spec(bytes, qname)->Some_0;
            &&& parts.self_closing ==> bytes == seq![60u8] + qname + bytes.subrange(
                parts.run_start,
                parts.run_end,
            ) + seq![47u8, 62u8]
            &&& !parts.self_closing && parts.inner_end + qname.len() + 3 == bytes.len() ==> bytes
                == seq![60u8] + qname + bytes.subrange(parts.run_start, parts.run_end) + seq![62u8]
                + bytes.subrange(parts.inner_start, parts.inner_end) + seq![60u8, 47u8] + qname
                + seq![62u8]
        }),
{
    let parts = decompose_spec(bytes, qname)->Some_0;
    let q = qname.len() as int;
    let run_start = 1 + q;
    lemma_tag_close(bytes, run_start, 0u8);
    let tag_end = tag_close(bytes, run_start, 0u8)->Some_0;
    assert(bytes.subrange(1, 1 + q) == qname);
    if parts.self_closing {
        let shape = seq![60u8] + qname + bytes.subrange(parts.run_start, parts.run_end) + seq![47u8, 62u8];
        assert(parts.run_end == tag_end - 1);
        assert forall|k: int| 0 <= k < bytes.len() implies bytes[k] == shape[k] by {
            if 1 <= k < 1 + q {
                assert(bytes[k] == bytes.subrange(1, 1 + q)[k - 1]);
            }
        }
        assert(bytes =~= shape);
    } else if parts.inner_end + q + 3 == bytes.len() {
        let end = trim_space_end(bytes, bytes.len() - 1);
        assert(parts.run_end == tag_end);
        assert(end == bytes.len() - 1);
        assert(bytes.subrange(end - q, end) == qname);
        let shape = seq![60u8] + qname + bytes.subrange(parts.run_start, parts.run_end) + seq![62u8]
            + bytes.subrange(parts.inner_start, parts.inner_end) + seq![60u8, 47u8] + qname + seq![62u8];
        assert forall|k: int| 0 <= k < bytes.len() implies bytes[k] == shape[k] by {
            if 1 <= k < 1 + q {
                assert(bytes[k] == bytes.subrange(1, 1 + q)[k - 1]);
            } else if end - q <= k < end {
                assert(bytes[k] == bytes.subrange(end - q, end)[k - (end - q)]);
            }
        }
        assert(bytes =~= shape);
    }
}

} // verus!
