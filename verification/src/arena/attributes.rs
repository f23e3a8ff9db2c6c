//! Reading and editing an element's attribute run *as bytes*.
//!
//! A row or cell keeps its attributes the way the file wrote them: one range of bytes,
//! `r="7" spans="1:3"`. Reading one attribute is a scan of that range, and the run preserves
//! attribute **order**, **prefixes**, **quote characters** and the exact whitespace between
//! attributes.
//!
//! Setting an attribute rewrites the run *in place*: the named attribute's value is replaced where
//! it stands, or the attribute is appended if it was absent, and every other byte of the run is
//! copied through untouched — so an attribute this library does not model survives the edit.

use vstd::prelude::*;
use vstd::string::StringSliceAdditionalSpecFns;

verus! {

/// Whether `byte` is ASCII whitespace: space, tab, line feed, form feed or carriage return.
pub open spec fn is_space(byte: u8) -> bool {
    byte == 32u8 || byte == 9u8 || byte == 10u8 || byte == 12u8 || byte == 13u8
}

/// [`is_space`], executable.
#[verifier::when_used_as_spec(is_space)]
pub fn is_ascii_space(byte: u8) -> (space: bool)
    ensures
        space == is_space(byte),
{
    byte == 32u8 || byte == 9u8 || byte == 10u8 || byte == 12u8 || byte == 13u8
}

/// Whether `byte` opens an attribute value: `"` or `'`.
pub open spec fn is_quote(byte: u8) -> bool {
    byte == 34u8 || byte == 39u8
}

/// The first position at or after `at` that does not hold whitespace (or the end of the run).
pub open spec fn skip_space(run: Seq<u8>, at: int) -> int
    decreases run.len() - at,
{
    if 0 <= at < run.len() && is_space(run[at]) {
        skip_space(run, at + 1)
    } else {
        at
    }
}

/// The first position at or after `at` that holds whitespace or `=` (or the end of the run): where
/// an attribute name beginning at `at` stops.
pub open spec fn name_stop(run: Seq<u8>, at: int) -> int
    decreases run.len() - at,
{
    if 0 <= at < run.len() && !is_space(run[at]) && run[at] != 61u8 {
        name_stop(run, at + 1)
    } else {
        at
    }
}

/// The first position at or after `at` that holds `quote` (or the end of the run).
pub open spec fn quote_close(run: Seq<u8>, at: int, quote: u8) -> int
    decreases run.len() - at,
{
    if 0 <= at < run.len() && run[at] != quote {
        quote_close(run, at + 1, quote)
    } else {
        at
    }
}

/// Where one attribute sits in a run, as offsets: its name, its value between the quotes, and
/// one past its closing quote.
pub struct AttributeSpan {
    pub name_start: int,
    pub name_end: int,
    pub value_start: int,
    pub value_end: int,
}

impl AttributeSpan {
    /// One past the closing quote.
    pub open spec fn end(self) -> int {
        self.value_end + 1
    }
}

/// The attribute that begins at or after `at`: optional whitespace, a non-empty name, optional
/// whitespace, `=`, optional whitespace, a quote, the value, and the same quote again. `None`
/// when the bytes there are anything else.
pub open spec fn attribute_at(run: Seq<u8>, at: int) -> Option<AttributeSpan> {
    let name_start = skip_space(run, at);
    let name_end = name_stop(run, name_start);
    let equals = skip_space(run, name_end);
    let quote_at = skip_space(run, equals + 1);
    if name_end == name_start {
        None
    } else if equals >= run.len() || run[equals] != 61u8 {
        None
    } else if quote_at >= run.len() || !is_quote(run[quote_at]) {
        None
    } else {
        let value_end = quote_close(run, quote_at + 1, run[quote_at]);
        if value_end >= run.len() {
            None
        } else {
            Some(
                AttributeSpan {
                    name_start,
                    name_end,
                    value_start: quote_at + 1,
                    value_end,
                },
            )
        }
    }
}

/// Where a scan starting at `at` stops when [`attribute_at`] finds nothing there.
pub open spec fn stop_at(run: Seq<u8>, at: int) -> int {
    let name_start = skip_space(run, at);
    let name_end = name_stop(run, name_start);
    let equals = skip_space(run, name_end);
    let quote_at = skip_space(run, equals + 1);
    if name_end == name_start {
        name_start
    } else if equals >= run.len() || run[equals] != 61u8 {
        equals
    } else if quote_at >= run.len() || !is_quote(run[quote_at]) {
        quote_at
    } else {
        run.len() as int
    }
}

/// Every attribute from `at` on, in document order, up to the first position that does not begin
/// one.
pub open spec fn attributes_from(run: Seq<u8>, at: int) -> Seq<AttributeSpan>
    decreases run.len() - at,
{
    if 0 <= at <= run.len() {
        match attribute_at(run, at) {
            Some(found) => if at < found.end() <= run.len() {
                seq![found].add(attributes_from(run, found.end()))
            } else {
                Seq::empty()
            },
            None => Seq::empty(),
        }
    } else {
        Seq::empty()
    }
}

/// Every attribute of `run`, in document order.
pub open spec fn attributes_of(run: Seq<u8>) -> Seq<AttributeSpan> {
    attributes_from(run, 0)
}

/// The bytes of an attribute's name.
pub open spec fn name_bytes(run: Seq<u8>, found: AttributeSpan) -> Seq<u8> {
    run.subrange(found.name_start, found.name_end)
}

/// The raw bytes of an attribute's value, between the quotes.
pub open spec fn value_bytes(run: Seq<u8>, found: AttributeSpan) -> Seq<u8> {
    run.subrange(found.value_start, found.value_end)
}

/// The value of the first of `found` named `name`, searching from position `i` on.
pub open spec fn lookup_from(run: Seq<u8>, found: Seq<AttributeSpan>, i: int, name: Seq<u8>) -> Option<
    Seq<u8>,
>
    decreases found.len() - i,
{
    if 0 <= i < found.len() {
        if name_bytes(run, found[i]) == name {
            Some(value_bytes(run, found[i]))
        } else {
            lookup_from(run, found, i + 1, name)
        }
    } else {
        None
    }
}

/// The raw value of the first attribute of `run` named `name`.
pub open spec fn value_of(run: Seq<u8>, name: Seq<u8>) -> Option<Seq<u8>> {
    lookup_from(run, attributes_of(run), 0, name)
}

proof fn lemma_skip_space(run: Seq<u8>, at: int)
    requires
        0 <= at <= run.len(),
    ensures
        at <= skip_space(run, at) <= run.len(),
        forall|k: int| at <= k < skip_space(run, at) ==> is_space(#[trigger] run[k]),
        skip_space(run, at) < run.len() ==> !is_space(run[skip_space(run, at)]),
    decreases run.len() - at,
{
    if at < run.len() && is_space(run[at]) {
        lemma_skip_space(run, at + 1);
    }
}

proof fn lemma_name_stop(run: Seq<u8>, at: int)
    requires
        0 <= at <= run.len(),
    ensures
        at <= name_stop(run, at) <= run.len(),
        forall|k: int|
            at <= k < name_stop(run, at) ==> !is_space(#[trigger] run[k]) && run[k] != 61u8,
        name_stop(run, at) < run.len() ==> is_space(run[name_stop(run, at)]) || run[name_stop(
            run,
            at,
        )] == 61u8,
    decreases run.len() - at,
{
    if at < run.len() && !is_space(run[at]) && run[at] != 61u8 {
        lemma_name_stop(run, at + 1);
    }
}

proof fn lemma_quote_close(run: Seq<u8>, at: int, quote: u8)
    requires
        0 <= at <= run.len(),
    ensures
        at <= quote_close(run, at, quote) <= run.len(),
        forall|k: int| at <= k < quote_close(run, at, quote) ==> #[trigger] run[k] != quote,
        quote_close(run, at, quote) < run.len() ==> run[quote_close(run, at, quote)] == quote,
    decreases run.len() - at,
{
    if at < run.len() && run[at] != quote {
        lemma_quote_close(run, at + 1, quote);
    }
}

/// An attribute found at `at` lies inside the run, after `at`, with its parts in order.
pub proof fn lemma_attribute_at(run: Seq<u8>, at: int)
    requires
        0 <= at <= run.len(),
    ensures
        attribute_at(run, at) matches Some(found) ==> {
            &&& at <= found.name_start < found.name_end < found.value_start <= found.value_end
            &&& found.value_end < run.len()
            &&& at < found.end() <= run.len()
        },
        attribute_at(run, at) is None ==> at <= stop_at(run, at) <= run.len(),
{
    let name_start = skip_space(run, at);
    lemma_skip_space(run, at);
    let name_end = name_stop(run, name_start);
    lemma_name_stop(run, name_start);
    let equals = skip_space(run, name_end);
    lemma_skip_space(run, name_end);
    if equals < run.len() {
        lemma_skip_space(run, equals + 1);
        let quote_at = skip_space(run, equals + 1);
        if quote_at < run.len() {
            lemma_quote_close(run, quote_at + 1, run[quote_at]);
        }
    }
}

/// Every attribute listed by [`attributes_from`] lies in order inside the run.
pub proof fn lemma_attributes_from(run: Seq<u8>, at: int)
    requires
        0 <= at <= run.len(),
    ensures
        forall|i: int|
            0 <= i < attributes_from(run, at).len() ==> {
                &&& at <= (#[trigger] attributes_from(run, at)[i]).name_start
                &&& attributes_from(run, at)[i].name_start < attributes_from(run, at)[i].name_end
                &&& attributes_from(run, at)[i].name_end < attributes_from(run, at)[i].value_start
                &&& attributes_from(run, at)[i].value_start <= attributes_from(run, at)[i].value_end
                &&& attributes_from(run, at)[i].end() <= run.len()
            },
        forall|i: int, j: int|
            0 <= i < j < attributes_from(run, at).len() ==> (#[trigger] attributes_from(
                run,
                at,
            )[i]).end() <= (#[trigger] attributes_from(run, at)[j]).name_start,
    decreases run.len() - at,
{
    lemma_attribute_at(run, at);
    if let Some(found) = attribute_at(run, at) {
        if at < found.end() <= run.len() {
            lemma_attributes_from(run, found.end());
            let rest = attributes_from(run, found.end());
            let all = attributes_from(run, at);
            assert(all =~= seq![found].add(rest));
            assert forall|i: int, j: int| 0 <= i < j < all.len() implies (#[trigger] all[i]).end()
                <= (#[trigger] all[j]).name_start by {
                if i > 0 {
                    assert(all[i] == rest[i - 1]);
                }
                assert(all[j] == rest[j - 1]);
            }
            assert forall|i: int| 0 <= i < all.len() implies at <= (#[trigger] all[i]).name_start
                && all[i].end() <= run.len() by {
                if i > 0 {
                    assert(all[i] == rest[i - 1]);
                }
            }
        }
    }
}

/// One attribute found in a run.
#[derive(Debug)]
pub struct Attribute<'a> {
    /// The qualified name exactly as written — `r`, `s`, `x14ac:dyDescent`.
    pub name: &'a [u8],
    /// The raw, still-escaped value bytes between the quotes.
    pub value: &'a [u8],
    /// Where the whole attribute sits in the run, name through closing quote.
    pub extent: core::ops::Range<usize>,
    /// Where the value sits in the run, between the quotes.
    pub value_extent: core::ops::Range<usize>,
}

impl<'a> Attribute<'a> {
    /// Whether this attribute is the one `found` describes in `run`.
    pub open spec fn describes(&self, run: Seq<u8>, found: AttributeSpan) -> bool {
        &&& self.name@ == name_bytes(run, found)
        &&& self.value@ == value_bytes(run, found)
        &&& self.extent.start == found.name_start
        &&& self.extent.end == found.end()
        &&& self.value_extent.start == found.value_start
        &&& self.value_extent.end == found.value_end
    }
}

/// A scan over the attributes of one run, in document order.
///
/// Parsing stops at the first byte that cannot begin an attribute, so a malformed run yields the
/// attributes it did understand rather than an error, and never panics.
#[derive(Debug)]
pub struct AttributeRun<'a> {
    run: &'a [u8],
    cursor: usize,
}

/// A scan over every attribute in `run`, in document order.
///
/// `run` is the bytes between an element's name and the `>` (or `/>`) that closes its start tag.
pub fn iter(run: &[u8]) -> (scan: AttributeRun<'_>)
    ensures
        scan.bytes() == run@,
        scan.position() == 0,
{
    AttributeRun { run, cursor: 0 }
}

impl<'a> AttributeRun<'a> {
    /// The run being scanned.
    pub closed spec fn bytes(&self) -> Seq<u8> {
        self.run@
    }

    /// Where the next attribute is looked for.
    pub closed spec fn position(&self) -> int {
        self.cursor as int
    }

    /// The attributes still to come, in order.
    pub open spec fn remaining(&self) -> Seq<AttributeSpan> {
        attributes_from(self.bytes(), self.position())
    }

    /// The next attribute, or `None` once the run holds no further well-formed attribute.
    pub fn next(&mut self) -> (next: Option<Attribute<'a>>)
        requires
            old(self).position() <= old(self).bytes().len(),
        ensures
            final(self).bytes() == old(self).bytes(),
            final(self).position() <= final(self).bytes().len(),
            match attribute_at(old(self).bytes(), old(self).position()) {
                Some(found) => {
                    &&& next matches Some(attribute) && attribute.describes(old(self).bytes(), found)
                    &&& final(self).position() == found.end()
                },
                None => {
                    &&& next is None
                    &&& final(self).position() == stop_at(old(self).bytes(), old(self).position())
                },
            },
    {
        proof {
            lemma_attribute_at(self.run@, self.cursor as int);
            lemma_skip_space(self.run@, self.cursor as int);
        }
        skip_whitespace(self.run, &mut self.cursor);
        let name_start = self.cursor;
        proof {
            lemma_name_stop(self.run@, name_start as int);
        }
        while self.cursor < self.run.len()
            invariant
                name_start <= self.cursor <= self.run@.len(),
                self.run@ == old(self).bytes(),
                name_stop(self.run@, name_start as int) == name_stop(self.run@, self.cursor as int),
            ensures
                name_start <= self.cursor <= self.run@.len(),
                self.run@ == old(self).bytes(),
                name_stop(self.run@, name_start as int) == self.cursor,
            decreases self.run@.len() - self.cursor,
        {
            let byte = self.run[self.cursor];
            if is_ascii_space(byte) || byte == 61u8 {
                break;
            }
            self.cursor = self.cursor + 1;
        }
        if self.cursor == name_start {
            return None;
        }
        let name_end = self.cursor;
        proof {
            lemma_skip_space(self.run@, name_end as int);
        }
        skip_whitespace(self.run, &mut self.cursor);
        if self.cursor >= self.run.len() || self.run[self.cursor] != 61u8 {
            return None;
        }
        self.cursor = self.cursor + 1;
        proof {
            lemma_skip_space(self.run@, self.cursor as int);
        }
        skip_whitespace(self.run, &mut self.cursor);
        if self.cursor >= self.run.len() {
            return None;
        }
        let quote = self.run[self.cursor];
        if quote != 34u8 && quote != 39u8 {
            return None;
        }
        self.cursor = self.cursor + 1;
        let value_start = self.cursor;
        proof {
            lemma_quote_close(self.run@, value_start as int, quote);
        }
        while self.cursor < self.run.len() && self.run[self.cursor] != quote
            invariant
                value_start <= self.cursor <= self.run@.len(),
                self.run@ == old(self).bytes(),
                quote_close(self.run@, value_start as int, quote) == quote_close(
                    self.run@,
                    self.cursor as int,
                    quote,
                ),
            decreases self.run@.len() - self.cursor,
        {
            self.cursor = self.cursor + 1;
        }
        if self.cursor >= self.run.len() {
            return None;
        }
        let value_end = self.cursor;
        self.cursor = self.cursor + 1;
        Some(
            Attribute {
                name: vstd::slice::slice_subrange(self.run, name_start, name_end),
                value: vstd::slice::slice_subrange(self.run, value_start, value_end),
                extent: name_start..self.cursor,
                value_extent: value_start..value_end,
            },
        )
    }
}

/// Advances `cursor` past any whitespace.
fn skip_whitespace(run: &[u8], cursor: &mut usize)
    requires
        *old(cursor) <= run@.len(),
    ensures
        *final(cursor) == skip_space(run@, *old(cursor) as int),
{
    proof {
        lemma_skip_space(run@, *cursor as int);
    }
    while *cursor < run.len() && is_ascii_space(run[*cursor])
        invariant
            *old(cursor) <= *cursor <= run@.len(),
            skip_space(run@, *old(cursor) as int) == skip_space(run@, *cursor as int),
        decreases run@.len() - *cursor,
    {
        *cursor = *cursor + 1;
    }
}

/// Whether two byte strings are equal.
pub fn bytes_equal(left: &[u8], right: &[u8]) -> (equal: bool)
    ensures
        equal == (left@ == right@),
{
    if left.len() != right.len() {
        return false;
    }
    let mut i: usize = 0;
    while i < left.len()
        invariant
            left@.len() == right@.len(),
            i <= left@.len(),
            left@.subrange(0, i as int) == right@.subrange(0, i as int),
        decreases left@.len() - i,
    {
        if left[i] != right[i] {
            proof {
                assert(left@[i as int] != right@[i as int]);
            }
            return false;
        }
        proof {
            assert(left@.subrange(0, i + 1) =~= left@.subrange(0, i as int).push(left@[i as int]));
            assert(right@.subrange(0, i + 1) =~= right@.subrange(0, i as int).push(right@[i as int]));
        }
        i = i + 1;
    }
    proof {
        assert(left@ =~= left@.subrange(0, i as int));
        assert(right@ =~= right@.subrange(0, i as int));
    }
    true
}

/// The raw value of the attribute named `name`, or `None` if the run does not carry it.
pub fn value<'a>(run: &'a [u8], name: &str) -> (found: Option<&'a [u8]>)
    ensures
        match value_of(run@, name.spec_bytes()) {
            Some(bytes) => found matches Some(found) && found@ == bytes,
            None => found is None,
        },
{
    let wanted = name.as_bytes();
    let mut scan = iter(run);
    let ghost all = attributes_of(run@);
    let ghost mut i: int = 0;
    proof {
        lemma_attributes_from(run@, 0);
    }
    loop
        invariant
            scan.bytes() == run@,
            scan.position() <= run@.len(),
            0 <= i <= all.len(),
            all == attributes_of(run@),
            scan.remaining() == all.subrange(i, all.len() as int),
            lookup_from(run@, all, 0, wanted@) == lookup_from(run@, all, i, wanted@),
            wanted@ == name.spec_bytes(),
        decreases run@.len() - scan.position(),
    {
        let ghost before = scan.position();
        let ghost rem = scan.remaining();
        proof {
            lemma_attribute_at(run@, before);
        }
        match scan.next() {
            Some(attribute) => {
                proof {
                    let found = attribute_at(run@, before)->0;
                    assert(rem == seq![found].add(attributes_from(run@, found.end())));
                    assert(rem[0] == found);
                    assert(rem.len() == all.len() - i);
                    assert(all.subrange(i, all.len() as int)[0] == all[i]);
                    assert(all[i] == found);
                    assert(scan.remaining() == attributes_from(run@, found.end()));
                    assert(rem.drop_first() =~= attributes_from(run@, found.end()));
                    assert(scan.remaining() =~= all.subrange(i + 1, all.len() as int));
                }
                if bytes_equal(attribute.name, wanted) {
                    proof {
                        assert(name_bytes(run@, all[i]) == wanted@);
                        assert(lookup_from(run@, all, i, wanted@) == Some(value_bytes(run@, all[i])));
                    }
                    return Some(attribute.value);
                }
                proof {
                    i = i + 1;
                }
            },
            None => {
                proof {
                    assert(rem.len() == 0);
                    assert(i == all.len());
                    assert(lookup_from(run@, all, i, wanted@) is None);
                }
                return None;
            },
        }
    }
}

/// Where the whitespace introducing the attribute at `start` begins, but never before `floor`.
pub open spec fn leading_space_start(run: Seq<u8>, start: int, floor: int) -> int
    decreases start - floor,
{
    if start > floor && is_space(run[start - 1]) {
        leading_space_start(run, start - 1, floor)
    } else {
        start
    }
}

proof fn lemma_leading_space_start(run: Seq<u8>, start: int, floor: int)
    requires
        0 <= floor <= start <= run.len(),
    ensures
        floor <= leading_space_start(run, start, floor) <= start,
    decreases start - floor,
{
    if start > floor && is_space(run[start - 1]) {
        lemma_leading_space_start(run, start - 1, floor);
    }
}

/// The attribute appended for a name the run did not carry: one space, the name, `="`, the value
/// and `"`.
pub open spec fn appended_attribute(name: Seq<u8>, value: Seq<u8>) -> Seq<u8> {
    seq![32u8] + name + seq![61u8, 34u8] + value + seq![34u8]
}

/// What [`set_attribute`] writes for the attributes `found[i..]`, given that the run has been
/// copied up to `copied` and whether the named attribute has already been rewritten.
///
/// The first attribute named `name` has its value replaced between its own quotes; every later
/// one, and every one at all when `value` is `None`, is dropped together with the whitespace
/// that introduced it; every other byte is copied. A name the run did not carry is appended.
pub open spec fn rewritten_from(
    run: Seq<u8>,
    found: Seq<AttributeSpan>,
    i: int,
    copied: int,
    written: bool,
    name: Seq<u8>,
    value: Option<Seq<u8>>,
) -> Seq<u8>
    decreases found.len() - i,
{
    if i < 0 || i >= found.len() {
        run.subrange(copied, run.len() as int) + match value {
            Some(new_value) => if written {
                Seq::empty()
            } else {
                appended_attribute(name, new_value)
            },
            None => Seq::empty(),
        }
    } else {
        let here = found[i];
        if name_bytes(run, here) != name {
            rewritten_from(run, found, i + 1, copied, written, name, value)
        } else if value is Some && !written {
            run.subrange(copied, here.value_start) + value->0 + rewritten_from(
                run,
                found,
                i + 1,
                here.value_end,
                true,
                name,
                value,
            )
        } else {
            run.subrange(copied, leading_space_start(run, here.name_start, copied))
                + rewritten_from(run, found, i + 1, here.end(), written, name, value)
        }
    }
}

/// The run `run` with `name` set to `value`, or removed when `value` is `None`.
pub open spec fn set_attribute_spec(run: Seq<u8>, name: Seq<u8>, value: Option<Seq<u8>>) -> Seq<
    u8,
> {
    rewritten_from(run, attributes_of(run), 0, 0, false, name, value)
}

/// A search that finds no attribute named `name` from `i` on passes only other names.
proof fn lemma_lookup_none(run: Seq<u8>, found: Seq<AttributeSpan>, i: int, name: Seq<u8>)
    requires
        0 <= i,
        lookup_from(run, found, i, name) is None,
    ensures
        forall|j: int| i <= j < found.len() ==> name_bytes(run, #[trigger] found[j]) != name,
    decreases found.len() - i,
{
    if i < found.len() {
        lemma_lookup_none(run, found, i + 1, name);
    }
}

/// Where no attribute from `i` on is named `name`, the rewrite copies the rest of the run and
/// appends the attribute when it is set and was not written yet.
proof fn lemma_rewrite_passes_other_names(
    run: Seq<u8>,
    found: Seq<AttributeSpan>,
    i: int,
    copied: int,
    written: bool,
    name: Seq<u8>,
    value: Option<Seq<u8>>,
)
    requires
        0 <= i,
        forall|j: int| i <= j < found.len() ==> name_bytes(run, #[trigger] found[j]) != name,
    ensures
        rewritten_from(run, found, i, copied, written, name, value) == run.subrange(
            copied,
            run.len() as int,
        ) + match value {
            Some(new_value) => if written {
                Seq::empty()
            } else {
                appended_attribute(name, new_value)
            },
            None => Seq::empty(),
        },
    decreases found.len() - i,
{
    if i < found.len() {
        lemma_rewrite_passes_other_names(run, found, i + 1, copied, written, name, value);
    }
}

/// **Setting an attribute a run does not carry appends it; removing one changes nothing.** For
/// a run with no attribute named `name`, setting it gives the run followed by one space, the
/// name, `="`, the value and `"`; removing it gives the run unchanged.
pub proof fn law_absent_attribute_is_appended(run: Seq<u8>, name: Seq<u8>, value: Option<Seq<u8>>)
    requires
        value_of(run, name) is None,
    ensures
        set_attribute_spec(run, name, value) == run + match value {
            Some(new_value) => appended_attribute(name, new_value),
            None => Seq::empty(),
        },
{
    lemma_lookup_none(run, attributes_of(run), 0, name);
    lemma_rewrite_passes_other_names(run, attributes_of(run), 0, 0, false, name, value);
    assert(run.subrange(0, run.len() as int) =~= run);
}

/// Where the scan of `run` from `at` stops: past every attribute it finds there.
pub open spec fn scan_end(run: Seq<u8>, at: int) -> int
    decreases run.len() - at,
{
    if 0 <= at <= run.len() {
        match attribute_at(run, at) {
            Some(found) => if at < found.end() <= run.len() {
                scan_end(run, found.end())
            } else {
                at
            },
            None => at,
        }
    } else {
        at
    }
}

/// Whether a run reads whole: past its last attribute there is only whitespace.
pub open spec fn reads_whole(run: Seq<u8>) -> bool {
    skip_space(run, scan_end(run, 0)) == run.len()
}

/// `skip_space` stops at `end` when only whitespace lies before it and `end` holds none.
proof fn lemma_skip_space_to(text: Seq<u8>, at: int, end: int)
    requires
        0 <= at <= end <= text.len(),
        forall|k: int| at <= k < end ==> is_space(#[trigger] text[k]),
        end == text.len() || !is_space(text[end]),
    ensures
        skip_space(text, at) == end,
    decreases end - at,
{
    if at < end {
        lemma_skip_space_to(text, at + 1, end);
    }
}

/// `name_stop` stops at `end` when only name bytes lie before it and `end` holds none.
proof fn lemma_name_stop_to(text: Seq<u8>, at: int, end: int)
    requires
        0 <= at <= end <= text.len(),
        forall|k: int| at <= k < end ==> !is_space(#[trigger] text[k]) && text[k] != 61u8,
        end == text.len() || is_space(text[end]) || text[end] == 61u8,
    ensures
        name_stop(text, at) == end,
    decreases end - at,
{
    if at < end {
        lemma_name_stop_to(text, at + 1, end);
    }
}

/// `quote_close` stops at `end` when no quote lies before it and `end` holds one.
proof fn lemma_quote_close_to(text: Seq<u8>, at: int, end: int, quote: u8)
    requires
        0 <= at <= end <= text.len(),
        forall|k: int| at <= k < end ==> #[trigger] text[k] != quote,
        end == text.len() || text[end] == quote,
    ensures
        quote_close(text, at, quote) == end,
    decreases end - at,
{
    if at < end {
        lemma_quote_close_to(text, at + 1, end, quote);
    }
}

/// An attribute found in a run is found at the same place once more bytes follow the run.
proof fn lemma_attribute_at_extended(run: Seq<u8>, more: Seq<u8>, at: int)
    requires
        0 <= at <= run.len(),
        attribute_at(run, at) is Some,
    ensures
        attribute_at(run + more, at) == attribute_at(run, at),
{
    let text = run + more;
    let name_start = skip_space(run, at);
    lemma_skip_space(run, at);
    let name_end = name_stop(run, name_start);
    lemma_name_stop(run, name_start);
    let equals = skip_space(run, name_end);
    lemma_skip_space(run, name_end);
    let quote_at = skip_space(run, equals + 1);
    lemma_skip_space(run, equals + 1);
    let quote = run[quote_at];
    let value_end = quote_close(run, quote_at + 1, quote);
    lemma_quote_close(run, quote_at + 1, quote);
    lemma_skip_space_to(text, at, name_start);
    lemma_name_stop_to(text, name_start, name_end);
    lemma_skip_space_to(text, name_end, equals);
    lemma_skip_space_to(text, equals + 1, quote_at);
    lemma_quote_close_to(text, quote_at + 1, value_end, quote);
}

/// Once more bytes follow a run, its scan from `at` finds the run's attributes first, and then
/// whatever lies from where the run's scan stopped.
proof fn lemma_attributes_from_extended(run: Seq<u8>, more: Seq<u8>, at: int)
    requires
        0 <= at <= run.len(),
    ensures
        attributes_from(run + more, at) == attributes_from(run, at) + attributes_from(
            run + more,
            scan_end(run, at),
        ),
    decreases run.len() - at,
{
    lemma_attribute_at(run, at);
    match attribute_at(run, at) {
        Some(found) => {
            lemma_attribute_at_extended(run, more, at);
            lemma_attributes_from_extended(run, more, found.end());
            assert(attributes_from(run + more, at) =~= attributes_from(run, at) + attributes_from(
                run + more,
                scan_end(run, at),
            ));
        },
        None => {
            assert(attributes_from(run, at) =~= Seq::<AttributeSpan>::empty());
        },
    }
}

/// A search past attributes none of which is named `name` answers as the search from after them.
proof fn lemma_lookup_past(
    text: Seq<u8>,
    found: Seq<AttributeSpan>,
    later: Seq<AttributeSpan>,
    i: int,
    name: Seq<u8>,
)
    requires
        0 <= i <= found.len(),
        forall|j: int| i <= j < found.len() ==> name_bytes(text, #[trigger] found[j]) != name,
    ensures
        lookup_from(text, found + later, i, name) == lookup_from(
            text,
            found + later,
            found.len() as int,
            name,
        ),
    decreases found.len() - i,
{
    if i < found.len() {
        assert((found + later)[i] == found[i]);
        lemma_lookup_past(text, found, later, i + 1, name);
    }
}

/// The scan of a run stops inside it.
proof fn lemma_scan_end(run: Seq<u8>, at: int)
    requires
        0 <= at <= run.len(),
    ensures
        at <= scan_end(run, at) <= run.len(),
    decreases run.len() - at,
{
    lemma_attribute_at(run, at);
    if let Some(found) = attribute_at(run, at) {
        lemma_scan_end(run, found.end());
    }
}

/// **An appended attribute reads back, and every other attribute is read as before.** Setting
/// a name a whole run does not carry — a name of at least one byte holding neither whitespace nor
/// `=`, to a value holding no `"` — gives a run whose attributes are the run's own, read the same,
/// followed by one more: the new one, whose value is the value set.
#[verifier::rlimit(30)]
pub proof fn law_appended_attribute_reads_back(run: Seq<u8>, name: Seq<u8>, value: Seq<u8>)
    requires
        reads_whole(run),
        value_of(run, name) is None,
        name.len() > 0,
        forall|k: int| 0 <= k < name.len() ==> !is_space(#[trigger] name[k]) && name[k] != 61u8,
        forall|k: int| 0 <= k < value.len() ==> #[trigger] value[k] != 34u8,
    ensures
        ({
            let written = set_attribute_spec(run, name, Some(value));
            let before = attributes_of(run);
            let after = attributes_of(written);
            &&& value_of(written, name) == Some(value)
            &&& after.len() == before.len() + 1
            &&& forall|i: int|
                0 <= i < before.len() ==> name_bytes(written, #[trigger] after[i]) == name_bytes(
                    run,
                    before[i],
                ) && value_bytes(written, after[i]) == value_bytes(run, before[i])
        }),
{
    law_absent_attribute_is_appended(run, name, Some(value));
    let more = appended_attribute(name, value);
    let text = run + more;
    assert(set_attribute_spec(run, name, Some(value)) == text);
    let n = run.len() as int;
    let e = scan_end(run, 0);
    lemma_scan_end(run, 0);
    lemma_attributes_from_extended(run, more, 0);
    lemma_attributes_from(run, 0);
    // The bytes past the run: a space, the name, `="`, the value and `"`.
    let name_start = n + 1;
    let name_end = name_start + name.len();
    let quote_at = name_end + 1;
    let value_end = quote_at + 1 + value.len();
    assert(text.len() == value_end + 1);
    assert(text[n] == 32u8);
    assert forall|k: int| name_start <= k < name_end implies !is_space(#[trigger] text[k])
        && text[k] != 61u8 by {
        assert(text[k] == name[k - name_start]);
    }
    assert(text[name_end] == 61u8);
    assert(text[quote_at] == 34u8);
    assert forall|k: int| quote_at + 1 <= k < value_end implies #[trigger] text[k] != 34u8 by {
        assert(text[k] == value[k - quote_at - 1]);
    }
    assert(text[value_end] == 34u8);
    lemma_skip_space(run, e);
    assert forall|k: int| e <= k < name_start implies is_space(#[trigger] text[k]) by {
        if k < n {
            assert(text[k] == run[k]);
        }
    }
    lemma_skip_space_to(text, e, name_start);
    lemma_name_stop_to(text, name_start, name_end);
    lemma_skip_space_to(text, name_end, name_end);
    lemma_skip_space_to(text, name_end + 1, quote_at);
    lemma_quote_close_to(text, quote_at + 1, value_end, 34u8);
    let added = AttributeSpan { name_start, name_end, value_start: quote_at + 1, value_end };
    assert(attribute_at(text, e) == Some(added));
    lemma_skip_space_to(text, text.len() as int, text.len() as int);
    lemma_name_stop_to(text, text.len() as int, text.len() as int);
    assert(attributes_from(text, text.len() as int) =~= Seq::<AttributeSpan>::empty());
    assert(attributes_from(text, e) =~= seq![added]);
    let before = attributes_of(run);
    let after = attributes_of(text);
    assert(after == before + seq![added]);
    assert forall|i: int| 0 <= i < before.len() implies name_bytes(text, #[trigger] after[i])
        == name_bytes(run, before[i]) && value_bytes(text, after[i]) == value_bytes(run, before[i]) by {
        assert(after[i] == before[i]);
        assert(text.subrange(before[i].name_start, before[i].name_end) =~= run.subrange(
            before[i].name_start,
            before[i].name_end,
        ));
        assert(text.subrange(before[i].value_start, before[i].value_end) =~= run.subrange(
            before[i].value_start,
            before[i].value_end,
        ));
    }
    lemma_lookup_none(run, before, 0, name);
    assert forall|j: int| 0 <= j < before.len() implies name_bytes(text, #[trigger] before[j]) != name by {
        assert(after[j] == before[j]);
        assert(name_bytes(text, after[j]) == name_bytes(run, before[j]));
    }
    lemma_lookup_past(text, before, seq![added], 0, name);
    assert(after[before.len() as int] == added);
    assert(name_bytes(text, added) =~= name);
    assert(value_bytes(text, added) =~= value);
}

/// Appends `bytes` to `out`.
fn append(out: &mut Vec<u8>, bytes: &[u8])
    ensures
        final(out)@ == old(out)@ + bytes@,
{
    out.extend_from_slice(bytes);
}

/// Rewrites `run` with `name` set to `value`, or removed when `value` is `None`, appending the
/// result to `out`.
///
/// Everything the run carried that is not the named attribute is copied through byte for byte —
/// order, prefixes, quote characters and the whitespace between attributes included. An attribute
/// that was not there is appended at the end, preceded by one space, with a double quote.
///
/// `value` is written **raw**: the caller escapes it.
pub fn set_attribute(run: &[u8], name: &str, value: Option<&[u8]>, out: &mut Vec<u8>)
    ensures
        final(out)@ == old(out)@ + set_attribute_spec(
            run@,
            name.spec_bytes(),
            match value {
                Some(v) => Some(v@),
                None => None,
            },
        ),
{
    let wanted = name.as_bytes();
    let ghost new_value: Option<Seq<u8>> = match value {
        Some(v) => Some(v@),
        None => None,
    };
    let ghost all = attributes_of(run@);
    let ghost start = Seq::<u8>::empty();
    let mut produced: Vec<u8> = Vec::new();
    let ghost mut i: int = 0;
    let mut written = false;
    let mut copied: usize = 0;
    let mut scan = iter(run);
    proof {
        lemma_attributes_from(run@, 0);
    }
    loop
        invariant_except_break
            scan.remaining() == all.subrange(i, all.len() as int),
            copied <= scan.position(),
            i < all.len() ==> scan.position() <= all[i].name_start,
        invariant
            scan.bytes() == run@,
            scan.position() <= run@.len(),
            0 <= i <= all.len(),
            all == attributes_of(run@),
            copied <= run@.len(),
            i == 0 ==> copied == 0,
            new_value == (match value {
                Some(v) => Some(v@),
                None => None,
            }),
            wanted@ == name.spec_bytes(),
            produced@ + rewritten_from(run@, all, i, copied as int, written, wanted@, new_value)
                == start + rewritten_from(run@, all, 0, 0, false, wanted@, new_value),
            forall|k: int|
                0 <= k < all.len() ==> {
                    &&& (#[trigger] all[k]).name_start < all[k].name_end
                    &&& all[k].name_end < all[k].value_start
                    &&& all[k].value_start <= all[k].value_end
                    &&& all[k].end() <= run@.len()
                },
            forall|k: int, m: int|
                0 <= k < m < all.len() ==> (#[trigger] all[k]).end() <= (#[trigger] all[m]).name_start,
        ensures
            i == all.len(),
        decreases run@.len() - scan.position(),
    {
        let ghost out_before = produced@;
        let ghost before = scan.position();
        let ghost rem = scan.remaining();
        proof {
            lemma_attribute_at(run@, before);
        }
        let next = scan.next();
        match next {
            Some(attribute) => {
                let ghost here = attribute_at(run@, before)->0;
                proof {
                    assert(rem == seq![here].add(attributes_from(run@, here.end())));
                    assert(rem[0] == here);
                    assert(rem.len() == all.len() - i);
                    assert(all.subrange(i, all.len() as int)[0] == all[i]);
                    assert(all[i] == here);
                    assert(scan.remaining() == attributes_from(run@, here.end()));
                    assert(rem.drop_first() =~= attributes_from(run@, here.end()));
                    assert(scan.remaining() =~= all.subrange(i + 1, all.len() as int));
                    if i + 1 < all.len() {
                        assert(all[i].end() <= all[i + 1].name_start);
                    }
                }
                if !bytes_equal(attribute.name, wanted) {
                    proof {
                        i = i + 1;
                    }
                    continue;
                }
                match value {
                    Some(new_bytes) if !written => {
                        let kept = vstd::slice::slice_subrange(
                            run,
                            copied,
                            attribute.value_extent.start,
                        );
                        append(&mut produced, kept);
                        append(&mut produced, new_bytes);
                        proof {
                            let rest = rewritten_from(
                                run@,
                                all,
                                i + 1,
                                here.value_end,
                                true,
                                wanted@,
                                new_value,
                            );
                            assert(rewritten_from(run@, all, i, copied as int, written, wanted@, new_value)
                                == run@.subrange(copied as int, here.value_start) + new_bytes@ + rest);
                            assert(produced@ + rest =~= out_before + (run@.subrange(copied as int, here.value_start)
                                + new_bytes@ + rest)) by {
                                assert(produced@ =~= out_before + run@.subrange(copied as int, here.value_start)
                                    + new_bytes@);
                            }
                            i = i + 1;
                        }
                        copied = attribute.value_extent.end;
                        written = true;
                    },
                    _ => {
                        proof {
                            lemma_leading_space_start(run@, here.name_start, copied as int);
                        }
                        let from = leading_whitespace_start(run, attribute.extent.start, copied);
                        let kept = vstd::slice::slice_subrange(run, copied, from);
                        append(&mut produced, kept);
                        proof {
                            let rest = rewritten_from(
                                run@,
                                all,
                                i + 1,
                                here.end(),
                                written,
                                wanted@,
                                new_value,
                            );
                            assert(rewritten_from(run@, all, i, copied as int, written, wanted@, new_value)
                                == run@.subrange(copied as int, from as int) + rest);
                            assert(produced@ + rest =~= out_before + (run@.subrange(copied as int, from as int) + rest));
                            i = i + 1;
                        }
                        copied = attribute.extent.end;
                    },
                }
            },
            None => {
                proof {
                    assert(rem.len() == 0);
                }
                break;
            },
        }
    }
    let tail = vstd::slice::slice_subrange(run, copied, run.len());
    let ghost before_tail = produced@;
    append(&mut produced, tail);
    match value {
        Some(new_bytes) if !written => {
            produced.push(32u8);
            append(&mut produced, wanted);
            produced.push(61u8);
            produced.push(34u8);
            append(&mut produced, new_bytes);
            produced.push(34u8);
            proof {
                assert(produced@ =~= before_tail + run@.subrange(copied as int, run@.len() as int)
                    + appended_attribute(wanted@, new_bytes@));
            }
        },
        _ => {},
    }
    proof {
        assert(produced@ =~= before_tail + rewritten_from(run@, all, i, copied as int, written, wanted@, new_value));
        assert(before_tail + rewritten_from(run@, all, i, copied as int, written, wanted@, new_value)
            == start + rewritten_from(run@, all, 0, 0, false, wanted@, new_value));
        assert(rewritten_from(run@, all, 0, 0, false, wanted@, new_value) == set_attribute_spec(
            run@,
            name.spec_bytes(),
            new_value,
        ));
        assert(produced@ =~= start + set_attribute_spec(run@, name.spec_bytes(), new_value));
        assert(new_value == (match value {
            Some(v) => Some(v@),
            None => None,
        }));
    }
    append(out, produced.as_slice());
    proof {
        assert(produced@ =~= set_attribute_spec(run@, name.spec_bytes(), new_value));
    }
}

/// Where the whitespace introducing the attribute at `start` begins, but never before `floor`.
fn leading_whitespace_start(run: &[u8], start: usize, floor: usize) -> (at: usize)
    requires
        floor <= start <= run@.len(),
    ensures
        at == leading_space_start(run@, start as int, floor as int),
{
    let mut at = start;
    while at > floor && is_ascii_space(run[at - 1])
        invariant
            floor <= at <= start,
            start <= run@.len(),
            leading_space_start(run@, start as int, floor as int) == leading_space_start(
                run@,
                at as int,
                floor as int,
            ),
        decreases at,
    {
        at = at - 1;
    }
    at
}


/// The span `found` moved `by` bytes along.
pub open spec fn shifted(found: AttributeSpan, by: int) -> AttributeSpan {
    AttributeSpan {
        name_start: found.name_start + by,
        name_end: found.name_end + by,
        value_start: found.value_start + by,
        value_end: found.value_end + by,
    }
}

/// Every span of `found` moved `by` bytes along.
pub open spec fn shifted_all(found: Seq<AttributeSpan>, by: int) -> Seq<AttributeSpan> {
    Seq::new(found.len(), |i: int| shifted(found[i], by))
}

/// Whether `text` from `at` on holds the same bytes as `other` from `other_at` on.
pub open spec fn same_tail(text: Seq<u8>, at: int, other: Seq<u8>, other_at: int) -> bool {
    &&& 0 <= at <= text.len()
    &&& 0 <= other_at <= other.len()
    &&& text.len() - at == other.len() - other_at
    &&& forall|k: int| at <= k < text.len() ==> #[trigger] text[k] == other[k - (at - other_at)]
}

/// A scan from `at` in `text` finds what the same scan finds in `other` from `other_at`, moved
/// along, when the two hold the same bytes from there on.
proof fn lemma_attribute_at_same_tail(text: Seq<u8>, at: int, other: Seq<u8>, other_at: int)
    requires
        same_tail(text, at, other, other_at),
    ensures
        attribute_at(text, at) == match attribute_at(other, other_at) {
            Some(found) => Some(shifted(found, at - other_at)),
            None => None::<AttributeSpan>,
        },
{
    let d = at - other_at;
    let name_start = skip_space(other, other_at);
    lemma_skip_space(other, other_at);
    lemma_skip_space_to(text, at, name_start + d);
    let name_end = name_stop(other, name_start);
    lemma_name_stop(other, name_start);
    lemma_name_stop_to(text, name_start + d, name_end + d);
    let equals = skip_space(other, name_end);
    lemma_skip_space(other, name_end);
    lemma_skip_space_to(text, name_end + d, equals + d);
    if name_end != name_start && equals < other.len() && other[equals] == 61u8 {
        assert(text[equals + d] == other[equals]);
        let quote_at = skip_space(other, equals + 1);
        lemma_skip_space(other, equals + 1);
        lemma_skip_space_to(text, equals + 1 + d, quote_at + d);
        if quote_at < other.len() && is_quote(other[quote_at]) {
            let quote = other[quote_at];
            assert(text[quote_at + d] == quote);
            let value_end = quote_close(other, quote_at + 1, quote);
            lemma_quote_close(other, quote_at + 1, quote);
            lemma_quote_close_to(text, quote_at + 1 + d, value_end + d, quote);
        } else if quote_at < other.len() {
            assert(text[quote_at + d] == other[quote_at]);
        }
    } else if name_end != name_start && equals < other.len() {
        assert(text[equals + d] == other[equals]);
    }
}

/// Scanning `text` from `at` lists what scanning `other` from `other_at` lists, moved along, when
/// the two hold the same bytes from there on.
proof fn lemma_attributes_from_same_tail(text: Seq<u8>, at: int, other: Seq<u8>, other_at: int)
    requires
        same_tail(text, at, other, other_at),
    ensures
        attributes_from(text, at) == shifted_all(attributes_from(other, other_at), at - other_at),
    decreases other.len() - other_at,
{
    let d = at - other_at;
    lemma_attribute_at_same_tail(text, at, other, other_at);
    lemma_attribute_at(other, other_at);
    match attribute_at(other, other_at) {
        Some(found) => {
            lemma_attributes_from_same_tail(text, found.end() + d, other, found.end());
            assert(attributes_from(text, at) =~= shifted_all(attributes_from(other, other_at), d));
        },
        None => {
            assert(attributes_from(text, at) =~= shifted_all(attributes_from(other, other_at), d));
        },
    }
}


/// Whether `text` holds the same bytes as `other` before `limit`.
pub open spec fn same_head(text: Seq<u8>, other: Seq<u8>, limit: int) -> bool {
    &&& 0 <= limit <= text.len()
    &&& limit <= other.len()
    &&& forall|k: int| 0 <= k < limit ==> #[trigger] text[k] == other[k]
}

/// An attribute found in `other` whose value ends before `limit` is found the same in any `text`
/// holding the same bytes before `limit`.
proof fn lemma_attribute_at_same_head(text: Seq<u8>, other: Seq<u8>, at: int, limit: int)
    requires
        same_head(text, other, limit),
        0 <= at <= limit,
        attribute_at(other, at) matches Some(found) && found.value_end < limit,
    ensures
        attribute_at(text, at) == attribute_at(other, at),
{
    let name_start = skip_space(other, at);
    lemma_skip_space(other, at);
    let name_end = name_stop(other, name_start);
    lemma_name_stop(other, name_start);
    let equals = skip_space(other, name_end);
    lemma_skip_space(other, name_end);
    let quote_at = skip_space(other, equals + 1);
    lemma_skip_space(other, equals + 1);
    let quote = other[quote_at];
    let value_end = quote_close(other, quote_at + 1, quote);
    lemma_quote_close(other, quote_at + 1, quote);
    lemma_skip_space_to(text, at, name_start);
    lemma_name_stop_to(text, name_start, name_end);
    lemma_skip_space_to(text, name_end, equals);
    lemma_skip_space_to(text, equals + 1, quote_at);
    lemma_quote_close_to(text, quote_at + 1, value_end, quote);
}

/// What an attribute found at `at` is made of: whitespace up to its name, and a value between two
/// copies of one quote character.
proof fn lemma_attribute_parts(run: Seq<u8>, at: int)
    requires
        0 <= at <= run.len(),
        attribute_at(run, at) is Some,
    ensures
        ({
            let found = attribute_at(run, at)->Some_0;
            &&& found.name_start == skip_space(run, at)
            &&& forall|k: int| at <= k < found.name_start ==> is_space(#[trigger] run[k])
            &&& is_quote(run[found.value_start - 1])
            &&& run[found.value_end] == run[found.value_start - 1]
            &&& forall|k: int| found.value_start <= k < found.value_end ==> #[trigger] run[k]
                != run[found.value_start - 1]
            &&& found.name_end < found.value_start
        }),
{
    lemma_attribute_at(run, at);
    let name_start = skip_space(run, at);
    lemma_skip_space(run, at);
    let name_end = name_stop(run, name_start);
    lemma_name_stop(run, name_start);
    let equals = skip_space(run, name_end);
    lemma_skip_space(run, name_end);
    let quote_at = skip_space(run, equals + 1);
    lemma_skip_space(run, equals + 1);
    lemma_quote_close(run, quote_at + 1, run[quote_at]);
}

/// Where the scan of a run meets its `i`th attribute: at the start, or where the one before ended.
pub open spec fn attribute_start(found: Seq<AttributeSpan>, i: int) -> int {
    if i <= 0 {
        0
    } else {
        found[i - 1].end()
    }
}

/// From where the scan meets the `i`th attribute, it lists the run's attributes from the `i`th on;
/// the `i`th is found right there.
proof fn lemma_attributes_suffix(run: Seq<u8>, i: int)
    requires
        0 <= i <= attributes_of(run).len(),
    ensures
        ({
            let found = attributes_of(run);
            let at = attribute_start(found, i);
            &&& 0 <= at <= run.len()
            &&& attributes_from(run, at) == found.subrange(i, found.len() as int)
            &&& i < found.len() ==> attribute_at(run, at) == Some(found[i]) && at < found[i].end()
                <= run.len()
        }),
    decreases i,
{
    let found = attributes_of(run);
    if i == 0 {
        assert(found.subrange(0, found.len() as int) =~= found);
    } else {
        lemma_attributes_suffix(run, i - 1);
        let at = attribute_start(found, i - 1);
        lemma_attribute_at(run, at);
        let here = attribute_at(run, at)->Some_0;
        assert(attributes_from(run, at)[0] == found[i - 1]);
        assert(here == found[i - 1]);
        let tail = attributes_from(run, here.end());
        assert(attributes_from(run, at) == seq![here].add(tail));
        assert(tail =~= attributes_from(run, at).subrange(1, attributes_from(run, at).len() as int));
        assert(tail =~= found.subrange(i, found.len() as int));
    }
    if i < found.len() {
        let at = attribute_start(found, i);
        lemma_attribute_at(run, at);
        assert(attributes_from(run, at)[0] == found[i]);
    }
}

/// A `text` holding a run's bytes up to `limit`, which its `m`th attribute does not pass, lists
/// that run's attributes from the `i`th up to the `m`th, and then whatever it holds from there.
proof fn lemma_attributes_same_head(text: Seq<u8>, run: Seq<u8>, i: int, m: int, limit: int)
    requires
        0 <= i <= m <= attributes_of(run).len(),
        same_head(text, run, limit),
        attribute_start(attributes_of(run), m) <= limit,
    ensures
        attributes_from(text, attribute_start(attributes_of(run), i)) == attributes_of(run).subrange(i, m)
            + attributes_from(text, attribute_start(attributes_of(run), m)),
    decreases m - i,
{
    let found = attributes_of(run);
    if i < m {
        lemma_attributes_suffix(run, i);
        lemma_attributes_from(run, 0);
        let at = attribute_start(found, i);
        assert(found[i].end() <= attribute_start(found, m)) by {
            if i + 1 < m {
                assert(found[i].end() <= found[m - 1].name_start);
            }
        }
        lemma_attribute_at_same_head(text, run, at, limit);
        lemma_attributes_same_head(text, run, i + 1, m, limit);
        assert(attributes_from(text, at) =~= found.subrange(i, m) + attributes_from(
            text,
            attribute_start(found, m),
        ));
    } else {
        assert(found.subrange(i, m) =~= Seq::<AttributeSpan>::empty());
    }
}

/// The rewrite passes the attributes `found[i..m]` untouched when none of them is named `name`.
proof fn lemma_rewrite_skips(
    run: Seq<u8>,
    found: Seq<AttributeSpan>,
    i: int,
    m: int,
    copied: int,
    written: bool,
    name: Seq<u8>,
    value: Option<Seq<u8>>,
)
    requires
        0 <= i <= m <= found.len(),
        forall|j: int| i <= j < m ==> name_bytes(run, #[trigger] found[j]) != name,
    ensures
        rewritten_from(run, found, i, copied, written, name, value) == rewritten_from(
            run,
            found,
            m,
            copied,
            written,
            name,
            value,
        ),
    decreases m - i,
{
    if i < m {
        lemma_rewrite_skips(run, found, i + 1, m, copied, written, name, value);
    }
}

/// The position of the first of `found`, from `i` on, named `name`; the length when none is.
pub open spec fn first_named(run: Seq<u8>, found: Seq<AttributeSpan>, name: Seq<u8>, i: int) -> int
    decreases found.len() - i,
{
    if 0 <= i < found.len() {
        if name_bytes(run, found[i]) == name {
            i
        } else {
            first_named(run, found, name, i + 1)
        }
    } else {
        found.len() as int
    }
}

/// The first named attribute: none before it carries the name, and the search finds its value.
proof fn lemma_first_named(run: Seq<u8>, found: Seq<AttributeSpan>, name: Seq<u8>, i: int)
    requires
        0 <= i <= found.len(),
    ensures
        i <= first_named(run, found, name, i) <= found.len(),
        forall|j: int| i <= j < first_named(run, found, name, i) ==> name_bytes(run, #[trigger] found[j]) != name,
        first_named(run, found, name, i) < found.len() ==> name_bytes(run, found[first_named(run, found, name, i)]) == name
            && lookup_from(run, found, i, name) == Some(value_bytes(run, found[first_named(run, found, name, i)])),
        first_named(run, found, name, i) == found.len() ==> lookup_from(run, found, i, name) is None,
    decreases found.len() - i,
{
    if i < found.len() && name_bytes(run, found[i]) != name {
        lemma_first_named(run, found, name, i + 1);
    }
}

/// The name and the raw value of an attribute found in `text`.
pub open spec fn pair_of(text: Seq<u8>, found: AttributeSpan) -> (Seq<u8>, Seq<u8>) {
    (name_bytes(text, found), value_bytes(text, found))
}

/// The names and raw values of the attributes `found` of `text`, in order.
pub open spec fn pairs_of(text: Seq<u8>, found: Seq<AttributeSpan>) -> Seq<(Seq<u8>, Seq<u8>)> {
    Seq::new(found.len(), |k: int| pair_of(text, found[k]))
}

/// The names and raw values of the attributes `found[i..]` of `run` not named `name`, in order.
pub open spec fn kept_pairs(run: Seq<u8>, found: Seq<AttributeSpan>, name: Seq<u8>, i: int) -> Seq<
    (Seq<u8>, Seq<u8>),
>
    decreases found.len() - i,
{
    if 0 <= i < found.len() {
        if name_bytes(run, found[i]) == name {
            kept_pairs(run, found, name, i + 1)
        } else {
            seq![pair_of(run, found[i])] + kept_pairs(run, found, name, i + 1)
        }
    } else {
        Seq::empty()
    }
}

/// Walking back over whitespace from `start`, never before `floor`, stops at `at` when all between
/// is whitespace and the byte before `at`, if any, is not.
proof fn lemma_leading_space_floor(run: Seq<u8>, at: int, start: int, floor: int)
    requires
        0 <= floor <= at <= start <= run.len(),
        forall|k: int| at <= k < start ==> is_space(#[trigger] run[k]),
        at == 0 || !is_space(run[at - 1]),
    ensures
        leading_space_start(run, start, floor) == at,
    decreases start - at,
{
    if start > at {
        lemma_leading_space_floor(run, at, start - 1, floor);
    }
}

/// The whitespace before the `j`th attribute reaches back to where the one before it ended, from
/// any floor at or before that.
proof fn lemma_reaches_back(run: Seq<u8>, j: int, floor: int)
    requires
        0 <= j < attributes_of(run).len(),
        0 <= floor <= attribute_start(attributes_of(run), j),
    ensures
        leading_space_start(run, attributes_of(run)[j].name_start, floor) == attribute_start(
            attributes_of(run),
            j,
        ),
{
    let found = attributes_of(run);
    lemma_attributes_suffix(run, j);
    let at = attribute_start(found, j);
    lemma_attribute_at(run, at);
    lemma_attribute_parts(run, at);
    if j > 0 {
        lemma_attributes_suffix(run, j - 1);
        lemma_attribute_parts(run, attribute_start(found, j - 1));
        assert(is_quote(run[at - 1]));
    }
    lemma_leading_space_floor(run, at, found[j].name_start, floor);
}

/// Where the scan meets the attributes only moves forward.
proof fn lemma_attribute_start_grows(run: Seq<u8>, i: int, j: int)
    requires
        0 <= i <= j <= attributes_of(run).len(),
    ensures
        attribute_start(attributes_of(run), i) <= attribute_start(attributes_of(run), j),
        j < attributes_of(run).len() ==> attribute_start(attributes_of(run), i)
            <= attributes_of(run)[j].name_start,
{
    let found = attributes_of(run);
    lemma_attributes_from(run, 0);
    lemma_attributes_suffix(run, j);
    if j < found.len() {
        lemma_attribute_at(run, attribute_start(found, j));
    }
    if 0 < i < j {
        assert(found[i - 1].end() <= found[j - 1].name_start);
    }
}

/// Once every later attribute named `name` is dropped, the rewrite from the `j`th on copies the
/// run from `copied` as it would from any later point up to where the scan meets the `j`th.
proof fn lemma_rewrite_copies_from(
    run: Seq<u8>,
    j: int,
    copied: int,
    from: int,
    written: bool,
    name: Seq<u8>,
    value: Option<Seq<u8>>,
)
    requires
        written || value is None,
        0 <= j <= attributes_of(run).len(),
        0 <= copied <= from <= attribute_start(attributes_of(run), j),
        from <= run.len(),
    ensures
        rewritten_from(run, attributes_of(run), j, copied, written, name, value) == run.subrange(
            copied,
            from,
        ) + rewritten_from(run, attributes_of(run), j, from, written, name, value),
    decreases attributes_of(run).len() - j,
{
    let found = attributes_of(run);
    lemma_attributes_suffix(run, j);
    if j < found.len() {
        lemma_attribute_start_grows(run, j, j + 1);
        lemma_attributes_suffix(run, j + 1);
        if name_bytes(run, found[j]) != name {
            lemma_rewrite_copies_from(run, j + 1, copied, from, written, name, value);
        } else {
            lemma_reaches_back(run, j, copied);
            lemma_reaches_back(run, j, from);
            let at = attribute_start(found, j);
            assert(run.subrange(copied, at) =~= run.subrange(copied, from) + run.subrange(from, at));
        }
    } else {
        assert(run.subrange(copied, run.len() as int) =~= run.subrange(copied, from) + run.subrange(
            from,
            run.len() as int,
        ));
    }
}

/// A scan from `at` in `text` finds what the scan from `other_at` in `other` finds, moved along,
/// when the two agree from there up to past that attribute's value.
proof fn lemma_attribute_at_window(text: Seq<u8>, at: int, other: Seq<u8>, other_at: int, limit: int)
    requires
        0 <= at <= text.len(),
        0 <= other_at <= limit <= other.len(),
        at + (limit - other_at) <= text.len(),
        forall|k: int| other_at <= k < limit ==> #[trigger] other[k] == text[k + (at - other_at)],
        attribute_at(other, other_at) matches Some(found) && found.value_end < limit,
    ensures
        attribute_at(text, at) == Some(shifted(attribute_at(other, other_at)->Some_0, at - other_at)),
{
    let d = at - other_at;
    let name_start = skip_space(other, other_at);
    lemma_skip_space(other, other_at);
    let name_end = name_stop(other, name_start);
    lemma_name_stop(other, name_start);
    let equals = skip_space(other, name_end);
    lemma_skip_space(other, name_end);
    let quote_at = skip_space(other, equals + 1);
    lemma_skip_space(other, equals + 1);
    let quote = other[quote_at];
    let value_end = quote_close(other, quote_at + 1, quote);
    lemma_quote_close(other, quote_at + 1, quote);
    assert forall|k: int| at <= k < name_start + d implies is_space(#[trigger] text[k]) by {
        assert(other[k - d] == text[k]);
    }
    assert(other[name_start] == text[name_start + d]);
    lemma_skip_space_to(text, at, name_start + d);
    assert forall|k: int| name_start + d <= k < name_end + d implies !is_space(#[trigger] text[k])
        && text[k] != 61u8 by {
        assert(other[k - d] == text[k]);
    }
    assert(other[name_end] == text[name_end + d]);
    lemma_name_stop_to(text, name_start + d, name_end + d);
    assert forall|k: int| name_end + d <= k < equals + d implies is_space(#[trigger] text[k]) by {
        assert(other[k - d] == text[k]);
    }
    assert(other[equals] == text[equals + d]);
    lemma_skip_space_to(text, name_end + d, equals + d);
    assert forall|k: int| equals + 1 + d <= k < quote_at + d implies is_space(#[trigger] text[k]) by {
        assert(other[k - d] == text[k]);
    }
    assert(other[quote_at] == text[quote_at + d]);
    lemma_skip_space_to(text, equals + 1 + d, quote_at + d);
    assert forall|k: int| quote_at + 1 + d <= k < value_end + d implies #[trigger] text[k] != quote by {
        assert(other[k - d] == text[k]);
    }
    assert(other[value_end] == text[value_end + d]);
    lemma_quote_close_to(text, quote_at + 1 + d, value_end + d, quote);
}


/// Once every attribute named `name` from the `i`th on is dropped, a text holding, from `at` on,
/// what the rewrite writes from where the scan meets the `i`th lists there the run's other
/// attributes, read the same, in order.
#[verifier::rlimit(30)]
proof fn lemma_dropped_tail(
    run: Seq<u8>,
    i: int,
    text: Seq<u8>,
    at: int,
    written: bool,
    name: Seq<u8>,
    value: Option<Seq<u8>>,
)
    requires
        written || value is None,
        0 <= i <= attributes_of(run).len(),
        0 <= at <= text.len(),
        text.subrange(at, text.len() as int) == rewritten_from(
            run,
            attributes_of(run),
            i,
            attribute_start(attributes_of(run), i),
            written,
            name,
            value,
        ),
    ensures
        pairs_of(text, attributes_from(text, at)) == kept_pairs(run, attributes_of(run), name, i),
    decreases attributes_of(run).len() - i,
{
    let found = attributes_of(run);
    let c = attribute_start(found, i);
    lemma_attributes_suffix(run, i);
    if i == found.len() {
        let tail = run.subrange(c, run.len() as int);
        assert(rewritten_from(run, found, i, c, written, name, value) =~= tail);
        assert forall|k: int| at <= k < text.len() implies #[trigger] text[k] == run[k - (at - c)] by {
            assert(text.subrange(at, text.len() as int)[k - at] == tail[k - at]);
        }
        lemma_attributes_from_same_tail(text, at, run, c);
        assert(found.subrange(i, found.len() as int) =~= Seq::<AttributeSpan>::empty());
        assert(pairs_of(text, attributes_from(text, at)) =~= Seq::<(Seq<u8>, Seq<u8>)>::empty());
    } else {
        let here = found[i];
        let e = here.end();
        lemma_attributes_suffix(run, i + 1);
        lemma_attribute_at(run, c);
        if name_bytes(run, here) != name {
            lemma_rewrite_copies_from(run, i + 1, c, e, written, name, value);
            let rest = rewritten_from(run, found, i + 1, e, written, name, value);
            let d = at - c;
            assert(text.subrange(at, text.len() as int) == run.subrange(c, e) + rest);
            assert forall|k: int| c <= k < e implies #[trigger] run[k] == text[k + d] by {
                assert(text.subrange(at, text.len() as int)[k - c] == run.subrange(c, e)[k - c]);
            }
            lemma_attribute_at_window(text, at, run, c, e);
            let whole = text.subrange(at, text.len() as int);
            assert(whole.len() == (e - c) + rest.len());
            assert forall|k: int| 0 <= k < rest.len() implies #[trigger] text.subrange(
                e + d,
                text.len() as int,
            )[k] == rest[k] by {
                assert(whole[(e - c) + k] == (run.subrange(c, e) + rest)[(e - c) + k]);
            }
            assert(text.subrange(e + d, text.len() as int) =~= rest);
            lemma_dropped_tail(run, i + 1, text, e + d, written, name, value);
            let moved = shifted(here, d);
            assert(attributes_from(text, at) == seq![moved].add(attributes_from(text, e + d)));
            assert(text.subrange(moved.name_start, moved.name_end) =~= run.subrange(
                here.name_start,
                here.name_end,
            ));
            assert(text.subrange(moved.value_start, moved.value_end) =~= run.subrange(
                here.value_start,
                here.value_end,
            ));
            assert(pairs_of(text, attributes_from(text, at)) =~= seq![pair_of(run, here)] + pairs_of(
                text,
                attributes_from(text, e + d),
            ));
        } else {
            lemma_reaches_back(run, i, c);
            assert(run.subrange(c, c) =~= Seq::<u8>::empty());
            assert(rewritten_from(run, found, i, c, written, name, value) =~= rewritten_from(
                run,
                found,
                i + 1,
                e,
                written,
                name,
                value,
            ));
            lemma_dropped_tail(run, i + 1, text, at, written, name, value);
        }
    }
}


/// The attributes kept from the `i`th on carry names other than `name`.
proof fn lemma_kept_names(run: Seq<u8>, found: Seq<AttributeSpan>, name: Seq<u8>, i: int)
    ensures
        forall|k: int|
            0 <= k < kept_pairs(run, found, name, i).len() ==> (#[trigger] kept_pairs(
                run,
                found,
                name,
                i,
            )[k]).0 != name,
    decreases found.len() - i,
{
    if 0 <= i < found.len() {
        lemma_kept_names(run, found, name, i + 1);
        if name_bytes(run, found[i]) == name {
            assert(kept_pairs(run, found, name, i) == kept_pairs(run, found, name, i + 1));
        } else {
            let rest = kept_pairs(run, found, name, i + 1);
            assert forall|k: int| 0 <= k < kept_pairs(run, found, name, i).len() implies (
            #[trigger] kept_pairs(run, found, name, i)[k]).0 != name by {
                if k == 0 {
                    assert(kept_pairs(run, found, name, i)[0] == pair_of(run, found[i]));
                } else {
                    assert(kept_pairs(run, found, name, i)[k] == rest[k - 1]);
                }
            }
        }
    }
}

/// Before the first attribute named `name`, every attribute is kept.
proof fn lemma_kept_split(run: Seq<u8>, found: Seq<AttributeSpan>, name: Seq<u8>, i: int, m: int)
    requires
        0 <= i <= m < found.len(),
        name_bytes(run, found[m]) == name,
        forall|j: int| i <= j < m ==> name_bytes(run, #[trigger] found[j]) != name,
    ensures
        kept_pairs(run, found, name, i) == pairs_of(run, found.subrange(i, m)) + kept_pairs(
            run,
            found,
            name,
            m + 1,
        ),
    decreases m - i,
{
    if i < m {
        lemma_kept_split(run, found, name, i + 1, m);
        assert(pairs_of(run, found.subrange(i, m)) =~= seq![pair_of(run, found[i])] + pairs_of(
            run,
            found.subrange(i + 1, m),
        ));
    } else {
        assert(pairs_of(run, found.subrange(i, m)) =~= Seq::<(Seq<u8>, Seq<u8>)>::empty());
    }
}

/// The `m`th attribute of a run is found where it was in any text holding the run's bytes up to
/// its value, then `value`, then the quote that closes it.
proof fn lemma_renewed_found_in(run: Seq<u8>, value: Seq<u8>, m: int, written: Seq<u8>)
    requires
        0 <= m < attributes_of(run).len(),
        same_head(written, run, attributes_of(run)[m].value_start),
        attributes_of(run)[m].value_start + value.len() < written.len(),
        forall|k: int|
            0 <= k < value.len() ==> #[trigger] written[attributes_of(run)[m].value_start + k]
                == value[k],
        forall|k: int|
            0 <= k < value.len() ==> #[trigger] value[k] != run[attributes_of(run)[m].value_start - 1],
        written[attributes_of(run)[m].value_start + value.len()] == run[attributes_of(
            run,
        )[m].value_start - 1],
    ensures
        attribute_at(written, attribute_start(attributes_of(run), m)) == Some(
            AttributeSpan {
                value_end: attributes_of(run)[m].value_start + value.len(),
                ..attributes_of(run)[m]
            },
        ),
{
    let found = attributes_of(run);
    lemma_attributes_suffix(run, m);
    let at = attribute_start(found, m);
    lemma_attribute_at(run, at);
    lemma_attribute_parts(run, at);
    let here = found[m];
    let new_end = here.value_start + value.len();
    let quote = run[here.value_start - 1];
    assert forall|k: int| here.value_start <= k < new_end implies #[trigger] written[k] != quote by {
        assert(written[here.value_start + (k - here.value_start)] == value[k - here.value_start]);
    }
    let name_start = skip_space(run, at);
    lemma_skip_space(run, at);
    let name_end = name_stop(run, name_start);
    lemma_name_stop(run, name_start);
    let equals = skip_space(run, name_end);
    lemma_skip_space(run, name_end);
    let quote_at = skip_space(run, equals + 1);
    lemma_skip_space(run, equals + 1);
    lemma_skip_space_to(written, at, name_start);
    lemma_name_stop_to(written, name_start, name_end);
    lemma_skip_space_to(written, name_end, equals);
    lemma_skip_space_to(written, equals + 1, quote_at);
    lemma_quote_close_to(written, quote_at + 1, new_end, quote);
}

/// How a run with its first attribute named `name` set to `value` lies: the run up to that
/// value, the value, and then what the rewrite keeps of the rest; its attributes are the run's
/// before the named one, the named one with the new value, and the kept ones after.
#[verifier::rlimit(30)]
proof fn lemma_rewritten_layout(run: Seq<u8>, name: Seq<u8>, value: Seq<u8>)
    requires
        value_of(run, name) is Some,
        forall|k: int| 0 <= k < value.len() ==> #[trigger] value[k] != 34u8 && value[k] != 39u8,
    ensures
        ({
            let written = set_attribute_spec(run, name, Some(value));
            let found = attributes_of(run);
            let m = first_named(run, found, name, 0);
            let here = found[m];
            let renewed = AttributeSpan { value_end: here.value_start + value.len(), ..here };
            let rest = attributes_from(written, renewed.end());
            &&& 0 <= m < found.len()
            &&& same_head(written, run, here.value_start)
            &&& written.subrange(renewed.value_start, renewed.value_end) == value
            &&& attributes_of(written) == found.subrange(0, m) + (seq![renewed] + rest)
            &&& pairs_of(written, rest) == kept_pairs(run, found, name, m + 1)
        }),
{
    let found = attributes_of(run);
    lemma_first_named(run, found, name, 0);
    let m = first_named(run, found, name, 0);
    let here = found[m];
    let some = Some(value);
    lemma_attributes_suffix(run, m);
    lemma_attributes_suffix(run, m + 1);
    let at = attribute_start(found, m);
    lemma_attribute_at(run, at);
    lemma_attribute_parts(run, at);
    let e = here.end();
    lemma_rewrite_skips(run, found, 0, m, 0, false, name, some);
    lemma_rewrite_copies_from(run, m + 1, here.value_end, e, true, name, some);
    let tail = rewritten_from(run, found, m + 1, e, true, name, some);
    let head = run.subrange(0, here.value_start);
    let closing = run.subrange(here.value_end, e);
    let written = set_attribute_spec(run, name, some);
    assert(written =~= head + value + closing + tail);
    let new_end = here.value_start + value.len();
    assert(written[new_end] == closing[0]);
    assert forall|k: int| 0 <= k < value.len() implies #[trigger] written[here.value_start + k] == value[k] by {}
    assert(same_head(written, run, here.value_start));
    lemma_renewed_found_in(run, value, m, written);
    let renewed = AttributeSpan { value_end: new_end, ..here };
    lemma_attributes_same_head(written, run, 0, m, here.value_start);
    assert(written.subrange(renewed.end(), written.len() as int) =~= tail);
    lemma_dropped_tail(run, m + 1, written, renewed.end(), true, name, some);
    let rest = attributes_from(written, renewed.end());
    assert(attributes_from(written, at) == seq![renewed].add(rest));
    assert(attribute_start(found, 0) == 0);
    assert(attributes_of(written) =~= found.subrange(0, m) + (seq![renewed] + rest));
    assert(written.subrange(renewed.value_start, renewed.value_end) =~= value);
}

/// **Setting a present attribute rewrites the first and drops the rest.** Setting a name a run
/// carries, to a value holding no quote character, gives a run whose attributes are the run's
/// own, in order and read the same: the first one named so now carries the value, in its place,
/// and every later one named so is gone. Reading the name gives the value set.
#[verifier::rlimit(30)]
pub proof fn law_present_attribute_is_rewritten(run: Seq<u8>, name: Seq<u8>, value: Seq<u8>)
    requires
        value_of(run, name) is Some,
        forall|k: int| 0 <= k < value.len() ==> #[trigger] value[k] != 34u8 && value[k] != 39u8,
    ensures
        ({
            let written = set_attribute_spec(run, name, Some(value));
            let found = attributes_of(run);
            let m = first_named(run, found, name, 0);
            &&& value_of(written, name) == Some(value)
            &&& pairs_of(written, attributes_of(written)) == pairs_of(run, found.subrange(0, m))
                + seq![(name, value)] + kept_pairs(run, found, name, m + 1)
        }),
{
    let found = attributes_of(run);
    lemma_first_named(run, found, name, 0);
    let m = first_named(run, found, name, 0);
    let here = found[m];
    lemma_rewritten_layout(run, name, value);
    let written = set_attribute_spec(run, name, Some(value));
    let renewed = AttributeSpan { value_end: here.value_start + value.len(), ..here };
    let rest = attributes_from(written, renewed.end());
    let after = attributes_of(written);
    lemma_attributes_from(run, 0);
    lemma_attributes_suffix(run, m);
    lemma_attribute_at(run, attribute_start(found, m));
    assert forall|j: int| 0 <= j < m implies #[trigger] pair_of(written, found[j]) == pair_of(run, found[j]) by {
        let f = found[j];
        assert(f.end() <= here.name_start);
        assert(written.subrange(f.name_start, f.name_end) =~= run.subrange(f.name_start, f.name_end));
        assert(written.subrange(f.value_start, f.value_end) =~= run.subrange(f.value_start, f.value_end));
    }
    assert(written.subrange(renewed.name_start, renewed.name_end) =~= run.subrange(
        here.name_start,
        here.name_end,
    ));
    assert(pairs_of(written, after) =~= pairs_of(run, found.subrange(0, m)) + seq![(name, value)]
        + kept_pairs(run, found, name, m + 1));
    assert forall|j: int| 0 <= j < m implies name_bytes(written, #[trigger] found.subrange(0, m)[j])
        != name by {
        assert(pair_of(written, found[j]) == pair_of(run, found[j]));
    }
    lemma_lookup_past(written, found.subrange(0, m), seq![renewed] + rest, 0, name);
    assert((found.subrange(0, m) + (seq![renewed] + rest))[m] == renewed);
}

/// How a run with every attribute named `name` removed lies: the run up to where the first one's
/// whitespace begins, and then what the rewrite keeps of the rest; its attributes are the run's
/// before the first named one, and the kept ones after.
#[verifier::rlimit(30)]
proof fn lemma_removed_layout(run: Seq<u8>, name: Seq<u8>)
    requires
        value_of(run, name) is Some,
    ensures
        ({
            let written = set_attribute_spec(run, name, None);
            let found = attributes_of(run);
            let m = first_named(run, found, name, 0);
            let at = attribute_start(found, m);
            let rest = attributes_from(written, at);
            &&& 0 <= m < found.len()
            &&& same_head(written, run, at)
            &&& attributes_of(written) == found.subrange(0, m) + rest
            &&& pairs_of(written, rest) == kept_pairs(run, found, name, m + 1)
        }),
{
    let found = attributes_of(run);
    lemma_first_named(run, found, name, 0);
    let m = first_named(run, found, name, 0);
    let here = found[m];
    let none = None::<Seq<u8>>;
    lemma_attributes_suffix(run, m);
    lemma_attributes_suffix(run, m + 1);
    let at = attribute_start(found, m);
    lemma_attribute_at(run, at);
    lemma_rewrite_skips(run, found, 0, m, 0, false, name, none);
    lemma_reaches_back(run, m, 0);
    let tail = rewritten_from(run, found, m + 1, here.end(), false, name, none);
    let written = set_attribute_spec(run, name, none);
    assert(written =~= run.subrange(0, at) + tail);
    assert(same_head(written, run, at));
    lemma_attributes_same_head(written, run, 0, m, at);
    assert(written.subrange(at, written.len() as int) =~= tail);
    lemma_dropped_tail(run, m + 1, written, at, false, name, none);
    assert(attribute_start(found, 0) == 0);
}

/// **Removing a present attribute drops every one named so.** Removing a name a run carries gives
/// a run that carries it no more, whose attributes are the run's others, in order and read the
/// same; each attribute goes with the whitespace before it.
#[verifier::rlimit(30)]
pub proof fn law_present_attribute_is_removed(run: Seq<u8>, name: Seq<u8>)
    requires
        value_of(run, name) is Some,
    ensures
        ({
            let written = set_attribute_spec(run, name, None);
            &&& value_of(written, name) is None
            &&& pairs_of(written, attributes_of(written)) == kept_pairs(run, attributes_of(run), name, 0)
        }),
{
    let found = attributes_of(run);
    lemma_first_named(run, found, name, 0);
    let m = first_named(run, found, name, 0);
    lemma_removed_layout(run, name);
    let written = set_attribute_spec(run, name, None);
    let at = attribute_start(found, m);
    let rest = attributes_from(written, at);
    let after = attributes_of(written);
    lemma_attributes_from(run, 0);
    lemma_attributes_suffix(run, m);
    lemma_attribute_at(run, at);
    assert forall|j: int| 0 <= j < m implies #[trigger] pair_of(written, found[j]) == pair_of(run, found[j]) by {
        let f = found[j];
        assert(f.end() <= at) by {
            if j + 1 < m {
                assert(f.end() <= found[m - 1].name_start);
            }
        }
        assert(written.subrange(f.name_start, f.name_end) =~= run.subrange(f.name_start, f.name_end));
        assert(written.subrange(f.value_start, f.value_end) =~= run.subrange(f.value_start, f.value_end));
    }
    assert(pairs_of(written, after) =~= pairs_of(run, found.subrange(0, m)) + pairs_of(written, rest));
    lemma_kept_split(run, found, name, 0, m);
    lemma_kept_names(run, found, name, m + 1);
    assert forall|j: int| 0 <= j < after.len() implies name_bytes(written, #[trigger] after[j]) != name by {
        assert(pairs_of(written, after)[j] == pair_of(written, after[j]));
        if j < m {
            assert(after[j] == found[j]);
            assert(pair_of(written, found[j]) == pair_of(run, found[j]));
        } else {
            assert(pairs_of(written, after)[j] == kept_pairs(run, found, name, m + 1)[j - m]);
        }
    }
    lemma_lookup_past(written, after, Seq::<AttributeSpan>::empty(), 0, name);
    assert(after + Seq::<AttributeSpan>::empty() =~= after);
}

} // verus!
