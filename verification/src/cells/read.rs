//! Reading a `sheetData` element into the packed store.
//!
//! # What the reader is handed
//!
//! A [`SourceElement`] tree: each element's name, its attributes as written (raw, and decoded
//! where they decode), its children, the byte range it occupied in the part's buffer when it
//! still has one, and its own serialized markup for the path that has no range to point at.
//!
//! # Where the byte ranges come from
//!
//! A row's gap — the whitespace, comment or foreign element between the previous row and this
//! one — is not read off the nodes at all. It is *derived*: `[end of the last row, start of this
//! one)` in the parent's own range. That is exact and allocates nothing, and it is sound because a
//! `sheetData` that still has a range is one in which every parsed descendant still has one. So:
//!
//! * The element still has a usable range → every gap is a range, nothing is copied, and an
//!   untouched worksheet's store owns no bytes at all.
//! * It does not → the nodes between rows are copied into the store's own byte arena, from their
//!   serialized markup.
//!
//! # What is an error and what is preserved
//!
//! Exactly one thing a file can say is refused: a `c@r` that is not a cell reference, because the
//! store is *keyed* on that value. Everything else — rows out of order, duplicated row numbers, a
//! `c@r` naming a different row than its `row@r` does, a `t` that disagrees with the child element
//! present, cells out of column order — is read as it stands and reported by
//! [`SheetData::anomalies`](super::store::SheetData::anomalies). Nothing here sorts, deduplicates
//! or repairs.

use vstd::prelude::*;

use crate::address::{AddressError, Anchoring, CellReference, MAX_COLUMN, MAX_ROW, parse_reference_spec};
use crate::decimal::{parse_decimal, parse_decimal_spec};
use crate::arena::decompose::{
    ElementLayout, layout_in_arena, layout_spec, lemma_decompose_bounds, span_between,
    span_present_between,
};
use crate::arena::text::{MAXIMUM_ADDRESS, TextArena, TextSpan};
use crate::error::SmlError;

use super::cell_type::{CellType, from_wire_spec};
use super::model::{
    CellModel, RowModel, cell_model, cell_spans_ok, columns_ascend_in, extends, extras_of,
    extras_spans_ok, extras_unshared, fresh_cells, lemma_commit_row, lemma_extras_grow,
    lemma_extras_of_ok, lemma_rows_stable, lemma_span_stable, lemma_store_extends, records_wf,
    row_model, row_spans_ok, rows_model, rows_strictly_ascending, span_bytes, span_ok,
};
use super::store::SheetData;
use super::record::{
    CellExtras, CellTypeCode, NO_EXTRAS, PackedCell, PackedRow, PayloadShape, code_of,
    flags_with_shape, has_flag, lemma_shape_bits, shape_of_flags,
};
use super::write::{
    canonical_run, local_is, local_row, local_v, qualified, write_canonical_attribute_run,
};

verus! {

/// One attribute of a parsed element, as the file wrote it.
#[derive(Debug, Clone)]
pub struct SourceAttribute {
    /// The namespace prefix, when the name carries one.
    pub prefix: Option<Vec<u8>>,
    /// The local name.
    pub local: Vec<u8>,
    /// The quote character the value was written between, `"` or `'`.
    pub quote: u8,
    /// The value's raw bytes, still escaped.
    pub value: Vec<u8>,
    /// The value with its references resolved, when it is text and they resolve.
    pub text: Option<Vec<u8>>,
}

/// One parsed element: its name, attributes, children, and where it came from.
#[derive(Debug)]
pub struct SourceElement {
    /// The namespace prefix, when the name carries one.
    pub prefix: Option<Vec<u8>>,
    /// The local name.
    pub local: Vec<u8>,
    /// The attributes, in the order the file wrote them.
    pub attributes: Vec<SourceAttribute>,
    /// The children, in document order.
    pub children: Vec<SourceNode>,
    /// The byte range `start..end` the element occupied in the part's buffer, while it still
    /// describes this element.
    pub span: Option<(u32, u32)>,
    /// Whether the element was written `<name/>`.
    pub empty: bool,
    /// The element serialized, for a reader with no range to copy from.
    pub markup: Vec<u8>,
}

/// One child of a parsed element.
#[derive(Debug)]
pub enum SourceNode {
    /// An element.
    Element(SourceElement),
    /// Character data, serialized.
    Text(Vec<u8>),
    /// Anything else — a comment, a CDATA section, a processing instruction — serialized.
    Other(Vec<u8>),
}

/// An element's qualified name: `prefix:local`, or `local` alone.
pub open spec fn qualified_name(element: SourceElement) -> Seq<u8> {
    qualified(
        match element.prefix {
            Some(prefix) => Some(prefix@),
            None => None,
        },
        element.local@,
    )
}

/// The decoded value of the first unprefixed attribute named `name`, searching from `i`; `None`
/// when there is none, or when that one's value does not decode.
pub open spec fn attribute_text_from(attributes: Seq<SourceAttribute>, name: Seq<u8>, i: int) -> Option<
    Seq<u8>,
>
    decreases attributes.len() - i,
{
    if i < 0 || i >= attributes.len() {
        None
    } else if attributes[i].prefix is None && attributes[i].local@ == name {
        match attributes[i].text {
            Some(text) => Some(text@),
            None => None,
        }
    } else {
        attribute_text_from(attributes, name, i + 1)
    }
}

/// The decoded value of `element`'s unprefixed attribute `name`.
pub open spec fn attribute_text_spec(element: SourceElement, name: Seq<u8>) -> Option<Seq<u8>> {
    attribute_text_from(element.attributes@, name, 0)
}

/// The attribute run rebuilt from the model, in the one spelling this crate writes: each
/// attribute after one space, its value between the quotes it was written with.
pub open spec fn rebuilt_run(attributes: Seq<SourceAttribute>) -> Seq<u8>
    decreases attributes.len(),
{
    if attributes.len() == 0 {
        Seq::empty()
    } else {
        let last = attributes.last();
        rebuilt_run(attributes.drop_last()) + seq![32u8] + qualified(
            match last.prefix {
                Some(prefix) => Some(prefix@),
                None => None,
            },
            last.local@,
        ) + seq![61u8, last.quote] + last.value@ + seq![last.quote]
    }
}

/// Whether `span` is absent or lies inside the part's own bytes.
pub open spec fn in_source(arena: TextArena, span: TextSpan) -> bool {
    span.absent() || span.spec_end() <= arena.source_bytes().len()
}

/// The span an element's range names in the arena: its own bytes, when the range lies inside
/// the part's buffer.
pub open spec fn extent_spec(arena: TextArena, element: SourceElement) -> TextSpan {
    match element.span {
        Some((start, end)) => if end < start || end > arena.source_bytes().len() {
            TextSpan::spec_none()
        } else {
            TextSpan { start, length: (end - start) as u32 }
        },
        None => TextSpan::spec_none(),
    }
}

/// The element's own byte range, as an arena span, or none.
fn extent_of(arena: &TextArena, element: &SourceElement) -> (span: TextSpan)
    requires
        arena.wf(),
    ensures
        span == extent_spec(*arena, *element),
        in_source(*arena, span),
{
    match element.span {
        Some((start, end)) => arena.span_in_source(start, end),
        None => TextSpan::none(),
    }
}

/// Appends `element`'s qualified name to `out`.
fn push_qualified_name(element: &SourceElement, out: &mut Vec<u8>)
    ensures
        final(out)@ == old(out)@ + qualified_name(*element),
{
    let ghost start = out@;
    match &element.prefix {
        Some(prefix) => {
            out.extend_from_slice(prefix.as_slice());
            out.push(58u8);
        },
        None => {},
    }
    out.extend_from_slice(element.local.as_slice());
    proof {
        assert(out@ =~= start + qualified_name(*element));
    }
}

/// Where a layout lies: its attribute run and content inside its extent, which lies inside the
/// part's bytes.
pub open spec fn layout_in_source(arena: TextArena, extent: TextSpan, layout: ElementLayout) -> bool {
    &&& !layout.attribute_run.absent()
    &&& extent.start <= layout.attribute_run.start
    &&& layout.attribute_run.spec_end() < layout.inner_start
    &&& layout.inner_start <= layout.inner_end
    &&& layout.inner_end <= extent.spec_end()
    &&& extent.spec_end() <= arena.source_bytes().len()
}

/// Splits the element's extent into its attribute run and its content, or `None` when the bytes
/// do not describe this element after all.
///
/// The range is **untrusted**: it must open with `<` and this element's qualified name, and close
/// the way the element says it closes. Anything else falls back to building from the model — a
/// reflow, never wrong bytes.
fn layout_of(arena: &TextArena, element: &SourceElement, extent: TextSpan) -> (layout: Option<
    ElementLayout,
>)
    requires
        arena.wf(),
        in_source(*arena, extent),
    ensures
        layout == layout_spec(arena.resolve(extent), qualified_name(*element), extent),
        layout matches Some(found) ==> layout_in_source(*arena, extent, found),
{
    if extent.is_none() {
        return None;
    }
    let bytes = arena.bytes(extent);
    if bytes.len() == 0 {
        return None;
    }
    let mut qname: Vec<u8> = Vec::new();
    push_qualified_name(element, &mut qname);
    proof {
        arena.lemma_bounded();
        assert(qname@ =~= qualified_name(*element));
        lemma_decompose_bounds(bytes@, qname@);
    }
    layout_in_arena(bytes, qname.as_slice(), extent)
}

/// The attribute run for an element with no usable range: rebuilt from the model, in the one
/// spelling this crate writes, and stored.
fn rebuild_attribute_run(arena: &mut TextArena, element: &SourceElement) -> (stored: Result<
    TextSpan,
    SmlError,
>)
    requires
        old(arena).wf(),
    ensures
        final(arena).wf(),
        extends(*old(arena), *final(arena)),
        match stored {
            Ok(span) => {
                &&& span_ok(*final(arena), span)
                &&& span_bytes(*final(arena), span) == Some(rebuilt_run(element.attributes@))
            },
            Err(error) => error is SheetDataTooLarge,
        },
        stored_total(*old(arena), *final(arena), rebuilt_run(element.attributes@).len() as int, stored is Ok),
{
    proof {
        arena.lemma_bounded();
    }
    let mut run: Vec<u8> = Vec::new();
    let mut i: usize = 0;
    while i < element.attributes.len()
        invariant
            i <= element.attributes@.len(),
            run@ == rebuilt_run(element.attributes@.subrange(0, i as int)),
        decreases element.attributes@.len() - i,
    {
        let attribute = &element.attributes[i];
        let ghost before = run@;
        run.push(32u8);
        match &attribute.prefix {
            Some(prefix) => {
                run.extend_from_slice(prefix.as_slice());
                run.push(58u8);
            },
            None => {},
        }
        run.extend_from_slice(attribute.local.as_slice());
        run.push(61u8);
        run.push(attribute.quote);
        run.extend_from_slice(attribute.value.as_slice());
        run.push(attribute.quote);
        proof {
            let seen = element.attributes@.subrange(0, i + 1);
            assert(seen.drop_last() =~= element.attributes@.subrange(0, i as int));
            assert(seen.last() == *attribute);
            assert(run@ =~= before + seq![32u8] + qualified(
                match attribute.prefix {
                    Some(prefix) => Some(prefix@),
                    None => None,
                },
                attribute.local@,
            ) + seq![61u8, attribute.quote] + attribute.value@ + seq![attribute.quote]);
        }
        i = i + 1;
    }
    proof {
        assert(element.attributes@.subrange(0, i as int) =~= element.attributes@);
    }
    let ghost before = *arena;
    let stored = arena.store(run.as_slice());
    proof {
        match stored {
            Ok(_) => lemma_store_extends(before, *arena, run@),
            Err(_) => lemma_store_extends(before, *arena, Seq::<u8>::empty()),
        }
    }
    stored
}

/// The decoded value of `element`'s unprefixed attribute `name`, when it has one that decodes.
fn attribute_text<'e>(element: &'e SourceElement, name: &[u8]) -> (text: Option<&'e [u8]>)
    ensures
        match attribute_text_spec(*element, name@) {
            Some(bytes) => text matches Some(found) && found@ == bytes,
            None => text is None,
        },
{
    let mut i: usize = 0;
    while i < element.attributes.len()
        invariant
            i <= element.attributes@.len(),
            attribute_text_spec(*element, name@) == attribute_text_from(
                element.attributes@,
                name@,
                i as int,
            ),
        decreases element.attributes@.len() - i,
    {
        let attribute = &element.attributes[i];
        if attribute.prefix.is_none() && crate::arena::attributes::bytes_equal(
            attribute.local.as_slice(),
            name,
        ) {
            return match &attribute.text {
                Some(text) => Some(text.as_slice()),
                None => None,
            };
        }
        i = i + 1;
    }
    None
}

/// A node's serialized markup.
pub open spec fn node_markup(node: SourceNode) -> Seq<u8> {
    match node {
        SourceNode::Element(element) => element.markup@,
        SourceNode::Text(text) => text@,
        SourceNode::Other(other) => other@,
    }
}

/// The markup of `nodes[from..to]`, end to end, leaving out the one at `skip`.
pub open spec fn nodes_markup(nodes: Seq<SourceNode>, from: int, to: int, skip: int) -> Seq<u8>
    decreases to - from,
{
    if to <= from {
        Seq::empty()
    } else if to - 1 == skip {
        nodes_markup(nodes, from, to - 1, skip)
    } else {
        nodes_markup(nodes, from, to - 1, skip) + node_markup(nodes[to - 1])
    }
}

/// Whether a node is character data.
pub open spec fn is_text(node: SourceNode) -> bool {
    node matches SourceNode::Text(_)
}

/// Appends the markup of `nodes[from..to]`, leaving out the one at `skip`.
fn push_nodes_markup(nodes: &Vec<SourceNode>, from: usize, to: usize, skip: usize, out: &mut Vec<u8>)
    requires
        from <= to <= nodes@.len(),
    ensures
        final(out)@ == old(out)@ + nodes_markup(nodes@, from as int, to as int, skip as int),
{
    let ghost start = out@;
    let mut i = from;
    while i < to
        invariant
            from <= i <= to <= nodes@.len(),
            out@ == start + nodes_markup(nodes@, from as int, i as int, skip as int),
        decreases to - i,
    {
        if i != skip {
            match &nodes[i] {
                SourceNode::Element(element) => out.extend_from_slice(element.markup.as_slice()),
                SourceNode::Text(text) => out.extend_from_slice(text.as_slice()),
                SourceNode::Other(other) => out.extend_from_slice(other.as_slice()),
            }
        }
        proof {
            assert(out@ =~= start + nodes_markup(nodes@, from as int, i + 1, skip as int));
        }
        i = i + 1;
    }
}

/// Where a cell's value element and formula are among its children: the first `<v>` or `<is>`,
/// and the first `<f>`.
struct ContentPlan {
    payload: Option<usize>,
    shape: PayloadShape,
    formula: Option<usize>,
}

/// The first child element from `from` on named `v` or `is`.
pub open spec fn first_value_element(nodes: Seq<SourceNode>, from: int) -> Option<int>
    decreases nodes.len() - from,
{
    if from < 0 || from >= nodes.len() {
        None
    } else {
        match nodes[from] {
            SourceNode::Element(element) => if element.local@ == local_v() || element.local@
                == local_is() {
                Some(from)
            } else {
                first_value_element(nodes, from + 1)
            },
            _ => first_value_element(nodes, from + 1),
        }
    }
}

/// The first child element from `from` on named `name`.
pub open spec fn first_named_index(nodes: Seq<SourceNode>, name: Seq<u8>, from: int) -> Option<int>
    decreases nodes.len() - from,
{
    if from < 0 || from >= nodes.len() {
        None
    } else {
        match nodes[from] {
            SourceNode::Element(element) => if element.local@ == name {
                Some(from)
            } else {
                first_named_index(nodes, name, from + 1)
            },
            _ => first_named_index(nodes, name, from + 1),
        }
    }
}

/// Whether every node is character data.
pub open spec fn only_text(nodes: Seq<SourceNode>) -> bool {
    forall|j: int| 0 <= j < nodes.len() ==> #[trigger] is_text(nodes[j])
}

/// The position of a cell's value element: its first `<v>` or `<is>`, unless that is a `<v>` whose
/// content is anything but text — a value the accessors cannot answer for, kept opaque instead.
pub open spec fn value_index(cell: SourceElement) -> Option<int> {
    match first_value_element(cell.children@, 0) {
        Some(p) => match cell.children@[p] {
            SourceNode::Element(value) => if value.local@ == local_v() && !only_text(value.children@) {
                None
            } else {
                Some(p)
            },
            _ => None,
        },
        None => None,
    }
}

/// The value element's shape: text in a `<v>`, an `<is>`, or none.
pub open spec fn content_shape(cell: SourceElement) -> PayloadShape {
    match value_index(cell) {
        Some(p) => match cell.children@[p] {
            SourceNode::Element(value) => if value.local@ == local_v() {
                PayloadShape::ValueText
            } else {
                PayloadShape::InlineString
            },
            _ => PayloadShape::Absent,
        },
        None => PayloadShape::Absent,
    }
}

/// The position of a cell's formula: its first `<f>`.
pub open spec fn formula_index(cell: SourceElement) -> Option<int> {
    first_named_index(cell.children@, seq![102u8], 0)
}

/// Whether an index found at run time is the one a spec names.
pub open spec fn same_index(found: Option<usize>, spec: Option<int>) -> bool {
    match found {
        Some(index) => spec == Some(index as int),
        None => spec is None,
    }
}

/// Finds the value element and the formula, by local name and in document order.
fn plan_content(element: &SourceElement) -> (plan: ContentPlan)
    ensures
        plan.payload matches Some(p) ==> p < element.children@.len() && element.children@[p as int] is Element,
        plan.formula matches Some(f) ==> f < element.children@.len() && element.children@[f as int] is Element,
        plan.payload is None ==> plan.shape == PayloadShape::Absent,
        plan.payload is Some ==> plan.shape != PayloadShape::Absent,
        same_index(plan.payload, value_index(*element)),
        same_index(plan.formula, formula_index(*element)),
        plan.shape == content_shape(*element),
{
    let v_name = vec![118u8];
    let is_name = vec![105u8, 115u8];
    let f_name = vec![102u8];
    proof {
        assert(v_name@ =~= local_v());
        assert(is_name@ =~= local_is());
        assert(f_name@ =~= seq![102u8]);
    }
    let ghost children = element.children@;
    let mut payload: Option<usize> = None;
    let mut shape = PayloadShape::Absent;
    let mut formula: Option<usize> = None;
    let mut i: usize = 0;
    while i < element.children.len()
        invariant
            i <= children.len(),
            children == element.children@,
            v_name@ == local_v(),
            is_name@ == local_is(),
            f_name@ == seq![102u8],
            payload matches Some(p) ==> p < i && children[p as int] is Element,
            formula matches Some(f) ==> f < i && children[f as int] is Element,
            payload is None ==> shape == PayloadShape::Absent,
            payload is None ==> first_value_element(children, 0) == first_value_element(
                children,
                i as int,
            ),
            payload matches Some(p) ==> first_value_element(children, 0) == Some(p as int) && shape == (
            if children[p as int]->Element_0.local@ == local_v() {
                PayloadShape::ValueText
            } else {
                PayloadShape::InlineString
            }),
            formula is None ==> first_named_index(children, seq![102u8], 0) == first_named_index(
                children,
                seq![102u8],
                i as int,
            ),
            formula matches Some(f) ==> first_named_index(children, seq![102u8], 0) == Some(f as int),
        decreases children.len() - i,
    {
        match &element.children[i] {
            SourceNode::Element(child) => {
                let local = child.local.as_slice();
                let is_v = crate::arena::attributes::bytes_equal(local, v_name.as_slice());
                let is_is = crate::arena::attributes::bytes_equal(local, is_name.as_slice());
                let is_f = crate::arena::attributes::bytes_equal(local, f_name.as_slice());
                if payload.is_none() && is_v {
                    payload = Some(i);
                    shape = PayloadShape::ValueText;
                } else if payload.is_none() && is_is {
                    payload = Some(i);
                    shape = PayloadShape::InlineString;
                } else if formula.is_none() && is_f {
                    formula = Some(i);
                }
                proof {
                    if is_f {
                        assert(local@[0] == 102u8);
                        assert(!is_v && !is_is) by {
                            assert(local_v()[0] == 118u8);
                            assert(local_is().len() == 2);
                        }
                    }
                }
            },
            _ => {},
        }
        i = i + 1;
    }
    let ghost found = payload;
    if let Some(index) = payload {
        if shape == PayloadShape::ValueText {
            if let SourceNode::Element(value) = &element.children[index] {
                let mut only: bool = true;
                let mut j: usize = 0;
                while j < value.children.len()
                    invariant
                        j <= value.children@.len(),
                        only == (forall|m: int| 0 <= m < j ==> #[trigger] is_text(value.children@[m])),
                    decreases value.children@.len() - j,
                {
                    let this = match &value.children[j] {
                        SourceNode::Text(_) => true,
                        _ => false,
                    };
                    proof {
                        assert(this == is_text(value.children@[j as int]));
                        if !this {
                            assert(!is_text(value.children@[j as int]));
                        }
                    }
                    only = only && this;
                    proof {
                        assert(only == (forall|m: int| 0 <= m < j + 1 ==> #[trigger] is_text(value.children@[m]))) by {
                            if !this {
                                assert(!is_text(value.children@[j as int]));
                            }
                        }
                    }
                    j = j + 1;
                }
                if !only {
                    payload = None;
                    shape = PayloadShape::Absent;
                }
            }
        }
    }
    ContentPlan { payload, shape, formula }
}

/// Whether the spans a cell's content was split into are absent or fit `arena`.
pub open spec fn content_fits(arena: TextArena, extras: CellExtras, payload: TextSpan) -> bool {
    &&& span_ok(arena, extras.formula)
    &&& span_ok(arena, extras.before_payload)
    &&& span_ok(arena, extras.after_payload)
    &&& span_ok(arena, payload)
}

/// A cell's content as the store splits it: its formula, the bytes before and after its value
/// element, the value's bytes — the text inside a `<v>`, or a whole `<is>` — and the value's shape.
pub struct ContentParts {
    /// The cell's `<f>`.
    pub formula: Option<Seq<u8>>,
    /// The children before the value element, or all of them when there is none.
    pub before: Option<Seq<u8>>,
    /// The children after the value element.
    pub after: Option<Seq<u8>>,
    /// The value's bytes.
    pub payload: Option<Seq<u8>>,
    /// The value's shape.
    pub shape: PayloadShape,
}

/// The cell's formula as the bytes its range covers.
pub open spec fn ranged_formula(source: Seq<u8>, cell: SourceElement) -> Option<Seq<u8>> {
    match formula_index(cell) {
        Some(f) => element_bytes(source, cell.children@[f]->Element_0),
        None => None,
    }
}

/// A cell's content split by ranges of the source, for a cell with layout `layout`: the gaps
/// either side of the value element's range, and the value inside it. A value element with no
/// range, or a `<v>` whose range does not describe it, leaves the whole content opaque.
pub open spec fn ranged_content(source: Seq<u8>, cell: SourceElement, layout: ElementLayout) -> ContentParts {
    let formula = ranged_formula(source, cell);
    let whole = ContentParts {
        formula,
        before: between_bytes(source, layout.inner_start as int, layout.inner_end as int),
        after: None,
        payload: None,
        shape: PayloadShape::Absent,
    };
    match value_index(cell) {
        None => whole,
        Some(p) => {
            let value = cell.children@[p]->Element_0;
            match element_range(source, value) {
                None => whole,
                Some(range) => if content_shape(cell) == PayloadShape::InlineString {
                    ContentParts {
                        formula,
                        before: between_bytes(source, layout.inner_start as int, range.0),
                        after: between_bytes(source, range.1, layout.inner_end as int),
                        payload: Some(source.subrange(range.0, range.1)),
                        shape: PayloadShape::InlineString,
                    }
                } else {
                    match element_layout(source, value) {
                        Some(inner) => ContentParts {
                            formula,
                            before: between_bytes(source, layout.inner_start as int, range.0),
                            after: between_bytes(source, range.1, layout.inner_end as int),
                            payload: Some(
                                source.subrange(inner.inner_start as int, inner.inner_end as int),
                            ),
                            shape: PayloadShape::ValueText,
                        },
                        None => whole,
                    }
                },
            }
        },
    }
}

/// A cell's content split from its children's markup, for a cell with no usable range.
pub open spec fn model_content(cell: SourceElement) -> ContentParts {
    let children = cell.children@;
    let count = children.len() as int;
    let skip = match value_index(cell) {
        Some(p) => p,
        None => count,
    };
    ContentParts {
        formula: match formula_index(cell) {
            Some(f) => Some(children[f]->Element_0.markup@),
            None => None,
        },
        before: nonempty(nodes_markup(children, 0, skip, skip)),
        after: nonempty(nodes_markup(children, skip + 1, count, skip)),
        payload: match value_index(cell) {
            Some(p) => {
                let value = children[p]->Element_0;
                Some(
                    if content_shape(cell) == PayloadShape::InlineString {
                        value.markup@
                    } else {
                        nodes_markup(
                            value.children@,
                            0,
                            value.children@.len() as int,
                            value.children@.len() as int,
                        )
                    },
                )
            },
            None => None,
        },
        shape: content_shape(cell),
    }
}

/// How many bytes a part holds: none for an absent one.
pub open spec fn part_len(part: Option<Seq<u8>>) -> int {
    match part {
        Some(bytes) => bytes.len() as int,
        None => 0,
    }
}

/// How many bytes a cell's content parts hold together: what storing them takes.
pub open spec fn content_need(parts: ContentParts) -> int {
    part_len(parts.formula) + part_len(parts.before) + part_len(parts.after) + part_len(parts.payload)
}

/// What storing a cell's content takes: nothing when the cell has a layout in `source`, and its
/// parts split from the children's markup otherwise.
pub open spec fn content_need_in(source: Seq<u8>, cell: SourceElement) -> int {
    match element_layout(source, cell) {
        Some(_) => 0,
        None => content_need(model_content(cell)),
    }
}

/// What storing an element's attribute run takes: nothing when the element has a layout in
/// `source`, and its rebuilt run otherwise.
pub open spec fn run_need(source: Seq<u8>, element: SourceElement) -> int {
    match element_layout(source, element) {
        Some(_) => 0,
        None => rebuilt_run(element.attributes@).len() as int,
    }
}

/// What reading a cell element stores beside the part's own bytes: its run and its content.
pub open spec fn cell_need(source: Seq<u8>, cell: SourceElement) -> int {
    run_need(source, cell) + content_need_in(source, cell)
}

/// What taking the gap before an element stores: the markup gathered since the one before it,
/// once the cursor is gone, and nothing while it lasts.
pub open spec fn lead_need(cursor: Option<u32>, pending: Seq<u8>) -> int {
    match cursor {
        Some(_) => 0,
        None => pending.len() as int,
    }
}

/// How a cell element's content splits: by ranges when the cell has a layout in `source`, and
/// from its children's markup otherwise.
pub open spec fn content_parts(source: Seq<u8>, cell: SourceElement) -> ContentParts {
    match element_layout(source, cell) {
        Some(layout) => ranged_content(source, cell, layout),
        None => model_content(cell),
    }
}

/// Whether the spans a cell's content was split into hold `parts`.
pub open spec fn content_read_as(
    arena: TextArena,
    extras: CellExtras,
    payload: TextSpan,
    shape: PayloadShape,
    parts: ContentParts,
) -> bool {
    &&& span_bytes(arena, extras.formula) == parts.formula
    &&& span_bytes(arena, extras.before_payload) == parts.before
    &&& span_bytes(arena, extras.after_payload) == parts.after
    &&& span_bytes(arena, payload) == parts.payload
    &&& shape == parts.shape
}

/// Splits a cell's content into "before the value", "the value" and "after the value", filling
/// in `extras` and answering with the value's span and shape.
///
/// With a layout every part is a range of the part's own bytes; without one each is stored from
/// the children's markup.
fn read_cell_content(
    arena: &mut TextArena,
    element: &SourceElement,
    layout: Option<ElementLayout>,
    extent: TextSpan,
    extras: &mut CellExtras,
) -> (content: Result<(TextSpan, PayloadShape), SmlError>)
    requires
        old(arena).wf(),
        in_source(*old(arena), extent),
        layout matches Some(found) ==> layout_in_source(*old(arena), extent, found),
        layout == element_layout(old(arena).source_bytes(), *element),
    ensures
        final(arena).wf(),
        extends(*old(arena), *final(arena)),
        layout is Some ==> *final(arena) == *old(arena) && content is Ok,
        final(arena).total() <= old(arena).total() + content_need_in(old(arena).source_bytes(), *element),
        content is Ok <==> old(arena).total() + content_need_in(old(arena).source_bytes(), *element)
            <= MAXIMUM_ADDRESS,
        final(extras).attributes == old(extras).attributes,
        final(extras).leading == old(extras).leading,
        match content {
            Ok((payload, shape)) => {
                &&& content_fits(*final(arena), *final(extras), payload)
                &&& content_read_as(
                    *final(arena),
                    *final(extras),
                    payload,
                    shape,
                    content_parts(old(arena).source_bytes(), *element),
                )
            },
            Err(error) => error is SheetDataTooLarge,
        },
{
    let ghost src = arena.source_bytes();
    let plan = plan_content(element);
    let layout = match layout {
        Some(layout) => layout,
        None => {
            return read_cell_content_from_model(arena, element, &plan, extras);
        },
    };
    proof {
        lemma_stays(*old(arena), *arena);
        arena.lemma_bounded();
    }
    let ghost whole = ContentParts {
        formula: ranged_formula(src, *element),
        before: between_bytes(src, layout.inner_start as int, layout.inner_end as int),
        after: None,
        payload: None,
        shape: PayloadShape::Absent,
    };
    extras.formula = TextSpan::none();
    extras.before_payload = TextSpan::none();
    extras.after_payload = TextSpan::none();
    if let Some(index) = plan.formula {
        if let SourceNode::Element(formula) = &element.children[index] {
            extras.formula = extent_of(arena, formula);
            proof {
                lemma_extent_bytes(*arena, *formula);
            }
        }
    }
    proof {
        assert(span_bytes(*arena, extras.formula) == ranged_formula(src, *element));
        lemma_between_bytes(*arena, layout.inner_start as int, layout.inner_end as int);
    }
    let payload_index = match plan.payload {
        Some(index) => index,
        None => {
            extras.before_payload = span_between(layout.inner_start, layout.inner_end);
            proof {
                lemma_content_in_source(*arena, *extras, TextSpan::none());
            }
            return Ok((TextSpan::none(), PayloadShape::Absent));
        },
    };
    let payload_element = match &element.children[payload_index] {
        SourceNode::Element(payload_element) => payload_element,
        _ => {
            extras.before_payload = span_between(layout.inner_start, layout.inner_end);
            proof {
                lemma_content_in_source(*arena, *extras, TextSpan::none());
            }
            return Ok((TextSpan::none(), PayloadShape::Absent));
        },
    };
    let payload_extent = extent_of(arena, payload_element);
    proof {
        lemma_extent_range(*arena, *payload_element);
        lemma_extent_bytes(*arena, *payload_element);
    }
    if payload_extent.is_none() {
        extras.before_payload = span_between(layout.inner_start, layout.inner_end);
        proof {
            lemma_content_in_source(*arena, *extras, TextSpan::none());
        }
        return Ok((TextSpan::none(), PayloadShape::Absent));
    }
    extras.before_payload = span_between(layout.inner_start, payload_extent.start());
    extras.after_payload = span_between(payload_extent.end(), layout.inner_end);
    proof {
        if layout.inner_start <= payload_extent.start {
            lemma_between_bytes(*arena, layout.inner_start as int, payload_extent.start as int);
        }
        if payload_extent.spec_end() <= layout.inner_end {
            lemma_between_bytes(*arena, payload_extent.spec_end(), layout.inner_end as int);
        }
    }
    let payload = match plan.shape {
        PayloadShape::InlineString => payload_extent,
        PayloadShape::ValueText => {
            match layout_of(arena, payload_element, payload_extent) {
                Some(value_layout) => {
                    let span = span_present_between(value_layout.inner_start, value_layout.inner_end);
                    proof {
                        lemma_run_bytes(*arena, span);
                    }
                    span
                },
                None => {
                    extras.before_payload = span_between(layout.inner_start, layout.inner_end);
                    extras.after_payload = TextSpan::none();
                    proof {
                        lemma_content_in_source(*arena, *extras, TextSpan::none());
                    }
                    return Ok((TextSpan::none(), PayloadShape::Absent));
                },
            }
        },
        PayloadShape::Absent => TextSpan::none(),
    };
    proof {
        lemma_content_in_source(*arena, *extras, payload);
    }
    Ok((payload, plan.shape))
}

/// The same split, for a cell with no usable byte range: every part is stored from the
/// children's markup.
fn read_cell_content_from_model(
    arena: &mut TextArena,
    element: &SourceElement,
    plan: &ContentPlan,
    extras: &mut CellExtras,
) -> (content: Result<(TextSpan, PayloadShape), SmlError>)
    requires
        old(arena).wf(),
        plan.payload matches Some(p) ==> p < element.children@.len() && element.children@[p as int] is Element,
        plan.formula matches Some(f) ==> f < element.children@.len() && element.children@[f as int] is Element,
        plan.payload is None ==> plan.shape == PayloadShape::Absent,
        same_index(plan.payload, value_index(*element)),
        same_index(plan.formula, formula_index(*element)),
        plan.shape == content_shape(*element),
    ensures
        final(arena).wf(),
        extends(*old(arena), *final(arena)),
        final(extras).attributes == old(extras).attributes,
        final(extras).leading == old(extras).leading,
        match content {
            Ok((payload, shape)) => {
                &&& content_fits(*final(arena), *final(extras), payload)
                &&& content_read_as(*final(arena), *final(extras), payload, shape, model_content(*element))
            },
            Err(error) => error is SheetDataTooLarge,
        },
        final(arena).total() <= old(arena).total() + content_need(model_content(*element)),
        content is Ok <==> old(arena).total() + content_need(model_content(*element)) <= MAXIMUM_ADDRESS,
{
    let ghost start = *arena;
    let ghost parts = model_content(*element);
    proof {
        start.lemma_bounded();
    }
    extras.formula = TextSpan::none();
    extras.before_payload = TextSpan::none();
    extras.after_payload = TextSpan::none();
    let mut formula_markup: Vec<u8> = Vec::new();
    if let Some(index) = plan.formula {
        if let SourceNode::Element(formula) = &element.children[index] {
            formula_markup.extend_from_slice(formula.markup.as_slice());
            proof {
                assert(formula_markup@ =~= formula.markup@);
            }
        }
    }
    let count = element.children.len();
    let skip = match plan.payload {
        Some(index) => index,
        None => count,
    };
    let mut before: Vec<u8> = Vec::new();
    let mut after: Vec<u8> = Vec::new();
    push_nodes_markup(&element.children, 0, skip, skip, &mut before);
    if skip < count {
        push_nodes_markup(&element.children, skip + 1, count, skip, &mut after);
    }
    proof {
        assert(before@ =~= nodes_markup(element.children@, 0, skip as int, skip as int));
        if skip >= count {
            assert(nodes_markup(element.children@, skip + 1, count as int, skip as int) =~= Seq::<u8>::empty());
        }
        assert(after@ =~= nodes_markup(element.children@, skip + 1, count as int, skip as int));
    }
    let mut payload_bytes: Vec<u8> = Vec::new();
    if let Some(index) = plan.payload {
        if let SourceNode::Element(payload_element) = &element.children[index] {
            match plan.shape {
                PayloadShape::InlineString => {
                    payload_bytes.extend_from_slice(payload_element.markup.as_slice());
                    proof {
                        assert(payload_bytes@ =~= payload_element.markup@);
                    }
                },
                _ => {
                    push_nodes_markup(
                        &payload_element.children,
                        0,
                        payload_element.children.len(),
                        payload_element.children.len(),
                        &mut payload_bytes,
                    );
                    proof {
                        assert(payload_bytes@ =~= nodes_markup(
                            payload_element.children@,
                            0,
                            payload_element.children@.len() as int,
                            payload_element.children@.len() as int,
                        ));
                    }
                },
            }
            proof {
                assert(Some(payload_bytes@) == parts.payload);
            }
        }
    }
    proof {
        assert(part_len(parts.formula) == if plan.formula is Some { formula_markup@.len() as int } else { 0 });
        assert(part_len(parts.before) == before@.len());
        assert(part_len(parts.after) == after@.len());
        assert(part_len(parts.payload) == if plan.payload is Some { payload_bytes@.len() as int } else { 0 });
    }
    if plan.formula.is_some() {
        match store_fitting(arena, formula_markup.as_slice()) {
            Ok(span) => {
                extras.formula = span;
            },
            Err(error) => {
                return Err(error);
            },
        }
    }
    let ghost first = *arena;
    proof {
        if plan.formula.is_none() {
            lemma_stays(start, first);
        }
        assert(span_bytes(first, extras.formula) == parts.formula);
    }
    let before_span = match store_unless_empty(arena, before.as_slice()) {
        Ok(span) => span,
        Err(error) => {
            proof {
                lemma_chain(start, first, *arena);
            }
            return Err(error);
        },
    };
    extras.before_payload = before_span;
    let ghost second = *arena;
    proof {
        lemma_span_stable(first, second, extras.formula);
        lemma_chain(start, first, second);
    }
    let after_span = match store_unless_empty(arena, after.as_slice()) {
        Ok(span) => span,
        Err(error) => {
            proof {
                lemma_chain(start, second, *arena);
            }
            return Err(error);
        },
    };
    extras.after_payload = after_span;
    let ghost third = *arena;
    proof {
        lemma_span_stable(second, third, extras.formula);
        lemma_span_stable(second, third, extras.before_payload);
        lemma_chain(start, second, third);
    }
    if plan.payload.is_none() {
        proof {
            third.lemma_bounded();
        }
        return Ok((TextSpan::none(), PayloadShape::Absent));
    }
    let payload = match store_fitting(arena, payload_bytes.as_slice()) {
        Ok(span) => span,
        Err(error) => {
            proof {
                lemma_chain(start, third, *arena);
            }
            return Err(error);
        },
    };
    proof {
        lemma_span_stable(third, *arena, extras.formula);
        lemma_span_stable(third, *arena, extras.before_payload);
        lemma_span_stable(third, *arena, extras.after_payload);
        lemma_chain(start, third, *arena);
        third.lemma_bounded();
        arena.lemma_bounded();
    }
    Ok((payload, plan.shape))
}

/// How the byte space stands after storing `length` bytes: grown by them when the store
/// succeeded, and unchanged, with no room for them, when it did not.
pub open spec fn stored_total(before: TextArena, after: TextArena, length: int, stored: bool) -> bool {
    if stored {
        after.total() == before.total() + length
    } else {
        after.total() == before.total() && before.total() + length > MAXIMUM_ADDRESS
    }
}

/// Stores `bytes` unless there are none, in which case the answer is the absent span.
fn store_unless_empty(arena: &mut TextArena, bytes: &[u8]) -> (stored: Result<TextSpan, SmlError>)
    requires
        old(arena).wf(),
    ensures
        final(arena).wf(),
        extends(*old(arena), *final(arena)),
        match stored {
            Ok(span) => span_ok(*final(arena), span) && span_bytes(*final(arena), span) == if bytes@.len()
                == 0 {
                None
            } else {
                Some(bytes@)
            },
            Err(error) => error is SheetDataTooLarge,
        },
        stored_total(*old(arena), *final(arena), bytes@.len() as int, stored is Ok),
{
    if bytes.len() == 0 {
        proof {
            lemma_stays(*old(arena), *arena);
        }
        return Ok(TextSpan::none());
    }
    store_fitting(arena, bytes)
}

/// A span inside the part's own bytes fits the arena, or is absent.
proof fn lemma_in_source(arena: TextArena, span: TextSpan)
    requires
        in_source(arena, span),
    ensures
        span_ok(arena, span),
{
}

/// Content split from the part's own bytes fits the arena.
proof fn lemma_content_in_source(arena: TextArena, extras: CellExtras, payload: TextSpan)
    requires
        in_source(arena, extras.formula),
        in_source(arena, extras.before_payload),
        in_source(arena, extras.after_payload),
        in_source(arena, payload),
    ensures
        content_fits(arena, extras, payload),
{
}

/// Stores `bytes` and answers with a span that fits what it grew into.
fn store_fitting(arena: &mut TextArena, bytes: &[u8]) -> (stored: Result<TextSpan, SmlError>)
    requires
        old(arena).wf(),
    ensures
        final(arena).wf(),
        extends(*old(arena), *final(arena)),
        match stored {
            Ok(span) => {
                &&& span_ok(*final(arena), span)
                &&& final(arena).resolve(span) == bytes@
                &&& span_bytes(*final(arena), span) == Some(bytes@)
            },
            Err(error) => error is SheetDataTooLarge,
        },
        stored_total(*old(arena), *final(arena), bytes@.len() as int, stored is Ok),
{
    let ghost before = *arena;
    proof {
        before.lemma_bounded();
    }
    let stored = arena.store(bytes);
    proof {
        match stored {
            Ok(_) => lemma_store_extends(before, *arena, bytes@),
            Err(_) => lemma_store_extends(before, *arena, Seq::<u8>::empty()),
        }
    }
    stored
}

/// An arena nobody stored into extends itself.
proof fn lemma_stays(before: TextArena, after: TextArena)
    requires
        after == before,
    ensures
        extends(before, after),
{
    assert(before.edit_bytes().subrange(0, before.edit_bytes().len() as int) =~= before.edit_bytes());
}

/// Extending twice extends.
proof fn lemma_chain(first: TextArena, second: TextArena, third: TextArena)
    requires
        extends(first, second),
        extends(second, third),
    ensures
        extends(first, third),
{
    assert(third.edit_bytes().subrange(0, first.edit_bytes().len() as int) =~= second.edit_bytes().subrange(
        0,
        first.edit_bytes().len() as int,
    ));
}

/// The reference a cell element names: its `r` read as a reference, or — when it writes none —
/// the column after the previous cell's (the first column for a row's first cell) in the row
/// numbered `row_number`.
pub open spec fn cell_reference_spec(element: SourceElement, row_number: u32, previous: Option<u16>) -> Result<
    (nat, nat, Anchoring, Anchoring),
    AddressError,
> {
    match attribute_text_spec(element, seq![114u8]) {
        Some(text) => match parse_reference_spec(text) {
            Some(parts) => Ok(parts),
            None => Err(AddressError::Malformed),
        },
        None => {
            let column: int = match previous {
                Some(previous) => previous + 1,
                None => 0,
            };
            let row: int = if row_number == 0 {
                0
            } else {
                row_number - 1
            };
            if column > MAX_COLUMN {
                Err(AddressError::ColumnOutOfGrid)
            } else if row > MAX_ROW {
                Err(AddressError::RowOutOfGrid)
            } else {
                Ok((column as nat, row as nat, Anchoring::Relative, Anchoring::Relative))
            }
        },
    }
}

/// A cell's `s`, when it spells a number.
pub open spec fn cell_style_spec(element: SourceElement) -> Option<u32> {
    match attribute_text_spec(element, seq![115u8]) {
        Some(text) => parse_decimal_spec(text, u32::MAX),
        None => None,
    }
}

/// A cell's `t`, when it spells a type.
pub open spec fn cell_type_spec(element: SourceElement) -> Option<CellType> {
    match attribute_text_spec(element, seq![116u8]) {
        Some(text) => from_wire_spec(text),
        None => None,
    }
}

/// What a cell record read from `element` holds, apart from its spans and its extras index.
pub open spec fn cell_read_as(
    cell: PackedCell,
    element: SourceElement,
    extent: TextSpan,
    row_number: u32,
    previous: Option<u16>,
) -> bool {
    &&& cell_reference_spec(element, row_number, previous) matches Ok(parts) && cell.reference.has_parts(
        parts.0,
        parts.1,
        parts.2,
        parts.3,
    )
    &&& cell.extent == extent
    &&& cell.style == match cell_style_spec(element) {
        Some(style) => style,
        None => 0,
    }
    &&& has_flag(cell.flags, 1u8) == (attribute_text_spec(element, seq![114u8]) is Some)
    &&& has_flag(cell.flags, 2u8) == (cell_style_spec(element) is Some)
    &&& cell.kind == match cell_type_spec(element) {
        Some(cell_type) => code_of(cell_type),
        None => 0u8,
    }
}

/// Whether the bytes at `run` are exactly what the writer would regenerate for this cell.
fn run_is_canonical(arena: &TextArena, run: TextSpan, cell: &PackedCell) -> (same: bool)
    requires
        arena.wf(),
    ensures
        same == (arena.resolve(run) == canonical_run(cell.reference, cell.flags, cell.style, cell.kind)),
{
    let mut scratch: Vec<u8> = Vec::new();
    write_canonical_attribute_run(cell, &mut scratch);
    proof {
        assert(scratch@ =~= canonical_run(cell.reference, cell.flags, cell.style, cell.kind));
    }
    crate::arena::attributes::bytes_equal(arena.bytes(run), scratch.as_slice())
}

/// The reference a cell element resolves to in the row numbered `row_number`, after a cell in
/// column `previous`.
fn cell_reference(element: &SourceElement, row_number: u32, previous: Option<u16>) -> (found: Result<
    CellReference,
    SmlError,
>)
    ensures
        match cell_reference_spec(*element, row_number, previous) {
            Ok(parts) => found matches Ok(reference) && reference.has_parts(
                parts.0,
                parts.1,
                parts.2,
                parts.3,
            ),
            Err(error) => found == Err::<CellReference, SmlError>(SmlError::Address(error)),
        },
{
    let r_name = vec![114u8];
    proof {
        assert(r_name@ =~= seq![114u8]);
    }
    match attribute_text(element, r_name.as_slice()) {
        Some(text) => match CellReference::parse_bytes(text) {
            Ok(reference) => Ok(reference),
            Err(error) => Err(SmlError::Address(error)),
        },
        None => {
            let column: u16 = match previous {
                Some(previous) => match previous.checked_add(1) {
                    Some(column) => column,
                    None => {
                        return Err(SmlError::Address(AddressError::ColumnOutOfGrid));
                    },
                },
                None => 0,
            };
            match CellReference::new(
                column,
                row_number.saturating_sub(1),
                Anchoring::Relative,
                Anchoring::Relative,
            ) {
                Ok(reference) => Ok(reference),
                Err(error) => Err(SmlError::Address(error)),
            }
        },
    }
}

/// The record of a cell element at `reference`, before its content is read: its style, its
/// type, and whether it wrote `r`, wrote `s` and closed itself.
fn cell_header(element: &SourceElement, reference: CellReference, extent: TextSpan, self_closing: bool) -> (cell: PackedCell)
    ensures
        cell.reference == reference,
        cell.extent == extent,
        cell.payload == TextSpan::spec_none(),
        cell.extra == NO_EXTRAS,
        cell.style == match cell_style_spec(*element) {
            Some(style) => style,
            None => 0,
        },
        cell.kind == match cell_type_spec(*element) {
            Some(cell_type) => code_of(cell_type),
            None => 0u8,
        },
        has_flag(cell.flags, 1u8) == (attribute_text_spec(*element, seq![114u8]) is Some),
        has_flag(cell.flags, 2u8) == (cell_style_spec(*element) is Some),
        has_flag(cell.flags, 4u8) == self_closing,
        cell.flags < 8,
{
    let r_name = vec![114u8];
    let s_name = vec![115u8];
    let t_name = vec![116u8];
    proof {
        assert(r_name@ =~= seq![114u8]);
        assert(s_name@ =~= seq![115u8]);
        assert(t_name@ =~= seq![116u8]);
    }
    let written_reference = attribute_text(element, r_name.as_slice()).is_some();
    let style = match attribute_text(element, s_name.as_slice()) {
        Some(text) => parse_decimal(text, u32::MAX),
        None => None,
    };
    let written_type = match attribute_text(element, t_name.as_slice()) {
        Some(text) => CellType::from_wire(text),
        None => None,
    };
    let r_bit: u8 = if written_reference {
        1
    } else {
        0
    };
    let s_bit: u8 = if style.is_some() {
        2
    } else {
        0
    };
    let c_bit: u8 = if self_closing {
        4
    } else {
        0
    };
    let flags: u8 = r_bit | s_bit | c_bit;
    proof {
        assert(has_flag(flags, 1u8) == (r_bit == 1) && has_flag(flags, 2u8) == (s_bit == 2)
            && has_flag(flags, 4u8) == (c_bit == 4) && flags < 8) by (bit_vector)
            requires
                r_bit == 0 || r_bit == 1,
                s_bit == 0 || s_bit == 2,
                c_bit == 0 || c_bit == 4,
                flags == r_bit | s_bit | c_bit,
        ;
    }
    let kind = match written_type {
        Some(cell_type) => CellTypeCode::of(cell_type),
        None => CellTypeCode::ABSENT,
    };
    PackedCell {
        reference,
        extent,
        payload: TextSpan::none(),
        style: match style {
            Some(style) => style,
            None => 0,
        },
        extra: NO_EXTRAS,
        kind,
        flags,
    }
}

/// The attribute run a cell keeps verbatim: none when regenerating it from the cell's fields
/// gives the same bytes, and its own otherwise.
pub open spec fn kept_run(run: Seq<u8>, cell: CellModel) -> Option<Seq<u8>> {
    if run == canonical_run(cell.reference, cell.flags, cell.style, cell.kind) {
        None
    } else {
        Some(run)
    }
}

/// Whether a cell's model holds the parts of its element's own bytes: its content split around
/// its value, how it closed, and the attribute run it keeps.
pub open spec fn cell_content_read_as(cell: CellModel, element: SourceElement, source: Seq<u8>) -> bool {
    let parts = content_parts(source, element);
    let layout = element_layout(source, element);
    &&& cell.formula == parts.formula
    &&& cell.before_payload == parts.before
    &&& cell.after_payload == parts.after
    &&& cell.payload == parts.payload
    &&& shape_of_flags(cell.flags) == parts.shape
    &&& has_flag(cell.flags, 4u8) == layout_closes(element, layout)
    &&& cell.attributes == kept_run(layout_run_bytes(source, element, layout)->Some_0, cell)
}

/// Reads one cell element into a cell record, storing its extras record when it has one.
///
/// # Errors
///
/// [`SmlError::Address`] for a `c@r` that is not a reference, or a positional address outside
/// the grid; [`SmlError::SheetDataTooLarge`] when what is stored does not fit.
#[verifier::rlimit(40)]
fn read_cell(
    arena: &mut TextArena,
    extras: &mut Vec<CellExtras>,
    element: &SourceElement,
    extent: TextSpan,
    leading: TextSpan,
    row_number: u32,
    previous: Option<u16>,
) -> (read: Result<PackedCell, SmlError>)
    requires
        old(arena).wf(),
        extent == extent_spec(*old(arena), *element),
        span_ok(*old(arena), leading),
        old(extras)@.len() + 1 < NO_EXTRAS,
        forall|e: int| 0 <= e < old(extras)@.len() ==> extras_spans_ok(*old(arena), #[trigger] old(extras)@[e]),
    ensures
        final(arena).wf(),
        extends(*old(arena), *final(arena)),
        element_layout(old(arena).source_bytes(), *element) is Some ==> *final(arena) == *old(arena)
            && !(read matches Err(SmlError::SheetDataTooLarge { .. })),
        final(arena).total() <= old(arena).total() + cell_need(old(arena).source_bytes(), *element),
        read matches Err(SmlError::SheetDataTooLarge { .. }) ==> old(arena).total() + cell_need(
            old(arena).source_bytes(),
            *element,
        ) > MAXIMUM_ADDRESS,
        final(extras)@.len() >= old(extras)@.len(),
        final(extras)@.len() <= old(extras)@.len() + 1,
        final(extras)@.subrange(0, old(extras)@.len() as int) == old(extras)@,
        forall|e: int| 0 <= e < final(extras)@.len() ==> extras_spans_ok(*final(arena), #[trigger] final(extras)@[e]),
        match read {
            Ok(cell) => {
                &&& cell_spans_ok(*final(arena), cell)
                &&& cell_read_as(cell, *element, extent, row_number, previous)
                &&& span_bytes(*final(arena), extras_of(final(extras)@, cell).leading) == span_bytes(
                    *final(arena),
                    leading,
                )
                &&& cell_content_read_as(
                    cell_model(*final(arena), final(extras)@, cell),
                    *element,
                    old(arena).source_bytes(),
                )
                &&& if cell.extra == NO_EXTRAS {
                    final(extras)@.len() == old(extras)@.len()
                } else {
                    cell.extra == old(extras)@.len() && final(extras)@.len() == old(extras)@.len() + 1
                }
            },
            Err(SmlError::Address(error)) => cell_reference_spec(*element, row_number, previous) == Err::<
                (nat, nat, Anchoring, Anchoring),
                AddressError,
            >(error),
            Err(SmlError::SheetDataTooLarge { .. }) => true,
        },
{
    let ghost start = *arena;
    let ghost src = start.source_bytes();
    let layout = layout_of(arena, element, extent);
    proof {
        lemma_in_source(start, extent);
        lemma_extent_bytes(start, *element);
        assert(layout == element_layout(src, *element));
    }
    let run = match layout {
        Some(layout) => layout.attribute_run,
        None => match rebuild_attribute_run(arena, element) {
            Ok(run) => run,
            Err(error) => {
                proof {
                    assert(final(extras)@.subrange(0, old(extras)@.len() as int) =~= old(extras)@);
                    lemma_extras_stable(start, *arena, extras@);
                }
                return Err(error);
            },
        },
    };
    let ghost after_run = *arena;
    proof {
        if let Some(found) = layout {
            lemma_stays(start, after_run);
            lemma_in_source(after_run, run);
            lemma_run_bytes(start, found.attribute_run);
        }
        assert(span_bytes(after_run, run) == layout_run_bytes(src, *element, layout));
        lemma_span_stable(start, after_run, leading);
        lemma_extras_stable(start, after_run, extras@);
    }
    let reference = match cell_reference(element, row_number, previous) {
        Ok(reference) => reference,
        Err(error) => {
            proof {
                assert(final(extras)@.subrange(0, old(extras)@.len() as int) =~= old(extras)@);
            }
            return Err(error);
        },
    };
    let self_closing = match layout {
        Some(layout) => layout.self_closing,
        None => element.empty,
    };
    let mut cell = cell_header(element, reference, extent, self_closing);
    let flags = cell.flags;
    let canonical = run_is_canonical(arena, run, &cell);
    let mut record = CellExtras {
        attributes: if canonical {
            TextSpan::none()
        } else {
            run
        },
        leading,
        formula: TextSpan::none(),
        before_payload: TextSpan::none(),
        after_payload: TextSpan::none(),
    };
    let content = read_cell_content(arena, element, layout, extent, &mut record);
    proof {
        lemma_chain(start, after_run, *arena);
        lemma_extras_stable(after_run, *arena, extras@);
    }
    let (payload, shape) = match content {
        Ok(content) => content,
        Err(error) => {
            proof {
                assert(final(extras)@.subrange(0, old(extras)@.len() as int) =~= old(extras)@);
            }
            return Err(error);
        },
    };
    proof {
        lemma_span_stable(after_run, *arena, run);
        lemma_span_stable(after_run, *arena, record.leading);
        lemma_in_source(start, extent);
        lemma_span_stable(start, *arena, extent);
    }
    cell.payload = payload;
    if shape != PayloadShape::Absent {
        cell.set_payload_shape(shape);
    }
    if !record.is_empty() {
        cell.extra = extras.len() as u32;
        extras.push(record);
    }
    proof {
        assert(extras@.subrange(0, old(extras)@.len() as int) =~= old(extras)@);
        lemma_shape_bits(flags, shape);
        assert(flags < 8 ==> (flags & 24u8) >> 3u8 == 0) by (bit_vector);
        lemma_read_cell_model(*arena, extras@, cell, record, flags, shape, run, payload, *element, src);
    }
    Ok(cell)
}

/// The model of a cell just read holds what its record and extras record were filled with.
proof fn lemma_read_cell_model(
    arena: TextArena,
    extras: Seq<CellExtras>,
    cell: PackedCell,
    record: CellExtras,
    flags: u8,
    shape: PayloadShape,
    run: TextSpan,
    payload: TextSpan,
    element: SourceElement,
    source: Seq<u8>,
)
    requires
        cell.extra == NO_EXTRAS ==> record.is_blank(),
        cell.extra != NO_EXTRAS ==> cell.extra < extras.len() && extras[cell.extra as int] == record,
        cell.payload == payload,
        cell.flags == if shape != PayloadShape::Absent {
            flags_with_shape(flags, shape)
        } else {
            flags
        },
        shape_of_flags(flags_with_shape(flags, shape)) == shape,
        has_flag(flags_with_shape(flags, shape), 1u8) == has_flag(flags, 1u8),
        has_flag(flags_with_shape(flags, shape), 2u8) == has_flag(flags, 2u8),
        has_flag(flags_with_shape(flags, shape), 4u8) == has_flag(flags, 4u8),
        shape_of_flags(flags) == PayloadShape::Absent,
        has_flag(flags, 4u8) == layout_closes(element, element_layout(source, element)),
        record.attributes == if arena.resolve(run) == canonical_run(
            cell.reference,
            flags,
            cell.style,
            cell.kind,
        ) {
            TextSpan::spec_none()
        } else {
            run
        },
        span_bytes(arena, run) == layout_run_bytes(source, element, element_layout(source, element)),
        content_read_as(arena, record, payload, shape, content_parts(source, element)),
    ensures
        cell_content_read_as(cell_model(arena, extras, cell), element, source),
{
    let model = cell_model(arena, extras, cell);
    assert(extras_of(extras, cell).formula == record.formula || record.is_blank());
    assert(canonical_run(cell.reference, cell.flags, cell.style, cell.kind) == canonical_run(
        cell.reference,
        flags,
        cell.style,
        cell.kind,
    ));
}

/// Growing the arena keeps every extras record fitting.
proof fn lemma_extras_stable(before: TextArena, after: TextArena, extras: Seq<CellExtras>)
    requires
        extends(before, after),
        forall|e: int| 0 <= e < extras.len() ==> extras_spans_ok(before, #[trigger] extras[e]),
    ensures
        forall|e: int| 0 <= e < extras.len() ==> extras_spans_ok(after, #[trigger] extras[e]),
{
    assert forall|e: int| 0 <= e < extras.len() implies extras_spans_ok(after, #[trigger] extras[e]) by {
        let x = extras[e];
        lemma_span_stable(before, after, x.attributes);
        lemma_span_stable(before, after, x.leading);
        lemma_span_stable(before, after, x.formula);
        lemma_span_stable(before, after, x.before_payload);
        lemma_span_stable(before, after, x.after_payload);
    }
}

/// The elements among the first `count` of `nodes` with local name `name`, in order.
pub open spec fn elements_named(nodes: Seq<SourceNode>, name: Seq<u8>, count: int) -> Seq<SourceElement>
    decreases count,
{
    if count <= 0 {
        Seq::empty()
    } else {
        elements_named(nodes, name, count - 1) + match nodes[count - 1] {
            SourceNode::Element(element) => if element.local@ == name {
                seq![element]
            } else {
                Seq::empty()
            },
            _ => Seq::empty(),
        }
    }
}

/// The `c` elements of a row element, in order.
pub open spec fn cell_elements(row: SourceElement) -> Seq<SourceElement> {
    elements_named(row.children@, seq![99u8], row.children@.len() as int)
}

/// The number a row element's `r` spells, when it spells one.
pub open spec fn row_number_spec(row: SourceElement) -> Option<u32> {
    match attribute_text_spec(row, seq![114u8]) {
        Some(text) => parse_decimal_spec(text, u32::MAX),
        None => None,
    }
}

/// The number a row's positional cells are addressed in: its `r`, or its position counted from
/// one.
pub open spec fn row_number_used(row: SourceElement, position: int) -> u32 {
    match row_number_spec(row) {
        Some(number) => number,
        None => if position + 1 > u32::MAX {
            u32::MAX
        } else {
            (position + 1) as u32
        },
    }
}

/// The references of the first `count` cells of a row numbered `row_number`, each addressed
/// after the one before it; the first that does not resolve is the error.
pub open spec fn row_references(cells: Seq<SourceElement>, row_number: u32, count: int) -> Result<
    Seq<(nat, nat, Anchoring, Anchoring)>,
    AddressError,
>
    decreases count,
{
    if count <= 0 {
        Ok(Seq::empty())
    } else {
        match row_references(cells, row_number, count - 1) {
            Err(error) => Err(error),
            Ok(seen) => {
                let previous = if seen.len() == 0 {
                    None
                } else {
                    Some(seen.last().0 as u16)
                };
                match cell_reference_spec(cells[count - 1], row_number, previous) {
                    Ok(parts) => Ok(seen.push(parts)),
                    Err(error) => Err(error),
                }
            },
        }
    }
}

/// The column of the cell before the `k`th, or none for the first.
pub open spec fn previous_column(cells: Seq<PackedCell>, k: int) -> Option<u16> {
    if k <= 0 {
        None
    } else {
        Some(cells[k - 1].reference.column_index() as u16)
    }
}

/// Whether `cells` were read from the cell elements `elements` of a row numbered `row_number`.
pub open spec fn cells_read_as(
    arena: TextArena,
    cells: Seq<PackedCell>,
    elements: Seq<SourceElement>,
    row_number: u32,
) -> bool {
    &&& cells.len() <= elements.len()
    &&& forall|k: int|
        0 <= k < cells.len() ==> cell_read_as(
            #[trigger] cells[k],
            elements[k],
            extent_spec(arena, elements[k]),
            row_number,
            previous_column(cells, k),
        )
}

/// Reading the cells one after another resolves exactly the references `row_references` does.
proof fn lemma_references_step(
    arena: TextArena,
    cells: Seq<PackedCell>,
    elements: Seq<SourceElement>,
    row_number: u32,
)
    requires
        cells_read_as(arena, cells, elements, row_number),
    ensures
        row_references(elements, row_number, cells.len() as int) matches Ok(seen) && seen.len()
            == cells.len() && forall|k: int|
            0 <= k < cells.len() ==> #[trigger] cells[k].reference.has_parts(
                seen[k].0,
                seen[k].1,
                seen[k].2,
                seen[k].3,
            ),
    decreases cells.len(),
{
    if cells.len() > 0 {
        let shorter = cells.drop_last();
        assert forall|k: int| 0 <= k < shorter.len() implies cell_read_as(
            #[trigger] shorter[k],
            elements[k],
            extent_spec(arena, elements[k]),
            row_number,
            previous_column(shorter, k),
        ) by {
            assert(shorter[k] == cells[k]);
            assert(previous_column(shorter, k) == previous_column(cells, k));
        }
        lemma_references_step(arena, shorter, elements, row_number);
        let k = cells.len() - 1;
        assert(cell_read_as(cells[k], elements[k], extent_spec(arena, elements[k]), row_number, previous_column(cells, k)));
        let seen = row_references(elements, row_number, k)->Ok_0;
        if k > 0 {
            assert(shorter[k - 1] == cells[k - 1]);
            assert(cells[k - 1].reference.has_parts(seen[k - 1].0, seen[k - 1].1, seen[k - 1].2, seen[k - 1].3));
            assert(seen.last() == seen[k - 1]);
        }
        assert forall|j: int| 0 <= j < cells.len() implies #[trigger] cells[j].reference.has_parts(
            row_references(elements, row_number, cells.len() as int)->Ok_0[j].0,
            row_references(elements, row_number, cells.len() as int)->Ok_0[j].1,
            row_references(elements, row_number, cells.len() as int)->Ok_0[j].2,
            row_references(elements, row_number, cells.len() as int)->Ok_0[j].3,
        ) by {
            if j < k {
                assert(shorter[j] == cells[j]);
            }
        }
    }
}


/// The first `i` nodes' elements named `name` begin the first `j` nodes' ones, for `i <= j`.
proof fn lemma_elements_prefix(nodes: Seq<SourceNode>, name: Seq<u8>, i: int, j: int)
    requires
        0 <= i <= j,
    ensures
        elements_named(nodes, name, i).len() <= elements_named(nodes, name, j).len(),
        forall|k: int|
            0 <= k < elements_named(nodes, name, i).len() ==> #[trigger] elements_named(nodes, name, i)[k]
                == elements_named(nodes, name, j)[k],
    decreases j - i,
{
    if i < j {
        lemma_elements_prefix(nodes, name, i, j - 1);
    }
}

/// Once the references of a row's first cells fail, so do those of any longer run of its cells.
proof fn lemma_references_fail(cells: Seq<SourceElement>, row_number: u32, count: int, more: int)
    requires
        count <= more,
        row_references(cells, row_number, count) is Err,
    ensures
        row_references(cells, row_number, more) == row_references(cells, row_number, count),
    decreases more - count,
{
    if count < more {
        lemma_references_fail(cells, row_number, count, more - 1);
    }
}

/// The reference of the cell after `cells` fails exactly as its element's does.
proof fn lemma_reference_fails_at(
    arena: TextArena,
    cells: Seq<PackedCell>,
    elements: Seq<SourceElement>,
    row_number: u32,
    error: AddressError,
)
    requires
        cells_read_as(arena, cells, elements, row_number),
        cells.len() < elements.len(),
        cell_reference_spec(elements[cells.len() as int], row_number, previous_column(cells, cells.len() as int))
            == Err::<(nat, nat, Anchoring, Anchoring), AddressError>(error),
    ensures
        row_references(elements, row_number, elements.len() as int) == Err::<
            Seq<(nat, nat, Anchoring, Anchoring)>,
            AddressError,
        >(error),
{
    lemma_references_step(arena, cells, elements, row_number);
    let k = cells.len() as int;
    let seen = row_references(elements, row_number, k)->Ok_0;
    if k > 0 {
        assert(cells[k - 1].reference.has_parts(seen[k - 1].0, seen[k - 1].1, seen[k - 1].2, seen[k - 1].3));
        assert(seen.last() == seen[k - 1]);
    }
    assert(row_references(elements, row_number, k + 1) == Err::<
        Seq<(nat, nat, Anchoring, Anchoring)>,
        AddressError,
    >(error));
    lemma_references_fail(elements, row_number, k + 1, elements.len() as int);
}

/// A cell just read, naming no record or the one just added, keeps the row's cells fresh as the
/// arena grows.
proof fn lemma_fresh_push(
    before: TextArena,
    after: TextArena,
    cells: Seq<PackedCell>,
    cell: PackedCell,
    from: int,
    to: int,
    grown: int,
)
    requires
        fresh_cells(before, cells, from, to),
        extends(before, after),
        cell_spans_ok(after, cell),
        from <= to,
        cell.extra == NO_EXTRAS && grown == to || cell.extra == to && grown == to + 1,
    ensures
        fresh_cells(after, cells.push(cell), from, grown),
{
    let all = cells.push(cell);
    assert forall|k: int| 0 <= k < all.len() implies cell_spans_ok(after, #[trigger] all[k]) by {
        if k < cells.len() {
            assert(all[k] == cells[k]);
            lemma_span_stable(before, after, cells[k].extent);
            lemma_span_stable(before, after, cells[k].payload);
        }
    }
    assert forall|k: int| 0 <= k < all.len() implies (#[trigger] all[k]).extra == NO_EXTRAS || (from
        <= all[k].extra && all[k].extra < grown) by {
        if k < cells.len() {
            assert(all[k] == cells[k]);
        }
    }
    assert forall|a: int, b: int|
        0 <= a < all.len() && 0 <= b < all.len() && a != b && all[a].extra != NO_EXTRAS
            implies #[trigger] all[a].extra != #[trigger] all[b].extra by {
        if a < cells.len() {
            assert(all[a] == cells[a]);
        }
        if b < cells.len() {
            assert(all[b] == cells[b]);
        }
    }
}

/// The range `start..end` an element's span names, when it lies inside `source`.
pub open spec fn element_range(source: Seq<u8>, element: SourceElement) -> Option<(int, int)> {
    match element.span {
        Some((start, end)) => if end < start || end > source.len() {
            None
        } else {
            Some((start as int, end as int))
        },
        None => None,
    }
}

/// The bytes of `source` from `from` to `to`, or none when that is empty.
pub open spec fn between_bytes(source: Seq<u8>, from: int, to: int) -> Option<Seq<u8>> {
    if to > from {
        Some(source.subrange(from, to))
    } else {
        None
    }
}

/// `bytes`, or none when there are none.
pub open spec fn nonempty(bytes: Seq<u8>) -> Option<Seq<u8>> {
    if bytes.len() == 0 {
        None
    } else {
        Some(bytes)
    }
}

/// Where the reader stands after the first `count` of `nodes`, reading the elements named `name`
/// and the gaps before them.
pub struct GapWalk {
    /// The bytes before each element named `name` so far, in order.
    pub leadings: Seq<Option<Seq<u8>>>,
    /// Where the last one ended in the source, while gaps are still read as ranges.
    pub cursor: Option<int>,
    /// The node after the last one, where the markup gathered for the next gap begins.
    pub last: int,
}

/// The gaps before the elements named `name` among the first `count` of `nodes`, starting with a
/// cursor at `start`.
///
/// With a cursor, an element whose range starts at or after it is led by the source bytes from
/// the cursor to its start, and the cursor moves to its end; any other gives the cursor up and is
/// led by nothing. Without one, an element is led by the markup of the nodes since the one
/// before it.
pub open spec fn gap_walk(
    source: Seq<u8>,
    nodes: Seq<SourceNode>,
    name: Seq<u8>,
    start: Option<int>,
    count: int,
) -> GapWalk
    decreases count,
{
    if count <= 0 {
        GapWalk { leadings: Seq::empty(), cursor: start, last: 0 }
    } else {
        let walk = gap_walk(source, nodes, name, start, count - 1);
        match nodes[count - 1] {
            SourceNode::Element(element) => if element.local@ == name {
                gap_step(source, nodes, walk, element, count)
            } else {
                walk
            },
            _ => walk,
        }
    }
}

/// One step of [`gap_walk`]: the element that is the `count`th node, after `walk`.
pub open spec fn gap_step(
    source: Seq<u8>,
    nodes: Seq<SourceNode>,
    walk: GapWalk,
    element: SourceElement,
    count: int,
) -> GapWalk {
    match walk.cursor {
        Some(at) => match element_range(source, element) {
            Some(range) => if range.0 >= at {
                GapWalk {
                    leadings: walk.leadings.push(between_bytes(source, at, range.0)),
                    cursor: Some(range.1),
                    last: count,
                }
            } else {
                GapWalk { leadings: walk.leadings.push(None), cursor: None, last: count }
            },
            None => GapWalk { leadings: walk.leadings.push(None), cursor: None, last: count },
        },
        None => GapWalk {
            leadings: walk.leadings.push(nonempty(nodes_markup(nodes, walk.last, count - 1, -1))),
            cursor: None,
            last: count,
        },
    }
}

/// The bytes after the last element of a walk over all of `nodes`: to `inner_end` while the
/// cursor lasted, and the markup gathered since otherwise.
pub open spec fn gap_trailing(source: Seq<u8>, nodes: Seq<SourceNode>, walk: GapWalk, inner_end: int) -> Option<
    Seq<u8>,
> {
    match walk.cursor {
        Some(at) => between_bytes(source, at, inner_end),
        None => nonempty(nodes_markup(nodes, walk.last, nodes.len() as int, -1)),
    }
}

/// Where the cursor stood before the `r`th of `elements`: at `start` before the first, and at the
/// end of the one before otherwise.
pub open spec fn cursor_before(source: Seq<u8>, elements: Seq<SourceElement>, start: int, r: int) -> int {
    if r <= 0 {
        start
    } else {
        element_range(source, elements[r - 1])->Some_0.1
    }
}

/// Whether the `r`th of `elements` has a range starting at or after where the cursor stood before
/// it, and `leading` is the source bytes between.
pub open spec fn led_from_cursor(
    source: Seq<u8>,
    elements: Seq<SourceElement>,
    start: int,
    r: int,
    leading: Option<Seq<u8>>,
) -> bool {
    match element_range(source, elements[r]) {
        Some(range) => range.0 >= cursor_before(source, elements, start, r) && leading == between_bytes(
            source,
            cursor_before(source, elements, start, r),
            range.0,
        ),
        None => false,
    }
}

/// A walk whose cursor lasted read every element it met as a range: each one's range starts at
/// or after where the cursor stood, it is led by the source bytes between, and it leaves the
/// cursor at its end.
pub proof fn lemma_walk_ranged(source: Seq<u8>, nodes: Seq<SourceNode>, name: Seq<u8>, start: int, count: int)
    requires
        0 <= count <= nodes.len(),
        gap_walk(source, nodes, name, Some(start), count).cursor is Some,
    ensures
        ({
            let walk = gap_walk(source, nodes, name, Some(start), count);
            let elements = elements_named(nodes, name, count);
            &&& walk.leadings.len() == elements.len()
            &&& walk.cursor == Some(cursor_before(source, elements, start, elements.len() as int))
            &&& forall|r: int|
                0 <= r < elements.len() ==> #[trigger] led_from_cursor(
                    source,
                    elements,
                    start,
                    r,
                    walk.leadings[r],
                )
        }),
    decreases count, 1int,
{
    if count > 0 {
        lemma_walk_ranged_step(source, nodes, name, start, count);
    }
}

proof fn lemma_walk_ranged_step(source: Seq<u8>, nodes: Seq<SourceNode>, name: Seq<u8>, start: int, count: int)
    requires
        0 < count <= nodes.len(),
        gap_walk(source, nodes, name, Some(start), count).cursor is Some,
    ensures
        ({
            let walk = gap_walk(source, nodes, name, Some(start), count);
            let elements = elements_named(nodes, name, count);
            &&& walk.leadings.len() == elements.len()
            &&& walk.cursor == Some(cursor_before(source, elements, start, elements.len() as int))
            &&& forall|r: int|
                0 <= r < elements.len() ==> #[trigger] led_from_cursor(
                    source,
                    elements,
                    start,
                    r,
                    walk.leadings[r],
                )
        }),
    decreases count, 0int,
{
    let prev = gap_walk(source, nodes, name, Some(start), count - 1);
    let walk = gap_walk(source, nodes, name, Some(start), count);
    let before = elements_named(nodes, name, count - 1);
    let elements = elements_named(nodes, name, count);
    match nodes[count - 1] {
        SourceNode::Element(element) => {
            if element.local@ == name {
                assert(prev.cursor is Some);
                lemma_walk_ranged(source, nodes, name, start, count - 1);
                assert(elements =~= before.push(element));
                let at = prev.cursor->Some_0;
                assert(at == cursor_before(source, before, start, before.len() as int));
                assert forall|r: int| 0 <= r <= before.len() implies cursor_before(source, elements, start, r)
                    == cursor_before(source, before, start, r) by {
                    if r > 0 {
                        assert(elements[r - 1] == before[r - 1]);
                    }
                }
                assert forall|r: int| 0 <= r < elements.len() implies #[trigger] led_from_cursor(
                    source,
                    elements,
                    start,
                    r,
                    walk.leadings[r],
                ) by {
                    if r < before.len() {
                        assert(elements[r] == before[r]);
                        assert(led_from_cursor(source, before, start, r, prev.leadings[r]));
                    }
                }
            } else {
                lemma_walk_ranged(source, nodes, name, start, count - 1);
                assert(elements =~= before);
            }
        },
        _ => {
            lemma_walk_ranged(source, nodes, name, start, count - 1);
            assert(elements =~= before);
        },
    }
}

/// A range of the part's own bytes, seen through the arena, is those bytes.
proof fn lemma_between_bytes(arena: TextArena, from: int, to: int)
    requires
        arena.wf(),
        0 <= from <= to <= arena.source_bytes().len(),
    ensures
        span_bytes(
            arena,
            if to > from {
                TextSpan { start: from as u32, length: (to - from) as u32 }
            } else {
                TextSpan::spec_none()
            },
        ) == between_bytes(arena.source_bytes(), from, to),
{
    arena.lemma_bounded();
    if to > from {
        assert(arena.space().subrange(from, to) =~= arena.source_bytes().subrange(from, to));
    }
}

/// The bytes before the next child element that has a range: with a cursor, the gap from the
/// cursor to the element's start, which the cursor then moves past; without one, the markup
/// gathered since the last such element, stored. A cursor that cannot advance — the element has
/// no range, or one that starts before it — is given up rather than replay bytes twice.
fn take_leading(
    arena: &mut TextArena,
    cursor: &mut Option<u32>,
    pending: &mut Vec<u8>,
    extent: TextSpan,
) -> (leading: Result<TextSpan, SmlError>)
    requires
        old(arena).wf(),
        in_source(*old(arena), extent),
        *old(cursor) matches Some(at) ==> at <= old(arena).source_bytes().len(),
    ensures
        final(arena).wf(),
        extends(*old(arena), *final(arena)),
        *final(cursor) matches Some(at) ==> at <= final(arena).source_bytes().len(),
        (*final(cursor)) is Some ==> (*old(cursor)) is Some,
        match *old(cursor) {
            Some(at) => {
                &&& *final(arena) == *old(arena)
                &&& final(pending)@ == old(pending)@
                &&& *final(cursor) == if !extent.absent() && extent.start >= at {
                    Some(extent.spec_end() as u32)
                } else {
                    None
                }
            },
            None => {
                &&& (*final(cursor)) is None
                &&& final(pending)@ == Seq::<u8>::empty()
            },
        },
        match leading {
            Ok(span) => {
                &&& span_ok(*final(arena), span)
                &&& span_bytes(*final(arena), span) == match *old(cursor) {
                    Some(at) => if !extent.absent() && extent.start >= at {
                        between_bytes(old(arena).source_bytes(), at as int, extent.start as int)
                    } else {
                        None
                    },
                    None => nonempty(old(pending)@),
                }
            },
            Err(error) => error is SheetDataTooLarge && (*old(cursor)) is None,
        },
        stored_total(*old(arena), *final(arena), lead_need(*old(cursor), old(pending)@), leading is Ok),
{
    match *cursor {
        Some(at) => {
            proof {
                lemma_stays(*old(arena), *arena);
                arena.lemma_bounded();
            }
            if !extent.is_none() && extent.start() >= at {
                *cursor = Some(extent.end());
                let span = span_between(at, extent.start());
                proof {
                    lemma_in_source(*arena, span);
                    lemma_between_bytes(*arena, at as int, extent.start as int);
                }
                Ok(span)
            } else {
                *cursor = None;
                Ok(TextSpan::none())
            }
        },
        None => {
            let stored = store_unless_empty(arena, pending.as_slice());
            pending.clear();
            stored
        },
    }
}

/// Reads the next cell element of a row — the one at `cells.len()` among `every` — and puts it
/// on the end of `cells`.
#[verifier::rlimit(40)]
fn read_next_cell(
    arena: &mut TextArena,
    extras: &mut Vec<CellExtras>,
    cells: &mut Vec<PackedCell>,
    cursor: &mut Option<u32>,
    pending: &mut Vec<u8>,
    child: &SourceElement,
    row_number: u32,
    first_cell: u32,
    Ghost(every): Ghost<Seq<SourceElement>>,
    Ghost(from): Ghost<int>,
    Ghost(nodes): Ghost<Seq<SourceNode>>,
    Ghost(walk): Ghost<GapWalk>,
    Ghost(count): Ghost<int>,
) -> (done: Result<(), SmlError>)
    requires
        old(arena).wf(),
        old(extras)@.len() < NO_EXTRAS,
        0 <= from <= old(extras)@.len(),
        1 <= count,
        reader_at(*old(cursor), old(pending)@, nodes, walk, count - 1),
        cells_led(*old(arena), old(extras)@, old(cells)@, walk),
        cells_content(*old(arena), old(extras)@, old(cells)@, every, old(arena).source_bytes()),
        forall|e: int| 0 <= e < old(extras)@.len() ==> extras_spans_ok(*old(arena), #[trigger] old(extras)@[e]),
        old(cells)@.len() < every.len(),
        every[old(cells)@.len() as int] == *child,
        first_cell + old(cells)@.len() < NO_EXTRAS,
        cells_read_as(*old(arena), old(cells)@, every, row_number),
        fresh_cells(*old(arena), old(cells)@, from, old(extras)@.len() as int),
        *old(cursor) matches Some(at) ==> at <= old(arena).source_bytes().len(),
    ensures
        final(arena).wf(),
        extends(*old(arena), *final(arena)),
        final(extras)@.len() >= old(extras)@.len(),
        final(extras)@.len() < NO_EXTRAS,
        final(extras)@.subrange(0, old(extras)@.len() as int) == old(extras)@,
        forall|e: int| 0 <= e < final(extras)@.len() ==> extras_spans_ok(*final(arena), #[trigger] final(extras)@[e]),
        *final(cursor) matches Some(at) ==> at <= final(arena).source_bytes().len(),
        (*final(cursor)) is Some ==> (*old(cursor)) is Some,
        (*old(cursor)) is Some && element_layout(old(arena).source_bytes(), *child) is Some
            ==> *final(arena) == *old(arena),
        (*old(cursor)) is Some && element_layout(old(arena).source_bytes(), *child) is Some
            && first_cell + old(cells)@.len() + 2 < NO_EXTRAS && old(extras)@.len() + 2 < NO_EXTRAS
            ==> !(done matches Err(SmlError::SheetDataTooLarge { .. })),
        final(arena).total() <= old(arena).total() + lead_need(*old(cursor), old(pending)@) + cell_need(
            old(arena).source_bytes(),
            *child,
        ),
        done matches Err(SmlError::SheetDataTooLarge { .. }) ==> old(arena).total() + lead_need(
            *old(cursor),
            old(pending)@,
        ) + cell_need(old(arena).source_bytes(), *child) > MAXIMUM_ADDRESS || first_cell + old(
            cells,
        )@.len() + 1 >= NO_EXTRAS || old(extras)@.len() + 1 >= NO_EXTRAS,
        match done {
            Ok(()) => {
                &&& final(cells)@.len() == old(cells)@.len() + 1
                &&& final(extras)@.len() <= old(extras)@.len() + 1
                &&& first_cell + final(cells)@.len() < NO_EXTRAS
                &&& cells_read_as(*final(arena), final(cells)@, every, row_number)
                &&& fresh_cells(*final(arena), final(cells)@, from, final(extras)@.len() as int)
                &&& cells_led(
                    *final(arena),
                    final(extras)@,
                    final(cells)@,
                    gap_step(old(arena).source_bytes(), nodes, walk, *child, count),
                )
                &&& reader_at(
                    *final(cursor),
                    final(pending)@,
                    nodes,
                    gap_step(old(arena).source_bytes(), nodes, walk, *child, count),
                    count,
                )
                &&& cells_content(
                    *final(arena),
                    final(extras)@,
                    final(cells)@,
                    every,
                    old(arena).source_bytes(),
                )
            },
            Err(SmlError::Address(error)) => row_references(every, row_number, every.len() as int)
                == Err::<Seq<(nat, nat, Anchoring, Anchoring)>, AddressError>(error),
            Err(SmlError::SheetDataTooLarge { .. }) => true,
        },
{
    let ghost start = *arena;
    let ghost old_cells = cells@;
    let extent = extent_of(arena, child);
    let leading = match take_leading(arena, cursor, pending, extent) {
        Ok(span) => span,
        Err(error) => {
            proof {
                assert(extras@.subrange(0, extras@.len() as int) =~= extras@);
                lemma_extras_stable(start, *arena, extras@);
            }
            return Err(error);
        },
    };
    let ghost placed = *arena;
    let ghost next = gap_step(start.source_bytes(), nodes, walk, *child, count);
    proof {
        lemma_extras_stable(start, placed, extras@);
        assert(extras@.subrange(0, extras@.len() as int) =~= extras@);
        lemma_extent_range(start, *child);
        assert(span_bytes(placed, leading) == next.leadings[cells@.len() as int]);
    }
    if first_cell as u64 + cells.len() as u64 + 1 >= NO_EXTRAS as u64 || extras.len() + 1
        >= NO_EXTRAS as usize {
        return Err(SmlError::SheetDataTooLarge { bytes: arena.total_length() });
    }
    let previous = if cells.len() == 0 {
        None
    } else {
        Some(cells[cells.len() - 1].reference.column())
    };
    let ghost extras_before = extras@;
    let read = read_cell(arena, extras, child, extent, leading, row_number, previous);
    proof {
        lemma_chain(start, placed, *arena);
    }
    let cell = match read {
        Ok(cell) => cell,
        Err(error) => {
            proof {
                if let SmlError::Address(e) = error {
                    lemma_reference_fails_at(start, old_cells, every, row_number, e);
                }
            }
            return Err(error);
        },
    };
    cells.push(cell);
    proof {
        lemma_fresh_push(
            start,
            *arena,
            old_cells,
            cell,
            from,
            extras_before.len() as int,
            extras@.len() as int,
        );
        assert forall|k: int| 0 <= k < cells@.len() implies cell_read_as(
            #[trigger] cells@[k],
            every[k],
            extent_spec(*arena, every[k]),
            row_number,
            previous_column(cells@, k),
        ) by {
            if k < old_cells.len() {
                assert(cells@[k] == old_cells[k]);
                assert(previous_column(cells@, k) == previous_column(old_cells, k));
            }
        }
        lemma_cells_led_stable(start, *arena, extras_before, extras@, old_cells, walk);
        lemma_span_stable(placed, *arena, leading);
        assert forall|k: int| 0 <= k < cells@.len() implies span_bytes(
            *arena,
            extras_of(extras@, #[trigger] cells@[k]).leading,
        ) == next.leadings[k] by {
            if k < old_cells.len() {
                assert(cells@[k] == old_cells[k]);
            }
        }
        assert(cells_led(*arena, extras@, cells@, next));
        lemma_cells_content_stable(
            start,
            *arena,
            extras_before,
            extras@,
            old_cells,
            every,
            start.source_bytes(),
        );
        assert forall|k: int| 0 <= k < cells@.len() implies cell_content_read_as(
            cell_model(*arena, extras@, #[trigger] cells@[k]),
            every[k],
            start.source_bytes(),
        ) by {
            if k < old_cells.len() {
                assert(cells@[k] == old_cells[k]);
            }
        }
        assert(next.last == count);
        assert(pending@ == Seq::<u8>::empty() || (*cursor) is Some);
        assert(reader_at(*cursor, pending@, nodes, next, count));
    }
    Ok(())
}

/// Whether each of `cells` is led by the bytes `walk` found before it.
pub open spec fn cells_led(
    arena: TextArena,
    extras: Seq<CellExtras>,
    cells: Seq<PackedCell>,
    walk: GapWalk,
) -> bool {
    &&& walk.leadings.len() == cells.len()
    &&& forall|k: int|
        0 <= k < cells.len() ==> span_bytes(arena, extras_of(extras, #[trigger] cells[k]).leading)
            == walk.leadings[k]
}

/// Growing the arena and the extras records keeps the cells led as they were.
proof fn lemma_cells_led_stable(
    before: TextArena,
    after: TextArena,
    extras: Seq<CellExtras>,
    more: Seq<CellExtras>,
    cells: Seq<PackedCell>,
    walk: GapWalk,
)
    requires
        cells_led(before, extras, cells, walk),
        extends(before, after),
        more.len() >= extras.len(),
        more.subrange(0, extras.len() as int) == extras,
        forall|k: int|
            0 <= k < cells.len() ==> (#[trigger] cells[k]).extra == NO_EXTRAS || cells[k].extra
                < extras.len(),
        forall|e: int| 0 <= e < extras.len() ==> extras_spans_ok(before, #[trigger] extras[e]),
    ensures
        cells_led(after, more, cells, walk),
{
    assert forall|k: int| 0 <= k < cells.len() implies span_bytes(
        after,
        extras_of(more, #[trigger] cells[k]).leading,
    ) == walk.leadings[k] by {
        let cell = cells[k];
        if cell.extra != NO_EXTRAS {
            assert(more[cell.extra as int] == more.subrange(0, extras.len() as int)[cell.extra as int]);
        }
        assert(extras_of(more, cell) == extras_of(extras, cell));
        lemma_extras_of_ok(before, extras, cell);
        lemma_span_stable(before, after, extras_of(extras, cell).leading);
    }
}

/// Whether each of `cells` holds the parts of its element's own bytes.
pub open spec fn cells_content(
    arena: TextArena,
    extras: Seq<CellExtras>,
    cells: Seq<PackedCell>,
    elements: Seq<SourceElement>,
    source: Seq<u8>,
) -> bool {
    forall|k: int|
        0 <= k < cells.len() ==> cell_content_read_as(
            cell_model(arena, extras, #[trigger] cells[k]),
            elements[k],
            source,
        )
}

/// Growing the arena and the extras records changes no cell's model.
proof fn lemma_cell_model_grows(
    before: TextArena,
    after: TextArena,
    extras: Seq<CellExtras>,
    more: Seq<CellExtras>,
    cell: PackedCell,
)
    requires
        extends(before, after),
        more.len() >= extras.len(),
        more.subrange(0, extras.len() as int) == extras,
        cell.extra == NO_EXTRAS || cell.extra < extras.len(),
        cell_spans_ok(before, cell),
        forall|e: int| 0 <= e < extras.len() ==> extras_spans_ok(before, #[trigger] extras[e]),
    ensures
        cell_model(after, more, cell) == cell_model(before, extras, cell),
{
    if cell.extra != NO_EXTRAS {
        assert(more[cell.extra as int] == more.subrange(0, extras.len() as int)[cell.extra as int]);
    }
    assert(extras_of(more, cell) == extras_of(extras, cell));
    lemma_extras_of_ok(before, extras, cell);
    super::model::lemma_cell_stable(before, after, extras, cell);
}

/// Growing the arena and the extras records keeps each cell holding its parts.
proof fn lemma_cells_content_stable(
    before: TextArena,
    after: TextArena,
    extras: Seq<CellExtras>,
    more: Seq<CellExtras>,
    cells: Seq<PackedCell>,
    elements: Seq<SourceElement>,
    source: Seq<u8>,
)
    requires
        cells_content(before, extras, cells, elements, source),
        extends(before, after),
        more.len() >= extras.len(),
        more.subrange(0, extras.len() as int) == extras,
        forall|k: int|
            0 <= k < cells.len() ==> (#[trigger] cells[k]).extra == NO_EXTRAS || cells[k].extra
                < extras.len(),
        forall|k: int| 0 <= k < cells.len() ==> cell_spans_ok(before, #[trigger] cells[k]),
        forall|e: int| 0 <= e < extras.len() ==> extras_spans_ok(before, #[trigger] extras[e]),
    ensures
        cells_content(after, more, cells, elements, source),
{
    assert forall|k: int| 0 <= k < cells.len() implies cell_content_read_as(
        cell_model(after, more, #[trigger] cells[k]),
        elements[k],
        source,
    ) by {
        lemma_cell_model_grows(before, after, extras, more, cells[k]);
    }
}

/// What a row record read from `element` holds, apart from its spans.
pub open spec fn row_record_read_as(row: PackedRow, element: SourceElement) -> bool {
    &&& row.number == match row_number_spec(element) {
        Some(number) => number,
        None => 0,
    }
    &&& has_flag(row.flags, 1u8) == (row_number_spec(element) is Some)
}

/// Reads one row element: its record, owning the cells from `first_cell` on, and those cells.
/// Each cell's extras record, when it has one, goes on the end of `extras`.
///
/// A cell with no `r` is addressed in the row's `r`, or — when the row writes none either — in
/// the row at `row_position` counted from one.
///
/// # Errors
///
/// [`SmlError::Address`] for the first cell whose reference does not resolve;
/// [`SmlError::SheetDataTooLarge`] when what is stored does not fit, or the records outgrow their
/// `u32` indices.
#[verifier::rlimit(40)]
fn read_row(
    arena: &mut TextArena,
    extras: &mut Vec<CellExtras>,
    element: &SourceElement,
    leading: TextSpan,
    row_position: usize,
    first_cell: u32,
) -> (read: Result<(PackedRow, Vec<PackedCell>), SmlError>)
    requires
        old(arena).wf(),
        span_ok(*old(arena), leading),
        old(extras)@.len() < NO_EXTRAS,
        first_cell < NO_EXTRAS,
        forall|e: int| 0 <= e < old(extras)@.len() ==> extras_spans_ok(*old(arena), #[trigger] old(extras)@[e]),
    ensures
        final(arena).wf(),
        extends(*old(arena), *final(arena)),
        final(extras)@.len() >= old(extras)@.len(),
        final(extras)@.len() < NO_EXTRAS,
        final(extras)@.subrange(0, old(extras)@.len() as int) == old(extras)@,
        forall|e: int| 0 <= e < final(extras)@.len() ==> extras_spans_ok(*final(arena), #[trigger] final(extras)@[e]),
        row_fully_ranged(old(arena).source_bytes(), *element) && first_cell + cell_elements(
            *element,
        ).len() + 1 < NO_EXTRAS && old(extras)@.len() + cell_elements(*element).len() + 1
            < NO_EXTRAS ==> !(read matches Err(SmlError::SheetDataTooLarge { .. })),
        final(arena).total() <= old(arena).total() + row_need(old(arena).source_bytes(), *element),
        read matches Err(SmlError::SheetDataTooLarge { .. }) ==> old(arena).total() + row_need(
            old(arena).source_bytes(),
            *element,
        ) > MAXIMUM_ADDRESS || first_cell + cell_elements(*element).len() >= NO_EXTRAS || old(
            extras,
        )@.len() + cell_elements(*element).len() >= NO_EXTRAS,
        match read {
            Ok((row, cells)) => {
                &&& row_record_read_as(row, *element)
                &&& row.first_cell == first_cell
                &&& row.cell_count == cells@.len()
                &&& first_cell + cells@.len() < NO_EXTRAS
                &&& row.leading == leading
                &&& row.extent == extent_spec(*old(arena), *element)
                &&& row_spans_ok(*final(arena), row)
                &&& has_flag(row.flags, 4u8) == columns_ascend_in(cells@, 0, cells@.len() as int)
                &&& fresh_cells(*final(arena), cells@, old(extras)@.len() as int, final(extras)@.len() as int)
                &&& cells@.len() == cell_elements(*element).len()
                &&& cells_read_as(
                    *final(arena),
                    cells@,
                    cell_elements(*element),
                    row_number_used(*element, row_position as int),
                )
                &&& row_layout_read_as(
                    *final(arena),
                    final(extras)@,
                    row,
                    cells@,
                    *element,
                    old(arena).source_bytes(),
                )
                &&& cells_content(
                    *final(arena),
                    final(extras)@,
                    cells@,
                    cell_elements(*element),
                    old(arena).source_bytes(),
                )
                &&& row_fully_ranged(old(arena).source_bytes(), *element) ==> *final(arena)
                    == *old(arena)
                &&& final(extras)@.len() <= old(extras)@.len() + cells@.len()
            },
            Err(SmlError::Address(error)) => row_references(
                cell_elements(*element),
                row_number_used(*element, row_position as int),
                cell_elements(*element).len() as int,
            ) == Err::<Seq<(nat, nat, Anchoring, Anchoring)>, AddressError>(error),
            Err(SmlError::SheetDataTooLarge { .. }) => true,
        },
{
    let ghost start = *arena;
    let ghost src = arena.source_bytes();
    let ghost start_extras = extras@;
    let extent = extent_of(arena, element);
    let layout = layout_of(arena, element, extent);
    proof {
        lemma_extent_bytes(start, *element);
        assert(layout == element_layout(src, *element));
    }
    let ghost walk_start = layout_cursor(layout);
    let attributes = match layout {
        Some(layout) => layout.attribute_run,
        None => match rebuild_attribute_run(arena, element) {
            Ok(run) => run,
            Err(error) => {
                proof {
                    assert(extras@.subrange(0, start_extras.len() as int) =~= start_extras);
                    lemma_extras_stable(start, *arena, extras@);
                    lemma_row_need_within(src, *element, 0, 0);
                }
                return Err(error);
            },
        },
    };
    let ghost after_run = *arena;
    proof {
        assert(after_run.total() <= start.total() + run_need(src, *element));
    }
    proof {
        if let Some(found) = layout {
            lemma_stays(start, after_run);
            lemma_in_source(after_run, attributes);
            lemma_run_bytes(start, found.attribute_run);
        }
        lemma_span_stable(start, after_run, leading);
        lemma_span_stable(start, after_run, extent);
        lemma_extras_stable(start, after_run, extras@);
        lemma_stays(after_run, *arena);
        assert(extras@.subrange(0, start_extras.len() as int) =~= start_extras);
    }
    let r_name = vec![114u8];
    let c_name = vec![99u8];
    proof {
        assert(r_name@ =~= seq![114u8]);
        assert(c_name@ =~= seq![99u8]);
    }
    let number = match attribute_text(element, r_name.as_slice()) {
        Some(text) => parse_decimal(text, u32::MAX),
        None => None,
    };
    let row_number: u32 = match number {
        Some(number) => number,
        None => if row_position >= u32::MAX as usize {
            u32::MAX
        } else {
            row_position as u32 + 1
        },
    };
    let self_closing = match layout {
        Some(layout) => layout.self_closing,
        None => element.empty,
    };
    let mut cursor: Option<u32> = match layout {
        Some(layout) => Some(layout.inner_start),
        None => None,
    };
    let mut pending: Vec<u8> = Vec::new();
    let mut cells: Vec<PackedCell> = Vec::new();
    let ghost children = element.children@;
    let ghost every = cell_elements(*element);
    let ghost from = start_extras.len() as int;
    let count = element.children.len();
    proof {
        assert(nodes_markup(children, 0, 0, -1) =~= Seq::<u8>::empty());
    }
    let mut i: usize = 0;
    while i < count
        invariant
            count == children.len(),
            children == element.children@,
            every == cell_elements(*element),
            every == elements_named(children, seq![99u8], children.len() as int),
            c_name@ == seq![99u8],
            from == start_extras.len(),
            start_extras == old(extras)@,
            start == *old(arena),
            src == start.source_bytes(),
            walk_start == layout_cursor(layout),
            row_number == row_number_used(*element, row_position as int),
            i <= count,
            arena.wf(),
            arena.source_bytes() == src,
            extends(after_run, *arena),
            extends(start, after_run),
            extras@.len() >= start_extras.len(),
            extras@.len() < NO_EXTRAS,
            extras@.subrange(0, start_extras.len() as int) == start_extras,
            forall|e: int| 0 <= e < extras@.len() ==> extras_spans_ok(*arena, #[trigger] extras@[e]),
            cells@.len() == elements_named(children, seq![99u8], i as int).len(),
            first_cell + cells@.len() < NO_EXTRAS,
            cells_read_as(*arena, cells@, every, row_number),
            fresh_cells(*arena, cells@, from, extras@.len() as int),
            cells_led(*arena, extras@, cells@, gap_walk(src, children, seq![99u8], walk_start, i as int)),
            cells_content(*arena, extras@, cells@, every, src),
            row_fully_ranged(src, *element) ==> *arena == start && gap_walk(
                src,
                children,
                seq![99u8],
                walk_start,
                children.len() as int,
            ).cursor is Some,
            extras@.len() <= start_extras.len() + cells@.len(),
            cells@.len() <= every.len(),
            reader_at(
                cursor,
                pending@,
                children,
                gap_walk(src, children, seq![99u8], walk_start, i as int),
                i as int,
            ),
            cursor matches Some(at) ==> at <= arena.source_bytes().len() && layout is Some,
            layout matches Some(found) ==> found.inner_end <= arena.source_bytes().len(),
            layout == element_layout(src, *element),
            arena.total() <= start.total() + run_need(src, *element) + gaps_need(
                src,
                children,
                seq![99u8],
                walk_start,
                i as int,
            ) + cells_need(src, every, cells@.len() as int),
        decreases count - i,
    {
        proof {
            lemma_elements_prefix(children, seq![99u8], i as int, i + 1);
            lemma_elements_prefix(children, seq![99u8], i + 1, children.len() as int);
        }
        let ghost walk = gap_walk(src, children, seq![99u8], walk_start, i as int);
        match &element.children[i] {
            SourceNode::Element(child) => {
                if crate::arena::attributes::bytes_equal(child.local.as_slice(), c_name.as_slice()) {
                    let ghost before = *arena;
                    let ghost extras_before = extras@;
                    proof {
                        assert(elements_named(children, seq![99u8], i + 1) =~= elements_named(
                            children,
                            seq![99u8],
                            i as int,
                        ).push(*child));
                        assert(elements_named(children, seq![99u8], i + 1)[cells@.len() as int] == *child);
                        assert(gap_walk(src, children, seq![99u8], walk_start, i + 1) == gap_step(
                            src,
                            children,
                            walk,
                            *child,
                            i + 1,
                        ));
                    }
                    proof {
                        if row_fully_ranged(src, *element) {
                            lemma_walk_lasts(src, children, seq![99u8], walk_start, i as int, children.len() as int);
                            assert(element_layout(src, every[cells@.len() as int]) is Some);
                        }
                    }
                    let ghost k = cells@.len() as int;
                    let ghost lead = lead_need(cursor, pending@);
                    proof {
                        assert(gaps_need(src, children, seq![99u8], walk_start, i + 1) == gaps_need(
                            src,
                            children,
                            seq![99u8],
                            walk_start,
                            i as int,
                        ) + lead_need(cursor, pending@));
                        assert(cells_need(src, every, k + 1) == cells_need(src, every, k) + cell_need(
                            src,
                            *child,
                        ));
                        lemma_row_need_within(src, *element, i + 1, k + 1);
                    }
                    let done = read_next_cell(
                        arena,
                        extras,
                        &mut cells,
                        &mut cursor,
                        &mut pending,
                        child,
                        row_number,
                        first_cell,
                        Ghost(every),
                        Ghost(from),
                        Ghost(children),
                        Ghost(walk),
                        Ghost(i + 1),
                    );
                    proof {
                        lemma_chain(after_run, before, *arena);
                        lemma_chain(start, after_run, *arena);
                        assert(extras@.subrange(0, start_extras.len() as int) =~= extras@.subrange(
                            0,
                            extras_before.len() as int,
                        ).subrange(0, start_extras.len() as int));
                    }
                    match done {
                        Ok(()) => {},
                        Err(error) => {
                            proof {
                                assert(before.total() <= start.total() + run_need(src, *element)
                                    + gaps_need(src, children, seq![99u8], walk_start, i as int)
                                    + cells_need(src, every, k));
                                assert(k + 1 <= every.len());
                                assert(extras_before.len() <= start_extras.len() + k);
                                assert(arena.total() <= before.total() + lead + cell_need(src, *child));
                                assert(arena.total() <= start.total() + row_need(src, *element));
                            }
                            return Err(error);
                        },
                    }
                } else {
                    proof {
                        assert(gap_walk(src, children, seq![99u8], walk_start, i + 1) == walk);
                    }
                    if cursor.is_none() {
                        pending.extend_from_slice(child.markup.as_slice());
                        proof {
                            assert(nodes_markup(children, walk.last, i + 1, -1) =~= nodes_markup(
                                children,
                                walk.last,
                                i as int,
                                -1,
                            ) + child.markup@);
                        }
                    }
                    proof {
                        let w = gap_walk(src, children, seq![99u8], walk_start, i + 1);
                        assert(cursor is None ==> pending@ == nodes_markup(children, w.last, i + 1, -1));
                        assert(reader_at(cursor, pending@, children, w, i + 1));
                    }
                }
            },
            SourceNode::Text(text) => {
                proof {
                    assert(gap_walk(src, children, seq![99u8], walk_start, i + 1) == walk);
                }
                if cursor.is_none() {
                    pending.extend_from_slice(text.as_slice());
                    proof {
                        assert(nodes_markup(children, walk.last, i + 1, -1) =~= nodes_markup(
                            children,
                            walk.last,
                            i as int,
                            -1,
                        ) + text@);
                    }
                }
                proof {
                    let w = gap_walk(src, children, seq![99u8], walk_start, i + 1);
                    assert(cursor is None ==> pending@ == nodes_markup(children, w.last, i + 1, -1));
                    assert(reader_at(cursor, pending@, children, w, i + 1));
                }
            },
            SourceNode::Other(other) => {
                proof {
                    assert(gap_walk(src, children, seq![99u8], walk_start, i + 1) == walk);
                }
                if cursor.is_none() {
                    pending.extend_from_slice(other.as_slice());
                    proof {
                        assert(nodes_markup(children, walk.last, i + 1, -1) =~= nodes_markup(
                            children,
                            walk.last,
                            i as int,
                            -1,
                        ) + other@);
                    }
                }
                proof {
                    let w = gap_walk(src, children, seq![99u8], walk_start, i + 1);
                    assert(cursor is None ==> pending@ == nodes_markup(children, w.last, i + 1, -1));
                    assert(reader_at(cursor, pending@, children, w, i + 1));
                }
            },
        }
        i = i + 1;
    }
    let ghost walk = gap_walk(src, children, seq![99u8], walk_start, count as int);
    let ghost before_trailing = *arena;
    let trailing = match (cursor, layout) {
        (Some(at), Some(layout)) => {
            let span = span_between(at, layout.inner_end);
            proof {
                lemma_stays(before_trailing, *arena);
                lemma_in_source(*arena, span);
                if at <= layout.inner_end {
                    lemma_between_bytes(*arena, at as int, layout.inner_end as int);
                }
            }
            span
        },
        _ => match store_unless_empty(arena, pending.as_slice()) {
            Ok(span) => span,
            Err(error) => {
                proof {
                    lemma_chain(start, after_run, before_trailing);
                    lemma_chain(start, before_trailing, *arena);
                    lemma_extras_stable(before_trailing, *arena, extras@);
                    lemma_row_need_within(src, *element, count as int, cells@.len() as int);
                }
                return Err(error);
            },
        },
    };
    proof {
        lemma_row_need_within(src, *element, count as int, cells@.len() as int);
    }
    proof {
        lemma_chain(after_run, before_trailing, *arena);
        lemma_chain(start, after_run, *arena);
        lemma_extras_stable(before_trailing, *arena, extras@);
        lemma_fresh_stable(before_trailing, *arena, cells@, from, extras@.len() as int);
        lemma_span_stable(after_run, *arena, leading);
        lemma_span_stable(after_run, *arena, extent);
        lemma_span_stable(after_run, *arena, attributes);
        assert(extras@.subrange(0, extras@.len() as int) =~= extras@);
        lemma_cells_led_stable(before_trailing, *arena, extras@, extras@, cells@, walk);
        lemma_cells_content_stable(before_trailing, *arena, extras@, extras@, cells@, every, src);
    }
    let ascending = crate::cells::store::columns_ascend(&cells, 0, cells.len());
    let mut flags: u8 = 0;
    if number.is_some() {
        flags = flags | 1u8;
    }
    if self_closing {
        flags = flags | 2u8;
    }
    if ascending {
        flags = flags | 4u8;
    }
    proof {
        assert(!has_flag(0u8, 1u8) && !has_flag(0u8, 2u8) && !has_flag(0u8, 4u8) && has_flag(0u8 | 1u8, 1u8)
            && !has_flag(0u8 | 1u8, 2u8) && !has_flag(0u8 | 1u8, 4u8)) by (bit_vector);
        assert(forall|f: u8| #![auto] has_flag(f | 2u8, 1u8) == has_flag(f, 1u8) && has_flag(f | 2u8, 2u8) && has_flag(f | 2u8, 4u8) == has_flag(f, 4u8)) by (bit_vector);
        assert(forall|f: u8| #![auto] has_flag(f | 4u8, 1u8) == has_flag(f, 1u8) && has_flag(f | 4u8, 2u8) == has_flag(f, 2u8) && has_flag(f | 4u8, 4u8)) by (bit_vector);
        assert(elements_named(children, seq![99u8], children.len() as int) == every);
    }
    let row = PackedRow {
        number: match number {
            Some(number) => number,
            None => 0,
        },
        first_cell,
        cell_count: cells.len() as u32,
        leading,
        extent,
        attributes,
        trailing,
        flags,
    };
    Ok((row, cells))
}

/// What the gaps before the elements named `name` among the first `count` of `nodes` store: the
/// markup gathered before each one that is met once the cursor is gone.
pub open spec fn gaps_need(
    source: Seq<u8>,
    nodes: Seq<SourceNode>,
    name: Seq<u8>,
    start: Option<int>,
    count: int,
) -> int
    decreases count,
{
    if count <= 0 {
        0
    } else {
        let walk = gap_walk(source, nodes, name, start, count - 1);
        gaps_need(source, nodes, name, start, count - 1) + match nodes[count - 1] {
            SourceNode::Element(element) => if element.local@ == name && walk.cursor is None {
                nodes_markup(nodes, walk.last, count - 1, -1).len() as int
            } else {
                0
            },
            _ => 0,
        }
    }
}

/// What the bytes after the last element named `name` among `nodes` store: the markup gathered
/// since it, once the cursor is gone, and nothing while it lasts.
pub open spec fn trailing_need(source: Seq<u8>, nodes: Seq<SourceNode>, name: Seq<u8>, start: Option<int>) -> int {
    let walk = gap_walk(source, nodes, name, start, nodes.len() as int);
    match walk.cursor {
        Some(_) => 0,
        None => nodes_markup(nodes, walk.last, nodes.len() as int, -1).len() as int,
    }
}

/// What reading the first `count` of `cells` stores.
pub open spec fn cells_need(source: Seq<u8>, cells: Seq<SourceElement>, count: int) -> int
    decreases count,
{
    if count <= 0 {
        0
    } else {
        cells_need(source, cells, count - 1) + cell_need(source, cells[count - 1])
    }
}

/// What reading a row element stores beside the part's own bytes: its attribute run, the gaps
/// before its cells and after the last, and the cells themselves.
pub open spec fn row_need(source: Seq<u8>, row: SourceElement) -> int {
    let start = layout_cursor(element_layout(source, row));
    let children = row.children@;
    run_need(source, row) + gaps_need(source, children, seq![99u8], start, children.len() as int)
        + trailing_need(source, children, seq![99u8], start) + cells_need(
        source,
        cell_elements(row),
        cell_elements(row).len() as int,
    )
}

/// The gaps stored so far only grow, and never below nothing.
proof fn lemma_gaps_need_grow(
    source: Seq<u8>,
    nodes: Seq<SourceNode>,
    name: Seq<u8>,
    start: Option<int>,
    count: int,
    more: int,
)
    requires
        count <= more,
    ensures
        0 <= gaps_need(source, nodes, name, start, count) <= gaps_need(source, nodes, name, start, more),
    decreases more - count + if count > 0 {
        count
    } else {
        0
    },
{
    if count < more {
        lemma_gaps_need_grow(source, nodes, name, start, count, more - 1);
    } else if count > 0 {
        lemma_gaps_need_grow(source, nodes, name, start, count - 1, count - 1);
    }
}

/// What the first cells store only grows, and never below nothing.
proof fn lemma_cells_need_grow(source: Seq<u8>, cells: Seq<SourceElement>, count: int, more: int)
    requires
        count <= more,
    ensures
        0 <= cells_need(source, cells, count) <= cells_need(source, cells, more),
    decreases more - count + if count > 0 {
        count
    } else {
        0
    },
{
    if count < more {
        lemma_cells_need_grow(source, cells, count, more - 1);
    } else if count > 0 {
        lemma_cells_need_grow(source, cells, count - 1, count - 1);
    }
}

/// What a row's first `count` nodes and first `k` cells stored is within what the whole row does.
proof fn lemma_row_need_within(source: Seq<u8>, row: SourceElement, count: int, k: int)
    requires
        count <= row.children@.len(),
        k <= cell_elements(row).len(),
    ensures
        0 <= run_need(source, row) + gaps_need(
            source,
            row.children@,
            seq![99u8],
            layout_cursor(element_layout(source, row)),
            count,
        ) + cells_need(source, cell_elements(row), k) <= row_need(source, row),
{
    let start = layout_cursor(element_layout(source, row));
    lemma_gaps_need_grow(source, row.children@, seq![99u8], start, count, row.children@.len() as int);
    lemma_cells_need_grow(source, cell_elements(row), k, cell_elements(row).len() as int);
}

/// What reading the first `count` of `rows` stores.
pub open spec fn rows_need(source: Seq<u8>, rows: Seq<SourceElement>, count: int) -> int
    decreases count,
{
    if count <= 0 {
        0
    } else {
        rows_need(source, rows, count - 1) + row_need(source, rows[count - 1])
    }
}

/// What reading a `sheetData` element stores beside the part's own bytes: its attribute run, the
/// gaps before its rows and after the last, and the rows themselves.
pub open spec fn sheet_need(source: Seq<u8>, sheet: SourceElement) -> int {
    let start = layout_cursor(element_layout(source, sheet));
    let children = sheet.children@;
    run_need(source, sheet) + gaps_need(source, children, local_row(), start, children.len() as int)
        + trailing_need(source, children, local_row(), start) + rows_need(
        source,
        row_elements(sheet),
        row_elements(sheet).len() as int,
    )
}

/// Whether reading a `sheetData` element outgrows the store: a part beyond the `u32` byte space,
/// the part and what the reader stores beside it beyond that space, or more rows and cells than
/// the records are counted in.
pub open spec fn outgrows_store(source: Seq<u8>, element: SourceElement) -> bool {
    let rows = row_elements(element);
    ||| source.len() > MAXIMUM_ADDRESS
    ||| source.len() + sheet_need(source, element) > MAXIMUM_ADDRESS
    ||| rows.len() + total_cells(rows, rows.len() as int) + 1 >= NO_EXTRAS
}

/// A row never stores less than nothing.
proof fn lemma_row_need_nonnegative(source: Seq<u8>, row: SourceElement)
    ensures
        row_need(source, row) >= 0,
{
    lemma_row_need_within(source, row, 0, 0);
}

/// What the first rows store only grows, and never below nothing.
proof fn lemma_rows_need_grow(source: Seq<u8>, rows: Seq<SourceElement>, count: int, more: int)
    requires
        count <= more,
    ensures
        0 <= rows_need(source, rows, count) <= rows_need(source, rows, more),
    decreases more - count + if count > 0 {
        count
    } else {
        0
    },
{
    if count < more {
        lemma_rows_need_grow(source, rows, count, more - 1);
        lemma_row_need_nonnegative(source, rows[more - 1]);
    } else if count > 0 {
        lemma_rows_need_grow(source, rows, count - 1, count - 1);
        lemma_row_need_nonnegative(source, rows[count - 1]);
    }
}

/// What a sheet's first `count` nodes and first `r` rows stored is within what the whole sheet
/// does.
proof fn lemma_sheet_need_within(source: Seq<u8>, sheet: SourceElement, count: int, r: int)
    requires
        count <= sheet.children@.len(),
        r <= row_elements(sheet).len(),
    ensures
        0 <= run_need(source, sheet) + gaps_need(
            source,
            sheet.children@,
            local_row(),
            layout_cursor(element_layout(source, sheet)),
            count,
        ) + rows_need(source, row_elements(sheet), r) <= sheet_need(source, sheet),
{
    let start = layout_cursor(element_layout(source, sheet));
    lemma_gaps_need_grow(source, sheet.children@, local_row(), start, count, sheet.children@.len() as int);
    lemma_rows_need_grow(source, row_elements(sheet), r, row_elements(sheet).len() as int);
}

/// Whether a row element and every cell in it can be read from ranges of the source alone: each
/// has a layout there, and every gap before a cell is a range.
pub open spec fn row_fully_ranged(source: Seq<u8>, row: SourceElement) -> bool {
    &&& element_layout(source, row) is Some
    &&& row_walk(source, row).cursor is Some
    &&& forall|k: int|
        0 <= k < cell_elements(row).len() ==> (#[trigger] element_layout(
            source,
            cell_elements(row)[k],
        )) is Some
}

/// A walk whose cursor lasts to the end had it at every step before.
proof fn lemma_walk_lasts(source: Seq<u8>, nodes: Seq<SourceNode>, name: Seq<u8>, start: Option<int>, i: int, count: int)
    requires
        0 <= i <= count,
        gap_walk(source, nodes, name, start, count).cursor is Some,
    ensures
        gap_walk(source, nodes, name, start, i).cursor is Some,
    decreases count - i,
{
    if i < count {
        lemma_walk_lasts(source, nodes, name, start, i + 1, count);
        let walk = gap_walk(source, nodes, name, start, i);
        let next = gap_walk(source, nodes, name, start, i + 1);
        if walk.cursor is None {
            match nodes[i] {
                SourceNode::Element(element) => {
                    if element.local@ == name {
                        assert(next.cursor is None);
                    }
                },
                _ => {},
            }
        }
    }
}

/// The walk over a row element's children that finds the gap before each cell.
pub open spec fn row_walk(source: Seq<u8>, element: SourceElement) -> GapWalk {
    gap_walk(
        source,
        element.children@,
        seq![99u8],
        layout_cursor(element_layout(source, element)),
        element.children@.len() as int,
    )
}

/// Whether a row record and its cells hold the parts of the row element's own bytes: its start
/// tag's attribute run, how it closed, the gap before each cell and the bytes after the last.
pub open spec fn row_layout_read_as(
    arena: TextArena,
    extras: Seq<CellExtras>,
    row: PackedRow,
    cells: Seq<PackedCell>,
    element: SourceElement,
    source: Seq<u8>,
) -> bool {
    &&& span_bytes(arena, row.attributes) == layout_run_bytes(source, element, element_layout(source, element))
    &&& has_flag(row.flags, 2u8) == layout_closes(element, element_layout(source, element))
    &&& span_bytes(arena, row.trailing) == gap_trailing(
        source,
        element.children@,
        row_walk(source, element),
        layout_inner_end(element_layout(source, element)),
    )
    &&& cells_led(arena, extras, cells, row_walk(source, element))
}

/// Growing the arena keeps cells just read fitting.
proof fn lemma_fresh_stable(before: TextArena, after: TextArena, cells: Seq<PackedCell>, from: int, to: int)
    requires
        fresh_cells(before, cells, from, to),
        extends(before, after),
    ensures
        fresh_cells(after, cells, from, to),
{
    assert forall|k: int| 0 <= k < cells.len() implies cell_spans_ok(after, #[trigger] cells[k]) by {
        lemma_span_stable(before, after, cells[k].extent);
        lemma_span_stable(before, after, cells[k].payload);
    }
}


/// The row elements among a `sheetData` element's children, in order.
pub open spec fn row_elements(sheet: SourceElement) -> Seq<SourceElement> {
    elements_named(sheet.children@, local_row(), sheet.children@.len() as int)
}

/// The bytes an element's range covers in `source`, when the range lies inside it.
pub open spec fn element_bytes(source: Seq<u8>, element: SourceElement) -> Option<Seq<u8>> {
    match element.span {
        Some((start, end)) => if end < start || end > source.len() {
            None
        } else {
            Some(source.subrange(start as int, end as int))
        },
        None => None,
    }
}

/// The bytes handed to the reader, or none.
pub open spec fn source_view(source: Option<Vec<u8>>) -> Seq<u8> {
    match source {
        Some(bytes) => bytes@,
        None => Seq::empty(),
    }
}

/// Whether a cell read from `element` addressed at `parts` means what the element says.
pub open spec fn cell_model_read_as(
    cell: CellModel,
    element: SourceElement,
    source: Seq<u8>,
    parts: (nat, nat, Anchoring, Anchoring),
) -> bool {
    &&& cell.reference.has_parts(parts.0, parts.1, parts.2, parts.3)
    &&& cell.extent == element_bytes(source, element)
    &&& cell.style == match cell_style_spec(element) {
        Some(style) => style,
        None => 0,
    }
    &&& has_flag(cell.flags, 1u8) == (attribute_text_spec(element, seq![114u8]) is Some)
    &&& has_flag(cell.flags, 2u8) == (cell_style_spec(element) is Some)
    &&& cell.kind == match cell_type_spec(element) {
        Some(cell_type) => code_of(cell_type),
        None => 0u8,
    }
    &&& cell_content_read_as(cell, element, source)
}

/// Whether a row read from `element`, the row element at `position`, means what the element
/// says: its number, its own bytes, and each of its cells at the reference it resolves to.
pub open spec fn row_read_as(row: RowModel, element: SourceElement, source: Seq<u8>, position: int) -> bool {
    &&& row.number == match row_number_spec(element) {
        Some(number) => number,
        None => 0,
    }
    &&& has_flag(row.flags, 1u8) == (row_number_spec(element) is Some)
    &&& row.extent == element_bytes(source, element)
    &&& row.cells.len() == cell_elements(element).len()
    &&& row_references(
        cell_elements(element),
        row_number_used(element, position),
        row.cells.len() as int,
    ) matches Ok(parts) && forall|k: int|
        0 <= k < row.cells.len() ==> cell_model_read_as(
            #[trigger] row.cells[k],
            cell_elements(element)[k],
            source,
            parts[k],
        )
    &&& row.attributes == layout_run_bytes(source, element, element_layout(source, element))
    &&& has_flag(row.flags, 2u8) == layout_closes(element, element_layout(source, element))
    &&& row.trailing == gap_trailing(
        source,
        element.children@,
        row_walk(source, element),
        layout_inner_end(element_layout(source, element)),
    )
    &&& forall|k: int|
        0 <= k < row.cells.len() ==> (#[trigger] row.cells[k]).leading == row_walk(
            source,
            element,
        ).leadings[k]
}

/// The references of every cell of the first `count` rows, row after row; the first that does
/// not resolve is the error.
pub open spec fn sheet_references(rows: Seq<SourceElement>, count: int) -> Result<(), AddressError>
    decreases count,
{
    if count <= 0 {
        Ok(())
    } else {
        match sheet_references(rows, count - 1) {
            Err(error) => Err(error),
            Ok(()) => match row_references(
                cell_elements(rows[count - 1]),
                row_number_used(rows[count - 1], count - 1),
                cell_elements(rows[count - 1]).len() as int,
            ) {
                Ok(_) => Ok(()),
                Err(error) => Err(error),
            },
        }
    }
}

/// Once the references of the first rows fail, so do those of any more of them.
proof fn lemma_sheet_references_fail(rows: Seq<SourceElement>, count: int, more: int)
    requires
        count <= more,
        sheet_references(rows, count) is Err,
    ensures
        sheet_references(rows, more) == sheet_references(rows, count),
    decreases more - count,
{
    if count < more {
        lemma_sheet_references_fail(rows, count, more - 1);
    }
}

/// An element's extent, seen through the arena, is the bytes its range covers in the source.
proof fn lemma_extent_bytes(arena: TextArena, element: SourceElement)
    requires
        arena.wf(),
    ensures
        span_bytes(arena, extent_spec(arena, element)) == element_bytes(arena.source_bytes(), element),
{
    arena.lemma_bounded();
    let span = extent_spec(arena, element);
    if !span.absent() {
        assert(arena.space().subrange(span.start as int, span.spec_end()) =~= arena.source_bytes().subrange(
            span.start as int,
            span.spec_end(),
        ));
    }
}

/// Committing a row just read keeps the records well formed, appends its model, and that model
/// says what its element says.
proof fn lemma_commit_read_row(
    before: TextArena,
    after: TextArena,
    old_extras: Seq<CellExtras>,
    extras: Seq<CellExtras>,
    cells: Seq<PackedCell>,
    rows: Seq<PackedRow>,
    new_cells: Seq<PackedCell>,
    row: PackedRow,
    element: SourceElement,
    position: int,
)
    requires
        records_wf(before, old_extras, cells, rows),
        extras_unshared(cells),
        extends(before, after),
        after.wf(),
        extras.len() >= old_extras.len(),
        extras.len() < NO_EXTRAS,
        extras.subrange(0, old_extras.len() as int) == old_extras,
        forall|e: int| 0 <= e < extras.len() ==> extras_spans_ok(after, #[trigger] extras[e]),
        forall|i: int|
            0 <= i < rows.len() && has_flag(#[trigger] rows[i].flags, 4u8) ==> columns_ascend_in(
                cells,
                rows[i].first_cell as int,
                rows[i].first_cell + rows[i].cell_count,
            ),
        row_record_read_as(row, element),
        row.first_cell == cells.len(),
        row.cell_count == new_cells.len(),
        cells.len() + new_cells.len() < NO_EXTRAS,
        rows.len() + 1 < NO_EXTRAS,
        row.extent == extent_spec(before, element),
        row_spans_ok(after, row),
        has_flag(row.flags, 4u8) == columns_ascend_in(new_cells, 0, new_cells.len() as int),
        fresh_cells(after, new_cells, old_extras.len() as int, extras.len() as int),
        new_cells.len() == cell_elements(element).len(),
        cells_read_as(after, new_cells, cell_elements(element), row_number_used(element, position)),
        row_layout_read_as(after, extras, row, new_cells, element, after.source_bytes()),
        cells_content(after, extras, new_cells, cell_elements(element), after.source_bytes()),
    ensures
        records_wf(after, extras, cells + new_cells, rows.push(row)),
        extras_unshared(cells + new_cells),
        rows_model(after, extras, cells + new_cells, rows.push(row)) == rows_model(
            before,
            old_extras,
            cells,
            rows,
        ).push(row_model(after, extras, cells + new_cells, row)),
        row_read_as(row_model(after, extras, cells + new_cells, row), element, after.source_bytes(), position),
        forall|i: int|
            0 <= i < rows.len() + 1 && has_flag(#[trigger] rows.push(row)[i].flags, 4u8)
                ==> columns_ascend_in(
                cells + new_cells,
                rows.push(row)[i].first_cell as int,
                rows.push(row)[i].first_cell + rows.push(row)[i].cell_count,
            ),
{
    let all = cells + new_cells;
    let n = cells.len() as int;
    lemma_rows_stable(before, after, old_extras, cells, rows);
    lemma_extras_grow(after, old_extras, extras, cells, rows);
    lemma_commit_row(after, extras, cells, rows, new_cells, row, old_extras.len() as int);
    let model = row_model(after, extras, all, row);
    let number = row_number_used(element, position);
    let elements = cell_elements(element);
    lemma_references_step(after, new_cells, elements, number);
    lemma_extent_bytes(after, element);
    let parts = row_references(elements, number, new_cells.len() as int)->Ok_0;
    assert forall|k: int| 0 <= k < model.cells.len() implies cell_model_read_as(
        #[trigger] model.cells[k],
        elements[k],
        after.source_bytes(),
        parts[k],
    ) by {
        assert(model.cells[k] == cell_model(after, extras, new_cells[k]));
        assert(cell_read_as(
            new_cells[k],
            elements[k],
            extent_spec(after, elements[k]),
            number,
            previous_column(new_cells, k),
        ));
        lemma_extent_bytes(after, elements[k]);
    }
    assert forall|k: int| 0 <= k < model.cells.len() implies (#[trigger] model.cells[k]).leading
        == row_walk(after.source_bytes(), element).leadings[k] by {
        assert(model.cells[k] == cell_model(after, extras, new_cells[k]));
    }
    let grown = rows.push(row);
    assert forall|i: int|
        0 <= i < rows.len() + 1 && has_flag(#[trigger] grown[i].flags, 4u8) implies columns_ascend_in(
        all,
        grown[i].first_cell as int,
        grown[i].first_cell + grown[i].cell_count,
    ) by {
        if i < rows.len() {
            assert(grown[i] == rows[i]);
            assert(rows[i].first_cell + rows[i].cell_count <= cells.len());
            assert forall|a: int, b: int|
                grown[i].first_cell <= a < b < grown[i].first_cell + grown[i].cell_count implies #[trigger] all[a].reference.column_index()
                    < #[trigger] all[b].reference.column_index() by {
                assert(all[a] == cells[a]);
                assert(all[b] == cells[b]);
            }
        } else {
            assert forall|a: int, b: int|
                n <= a < b < n + new_cells.len() implies #[trigger] all[a].reference.column_index()
                    < #[trigger] all[b].reference.column_index() by {
                assert(all[a] == new_cells[a - n]);
                assert(all[b] == new_cells[b - n]);
            }
        }
    }
}

/// The first element among `nodes` from `from` on whose local name is `name`.
pub open spec fn first_element_named(nodes: Seq<SourceNode>, name: Seq<u8>, from: int) -> Option<
    SourceElement,
>
    decreases nodes.len() - from,
{
    if from < 0 || from >= nodes.len() {
        None
    } else {
        match nodes[from] {
            SourceNode::Element(element) => if element.local@ == name {
                Some(element)
            } else {
                first_element_named(nodes, name, from + 1)
            },
            _ => first_element_named(nodes, name, from + 1),
        }
    }
}

/// How an element's own bytes in `source` split, when its range lies there and describes it.
pub open spec fn element_layout(source: Seq<u8>, element: SourceElement) -> Option<ElementLayout> {
    match element_range(source, element) {
        Some(range) => layout_spec(
            source.subrange(range.0, range.1),
            qualified_name(element),
            TextSpan { start: range.0 as u32, length: (range.1 - range.0) as u32 },
        ),
        None => None,
    }
}

/// Where the gaps of an element's content start being read from: its first content byte, when it
/// has a layout.
pub open spec fn layout_cursor(layout: Option<ElementLayout>) -> Option<int> {
    match layout {
        Some(layout) => Some(layout.inner_start as int),
        None => None,
    }
}

/// Where an element's content ends, when it has a layout.
pub open spec fn layout_inner_end(layout: Option<ElementLayout>) -> int {
    match layout {
        Some(layout) => layout.inner_end as int,
        None => 0,
    }
}

/// An element's start-tag attribute run: its own bytes with a layout, the rebuilt run without.
pub open spec fn layout_run_bytes(source: Seq<u8>, element: SourceElement, layout: Option<ElementLayout>) -> Option<
    Seq<u8>,
> {
    match layout {
        Some(layout) => Some(
            source.subrange(layout.attribute_run.start as int, layout.attribute_run.spec_end()),
        ),
        None => Some(rebuilt_run(element.attributes@)),
    }
}

/// Whether an element closed itself: as its layout says, or as the tree does without one.
pub open spec fn layout_closes(element: SourceElement, layout: Option<ElementLayout>) -> bool {
    match layout {
        Some(layout) => layout.self_closing,
        None => element.empty,
    }
}

/// The walk over a `sheetData` element's children that finds the gap before each row.
pub open spec fn sheet_walk(source: Seq<u8>, element: SourceElement) -> GapWalk {
    gap_walk(
        source,
        element.children@,
        local_row(),
        layout_cursor(element_layout(source, element)),
        element.children@.len() as int,
    )
}

/// Whether `sheet` is what reading `element` against `source` gives: well formed, the element's
/// own bytes as its extent, the element's prefix, and one row per row element, each meaning what
/// that element says.
pub open spec fn sheet_read_from(sheet: SheetData, element: SourceElement, source: Seq<u8>) -> bool {
    &&& sheet.wf()
    &&& sheet@.extent == element_bytes(source, element)
    &&& sheet@.prefix == (match element.prefix {
        Some(prefix) => Some(prefix@),
        None => None,
    })
    &&& sheet@.rows.len() == row_elements(element).len()
    &&& forall|i: int|
        0 <= i < sheet@.rows.len() ==> row_read_as(
            #[trigger] sheet@.rows[i],
            row_elements(element)[i],
            source,
            i,
        )
    &&& sheet_references(row_elements(element), row_elements(element).len() as int) is Ok
    &&& sheet@.rows_ascending == rows_strictly_ascending(sheet@.rows)
    &&& sheet@.self_closing == layout_closes(element, element_layout(source, element))
    &&& sheet@.attributes == layout_run_bytes(source, element, element_layout(source, element))
    &&& forall|i: int|
        0 <= i < sheet@.rows.len() ==> (#[trigger] sheet@.rows[i]).leading == sheet_walk(
            source,
            element,
        ).leadings[i]
    &&& sheet@.trailing == gap_trailing(
        source,
        element.children@,
        sheet_walk(source, element),
        layout_inner_end(element_layout(source, element)),
    )
    &&& sheet_fully_ranged(source, element) ==> sheet.edited_count() == 0
}

/// What reading `element` against `source` answers: the sheet it means, or the first reference
/// that does not resolve, or that what it holds does not fit.
pub open spec fn sheet_read_outcome(
    element: SourceElement,
    source: Seq<u8>,
    read: Result<SheetData, SmlError>,
) -> bool {
    match read {
        Ok(sheet) => sheet_read_from(sheet, element, source),
        Err(SmlError::Address(error)) => sheet_references(
            row_elements(element),
            row_elements(element).len() as int,
        ) == Err::<(), AddressError>(error),
        Err(SmlError::SheetDataTooLarge { .. }) => !reads_within_limits(source, element) && outgrows_store(
            source,
            element,
        ),
    }
}

/// A present span inside the part's own bytes, seen through the arena, is those bytes.
proof fn lemma_run_bytes(arena: TextArena, span: TextSpan)
    requires
        arena.wf(),
        !span.absent(),
        span.spec_end() <= arena.source_bytes().len(),
    ensures
        span_bytes(arena, span) == Some(
            arena.source_bytes().subrange(span.start as int, span.spec_end()),
        ),
{
    assert(arena.space().subrange(span.start as int, span.spec_end()) =~= arena.source_bytes().subrange(
        span.start as int,
        span.spec_end(),
    ));
}

/// Whether a `sheetData` element, every row in it and every cell in those can be read from ranges
/// of the source alone.
pub open spec fn sheet_fully_ranged(source: Seq<u8>, sheet: SourceElement) -> bool {
    &&& element_layout(source, sheet) is Some
    &&& sheet_walk(source, sheet).cursor is Some
    &&& forall|i: int|
        0 <= i < row_elements(sheet).len() ==> row_fully_ranged(
            source,
            #[trigger] row_elements(sheet)[i],
        )
}

/// How many cell elements the first `count` of `rows` hold.
pub open spec fn total_cells(rows: Seq<SourceElement>, count: int) -> int
    decreases count,
{
    if count <= 0 {
        0
    } else {
        total_cells(rows, count - 1) + cell_elements(rows[count - 1]).len()
    }
}

/// More rows hold at least as many cells.
proof fn lemma_total_cells_grows(rows: Seq<SourceElement>, count: int, more: int)
    requires
        count <= more,
    ensures
        total_cells(rows, count) <= total_cells(rows, more),
    decreases more - count,
{
    if count < more {
        lemma_total_cells_grows(rows, count, more - 1);
    }
}

/// Whether a `sheetData` element can be read without outgrowing the store: by ranges alone, from a
/// part the `u32` byte space holds, with fewer rows and cells than the records are counted in.
pub open spec fn reads_within_limits(source: Seq<u8>, element: SourceElement) -> bool {
    &&& sheet_fully_ranged(source, element)
    &&& source.len() <= MAXIMUM_ADDRESS
    &&& row_elements(element).len() + total_cells(row_elements(element), row_elements(element).len() as int)
        + 2 < NO_EXTRAS
}

/// Whether the records are the first rows of `every` read against `source`, each led by the gap
/// `walk` found before it.
spec fn rows_read_so_far(
    arena: TextArena,
    extras: Seq<CellExtras>,
    cells: Seq<PackedCell>,
    rows: Seq<PackedRow>,
    every: Seq<SourceElement>,
    walk: GapWalk,
) -> bool {
    &&& records_wf(arena, extras, cells, rows)
    &&& extras_unshared(cells)
    &&& forall|r: int|
        0 <= r < rows.len() && has_flag(#[trigger] rows[r].flags, 4u8) ==> columns_ascend_in(
            cells,
            rows[r].first_cell as int,
            rows[r].first_cell + rows[r].cell_count,
        )
    &&& walk.leadings.len() == rows.len()
    &&& forall|r: int|
        0 <= r < rows.len() ==> row_read_as(
            #[trigger] rows_model(arena, extras, cells, rows)[r],
            every[r],
            arena.source_bytes(),
            r,
        ) && rows_model(arena, extras, cells, rows)[r].leading == walk.leadings[r]
    &&& sheet_references(every, rows.len() as int) is Ok
}

/// Whether the reader's cursor and gathered markup are where `walk` says, after `count` nodes.
spec fn reader_at(cursor: Option<u32>, pending: Seq<u8>, nodes: Seq<SourceNode>, walk: GapWalk, count: int) -> bool {
    &&& match cursor {
        Some(at) => walk.cursor == Some(at as int),
        None => walk.cursor is None,
    }
    &&& cursor is None ==> pending == nodes_markup(nodes, walk.last, count, -1)
    &&& cursor is Some ==> pending.len() == 0
    &&& 0 <= walk.last <= count
}

/// An element's extent is present exactly when its range lies in the source, and then spans it.
proof fn lemma_extent_range(arena: TextArena, element: SourceElement)
    requires
        arena.wf(),
    ensures
        extent_spec(arena, element).absent() <==> element_range(arena.source_bytes(), element) is None,
        element_range(arena.source_bytes(), element) matches Some(range) ==> {
            &&& extent_spec(arena, element).start == range.0
            &&& extent_spec(arena, element).spec_end() == range.1
        },
{
    arena.lemma_bounded();
}

/// Reads the next row element of a sheet — the one at `rows.len()` among `every`, and the
/// `count`th of `nodes` — with the gap before it, and commits it with its cells.
#[verifier::rlimit(40)]
fn read_next_row(
    arena: &mut TextArena,
    extras: &mut Vec<CellExtras>,
    cells: &mut Vec<PackedCell>,
    rows: &mut Vec<PackedRow>,
    cursor: &mut Option<u32>,
    pending: &mut Vec<u8>,
    child: &SourceElement,
    Ghost(every): Ghost<Seq<SourceElement>>,
    Ghost(nodes): Ghost<Seq<SourceNode>>,
    Ghost(walk): Ghost<GapWalk>,
    Ghost(count): Ghost<int>,
) -> (done: Result<(), SmlError>)
    requires
        old(arena).wf(),
        rows_read_so_far(*old(arena), old(extras)@, old(cells)@, old(rows)@, every, walk),
        old(rows)@.len() < every.len(),
        every[old(rows)@.len() as int] == *child,
        1 <= count,
        reader_at(*old(cursor), old(pending)@, nodes, walk, count - 1),
        *old(cursor) matches Some(at) ==> at <= old(arena).source_bytes().len(),
    ensures
        final(arena).wf(),
        extends(*old(arena), *final(arena)),
        *final(cursor) matches Some(at) ==> at <= final(arena).source_bytes().len(),
        (*old(cursor)) is Some && row_fully_ranged(old(arena).source_bytes(), *child) && old(
            rows,
        )@.len() + 2 < NO_EXTRAS && old(cells)@.len() + cell_elements(*child).len() + 1 < NO_EXTRAS
            && old(extras)@.len() + cell_elements(*child).len() + 1 < NO_EXTRAS ==> !(done matches Err(
            SmlError::SheetDataTooLarge { .. },
        )),
        final(arena).total() <= old(arena).total() + lead_need(*old(cursor), old(pending)@) + row_need(
            old(arena).source_bytes(),
            *child,
        ),
        done matches Err(SmlError::SheetDataTooLarge { .. }) ==> old(arena).total() + lead_need(
            *old(cursor),
            old(pending)@,
        ) + row_need(old(arena).source_bytes(), *child) > MAXIMUM_ADDRESS || old(rows)@.len() + 1
            >= NO_EXTRAS || old(cells)@.len() + cell_elements(*child).len() >= NO_EXTRAS || old(
            extras,
        )@.len() + cell_elements(*child).len() >= NO_EXTRAS,
        match done {
            Ok(()) => {
                &&& final(rows)@.len() == old(rows)@.len() + 1
                &&& rows_read_so_far(
                    *final(arena),
                    final(extras)@,
                    final(cells)@,
                    final(rows)@,
                    every,
                    gap_step(old(arena).source_bytes(), nodes, walk, *child, count),
                )
                &&& reader_at(
                    *final(cursor),
                    final(pending)@,
                    nodes,
                    gap_step(old(arena).source_bytes(), nodes, walk, *child, count),
                    count,
                )
                &&& (*old(cursor)) is Some && row_fully_ranged(old(arena).source_bytes(), *child)
                    ==> *final(arena) == *old(arena)
                &&& final(cells)@.len() == old(cells)@.len() + cell_elements(*child).len()
                &&& final(extras)@.len() <= old(extras)@.len() + cell_elements(*child).len()
            },
            Err(SmlError::Address(error)) => sheet_references(every, every.len() as int) == Err::<
                (),
                AddressError,
            >(error),
            Err(SmlError::SheetDataTooLarge { .. }) => true,
        },
{
    let ghost before = *arena;
    let ghost src = arena.source_bytes();
    let ghost next = gap_step(src, nodes, walk, *child, count);
    let row_extent = extent_of(arena, child);
    let leading = match take_leading(arena, cursor, pending, row_extent) {
        Ok(span) => span,
        Err(error) => {
            proof {
                lemma_row_need_nonnegative(src, *child);
            }
            return Err(error);
        },
    };
    proof {
        lemma_row_need_nonnegative(src, *child);
    }
    let ghost placed = *arena;
    proof {
        lemma_rows_stable(before, placed, extras@, cells@, rows@);
        lemma_extent_range(before, *child);
        assert(span_bytes(placed, leading) == next.leadings[rows@.len() as int]);
    }
    if rows.len() + 1 >= NO_EXTRAS as usize {
        return Err(SmlError::SheetDataTooLarge { bytes: arena.total_length() });
    }
    let ghost old_extras = extras@;
    let position = rows.len();
    let read = read_row(arena, extras, child, leading, position, cells.len() as u32);
    let (row, mut new_cells) = match read {
        Ok(read) => read,
        Err(error) => {
            proof {
                lemma_chain(before, placed, *arena);
                if let SmlError::Address(e) = error {
                    assert(sheet_references(every, position + 1) == Err::<(), AddressError>(e));
                    lemma_sheet_references_fail(every, position + 1, every.len() as int);
                }
            }
            return Err(error);
        },
    };
    let ghost old_cells = cells@;
    let ghost old_rows = rows@;
    proof {
        lemma_commit_read_row(
            placed,
            *arena,
            old_extras,
            extras@,
            old_cells,
            old_rows,
            new_cells@,
            row,
            *child,
            position as int,
        );
        lemma_chain(before, placed, *arena);
        lemma_span_stable(placed, *arena, leading);
    }
    cells.append(&mut new_cells);
    rows.push(row);
    proof {
        let models = rows_model(*arena, extras@, cells@, rows@);
        assert forall|r: int| 0 <= r < rows@.len() implies row_read_as(
            #[trigger] models[r],
            every[r],
            arena.source_bytes(),
            r,
        ) && models[r].leading == next.leadings[r] by {
            if r < old_rows.len() {
                assert(models[r] == rows_model(placed, old_extras, old_cells, old_rows)[r]);
            }
        }
        assert(sheet_references(every, rows@.len() as int) is Ok);
        assert(next.leadings.len() == rows@.len());
        assert(rows_read_so_far(*arena, extras@, cells@, rows@, every, next));
        assert(next.last == count);
        assert(pending@ == Seq::<u8>::empty() || (*cursor) is Some);
        assert(reader_at(*cursor, pending@, nodes, next, count));
    }
    Ok(())
}

/// `Vec::shrink_to_fit`: hands spare capacity back to the allocator. The elements, and their
/// order, are untouched; how much capacity remains is the allocator's business, and nothing is
/// claimed of it.
#[verifier::external_body]
fn release_spare<T>(items: &mut Vec<T>)
    ensures
        final(items)@ == old(items)@,
{
    items.shrink_to_fit();
}

/// Reads a `sheetData` element into a [`SheetData`].
///
/// `source` is the buffer the element's byte ranges were measured against. Without it every row
/// is still read correctly; it simply has no bytes to re-emit verbatim from, so a save reflows.
///
/// # Errors
///
/// [`SmlError::Address`] for the first `c@r`, in document order, that is not a cell reference (or
/// a positional address that falls outside the grid). [`SmlError::SheetDataTooLarge`] for a part,
/// or what the reader stores beside it, beyond the `u32` byte space. Everything else a file can get
/// wrong is preserved as read.
#[verifier::rlimit(40)]
pub fn read_sheet_data(element: &SourceElement, source: Option<Vec<u8>>) -> (read: Result<
    SheetData,
    SmlError,
>)
    ensures
        sheet_read_outcome(*element, source_view(source), read),
{
    let ghost src = source_view(source);
    let mut arena = match TextArena::new(source) {
        Ok(arena) => arena,
        Err(error) => {
            return Err(error);
        },
    };
    let prefix = match &element.prefix {
        Some(prefix) => Some(vstd::slice::slice_to_vec(prefix.as_slice())),
        None => None,
    };
    let extent = extent_of(&arena, element);
    let layout = layout_of(&arena, element, extent);
    proof {
        lemma_extent_bytes(arena, *element);
        assert(layout == element_layout(src, *element));
    }
    let ghost walk_start = layout_cursor(layout);
    let self_closing = match layout {
        Some(layout) => layout.self_closing,
        None => element.empty,
    };
    let ghost start = arena;
    let attributes = match layout {
        Some(layout) => layout.attribute_run,
        None => match rebuild_attribute_run(&mut arena, element) {
            Ok(run) => run,
            Err(error) => {
                proof {
                    lemma_sheet_need_within(src, *element, 0, 0);
                }
                return Err(error);
            },
        },
    };
    proof {
        assert(arena.total() <= src.len() + run_need(src, *element));
    }
    let ghost after_run = arena;
    proof {
        if let Some(found) = layout {
            lemma_stays(start, after_run);
            lemma_in_source(after_run, attributes);
            lemma_run_bytes(start, found.attribute_run);
        }
        lemma_in_source(start, extent);
        lemma_span_stable(start, after_run, extent);
        lemma_stays(after_run, arena);
    }
    let row_name = vec![114u8, 111u8, 119u8];
    proof {
        assert(row_name@ =~= local_row());
    }
    let mut cursor: Option<u32> = match layout {
        Some(layout) => Some(layout.inner_start),
        None => None,
    };
    let mut pending: Vec<u8> = Vec::new();
    let mut rows: Vec<PackedRow> = Vec::new();
    let mut cells: Vec<PackedCell> = Vec::new();
    let mut extras: Vec<CellExtras> = Vec::new();
    let ghost children = element.children@;
    let ghost every = row_elements(*element);
    let count = element.children.len();
    proof {
        assert(rows_model(arena, extras@, cells@, rows@) =~= Seq::<RowModel>::empty());
        assert(nodes_markup(children, 0, 0, -1) =~= Seq::<u8>::empty());
    }
    let mut i: usize = 0;
    while i < count
        invariant
            count == children.len(),
            children == element.children@,
            every == row_elements(*element),
            every == elements_named(children, local_row(), children.len() as int),
            row_name@ == local_row(),
            walk_start == layout_cursor(layout),
            i <= count,
            arena.wf(),
            arena.source_bytes() == src,
            extends(after_run, arena),
            span_ok(after_run, attributes),
            span_bytes(after_run, attributes) == layout_run_bytes(src, *element, layout),
            in_source(arena, extent),
            rows@.len() == elements_named(children, local_row(), i as int).len(),
            rows_read_so_far(
                arena,
                extras@,
                cells@,
                rows@,
                every,
                gap_walk(src, children, local_row(), walk_start, i as int),
            ),
            reader_at(
                cursor,
                pending@,
                children,
                gap_walk(src, children, local_row(), walk_start, i as int),
                i as int,
            ),
            cursor matches Some(at) ==> at <= arena.source_bytes().len() && layout is Some,
            layout matches Some(found) ==> found.inner_end <= arena.source_bytes().len(),
            sheet_fully_ranged(src, *element) ==> arena == start && arena.edit_bytes().len() == 0
                && gap_walk(src, children, local_row(), walk_start, children.len() as int).cursor is Some,
            cells@.len() == total_cells(every, rows@.len() as int),
            extras@.len() <= cells@.len(),
            rows@.len() <= every.len(),
            src == source_view(source),
            layout == element_layout(src, *element),
            arena.total() <= src.len() + run_need(src, *element) + gaps_need(
                src,
                children,
                local_row(),
                walk_start,
                i as int,
            ) + rows_need(src, every, rows@.len() as int),
        decreases count - i,
    {
        proof {
            lemma_elements_prefix(children, local_row(), i as int, i + 1);
            lemma_elements_prefix(children, local_row(), i + 1, children.len() as int);
        }
        let ghost walk = gap_walk(src, children, local_row(), walk_start, i as int);
        let ghost before = arena;
        match &element.children[i] {
            SourceNode::Element(child) => {
                if crate::arena::attributes::bytes_equal(child.local.as_slice(), row_name.as_slice()) {
                    proof {
                        assert(elements_named(children, local_row(), i + 1) =~= elements_named(
                            children,
                            local_row(),
                            i as int,
                        ).push(*child));
                        assert(elements_named(children, local_row(), i + 1)[rows@.len() as int] == *child);
                        assert(gap_walk(src, children, local_row(), walk_start, i + 1) == gap_step(
                            src,
                            children,
                            walk,
                            *child,
                            i + 1,
                        ));
                        if sheet_fully_ranged(src, *element) {
                            lemma_walk_lasts(src, children, local_row(), walk_start, i as int, children.len() as int);
                            assert(row_fully_ranged(src, every[rows@.len() as int]));
                        }
                        lemma_total_cells_grows(every, rows@.len() + 1int, every.len() as int);
                        assert(total_cells(every, rows@.len() + 1int) == total_cells(every, rows@.len() as int)
                            + cell_elements(every[rows@.len() as int]).len());
                        assert(every[rows@.len() as int] == *child);
                        assert(gaps_need(src, children, local_row(), walk_start, i + 1) == gaps_need(
                            src,
                            children,
                            local_row(),
                            walk_start,
                            i as int,
                        ) + lead_need(cursor, pending@));
                        assert(rows_need(src, every, rows@.len() + 1int) == rows_need(src, every, rows@.len() as int)
                            + row_need(src, *child));
                        lemma_sheet_need_within(src, *element, i + 1, rows@.len() + 1int);
                        lemma_total_cells_grows(every, 0, every.len() as int);
                    }
                    let done = read_next_row(
                        &mut arena,
                        &mut extras,
                        &mut cells,
                        &mut rows,
                        &mut cursor,
                        &mut pending,
                        child,
                        Ghost(every),
                        Ghost(children),
                        Ghost(walk),
                        Ghost(i + 1),
                    );
                    proof {
                        lemma_chain(after_run, before, arena);
                    }
                    match done {
                        Ok(()) => {},
                        Err(error) => {
                            return Err(error);
                        },
                    }
                    proof {
                        assert(reader_at(cursor, pending@, children, gap_walk(src, children, local_row(), walk_start, i + 1), i + 1));
                    }
                } else {
                    proof {
                        assert(gap_walk(src, children, local_row(), walk_start, i + 1) == walk);
                        lemma_stays(before, arena);
                    }
                    if cursor.is_none() {
                        pending.extend_from_slice(child.markup.as_slice());
                        proof {
                            assert(nodes_markup(children, walk.last, i + 1, -1) =~= nodes_markup(
                                children,
                                walk.last,
                                i as int,
                                -1,
                            ) + child.markup@);
                        }
                    }
                    proof {
                        let w = gap_walk(src, children, local_row(), walk_start, i + 1);
                        assert(cursor is None ==> pending@ == nodes_markup(children, w.last, i + 1, -1));
                        assert(reader_at(cursor, pending@, children, w, i + 1));
                    }
                }
            },
            SourceNode::Text(text) => {
                proof {
                    assert(gap_walk(src, children, local_row(), walk_start, i + 1) == walk);
                    lemma_stays(before, arena);
                }
                if cursor.is_none() {
                    pending.extend_from_slice(text.as_slice());
                    proof {
                        assert(nodes_markup(children, walk.last, i + 1, -1) =~= nodes_markup(
                            children,
                            walk.last,
                            i as int,
                            -1,
                        ) + text@);
                    }
                }
                proof {
                    let w = gap_walk(src, children, local_row(), walk_start, i + 1);
                    assert(cursor is None ==> pending@ == nodes_markup(children, w.last, i + 1, -1));
                    assert(reader_at(cursor, pending@, children, w, i + 1));
                }
            },
            SourceNode::Other(other) => {
                proof {
                    assert(gap_walk(src, children, local_row(), walk_start, i + 1) == walk);
                    lemma_stays(before, arena);
                }
                if cursor.is_none() {
                    pending.extend_from_slice(other.as_slice());
                    proof {
                        assert(nodes_markup(children, walk.last, i + 1, -1) =~= nodes_markup(
                            children,
                            walk.last,
                            i as int,
                            -1,
                        ) + other@);
                    }
                }
                proof {
                    let w = gap_walk(src, children, local_row(), walk_start, i + 1);
                    assert(cursor is None ==> pending@ == nodes_markup(children, w.last, i + 1, -1));
                    assert(reader_at(cursor, pending@, children, w, i + 1));
                }
            },
        }
        i = i + 1;
    }
    let ghost walk = gap_walk(src, children, local_row(), walk_start, count as int);
    let ghost before_trailing = arena;
    let trailing = match (cursor, layout) {
        (Some(at), Some(layout)) => {
            let span = span_between(at, layout.inner_end);
            proof {
                lemma_stays(before_trailing, arena);
                lemma_in_source(arena, span);
                if at <= layout.inner_end {
                    lemma_between_bytes(arena, at as int, layout.inner_end as int);
                }
            }
            span
        },
        _ => match store_unless_empty(&mut arena, pending.as_slice()) {
            Ok(span) => span,
            Err(error) => {
                proof {
                    lemma_sheet_need_within(src, *element, count as int, rows@.len() as int);
                }
                return Err(error);
            },
        },
    };
    proof {
        lemma_rows_stable(before_trailing, arena, extras@, cells@, rows@);
        lemma_chain(after_run, before_trailing, arena);
        lemma_span_stable(after_run, arena, attributes);
        lemma_in_source(arena, extent);
        lemma_extent_bytes(arena, *element);
        assert(elements_named(children, local_row(), children.len() as int) == every);
        assert(walk == sheet_walk(src, *element));
    }
    // Pushing record by record leaves up to twice the room the records need; a sheet is read once
    // and kept for as long as its workbook is open, so the overshoot is handed back here.
    release_spare(&mut rows);
    release_spare(&mut cells);
    release_spare(&mut extras);
    let sheet = SheetData::assemble(
        arena,
        rows,
        cells,
        extras,
        extent,
        attributes,
        trailing,
        prefix,
        self_closing,
    );
    Ok(sheet)
}

} // verus!
