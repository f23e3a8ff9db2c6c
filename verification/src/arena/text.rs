//! The store's byte space: one address for source bytes and edited bytes alike.
//!
//! The byte space is the concatenation of two buffers:
//!
//! ```text
//! 0                       source.len()                      source.len() + edits.len()
//! ├──────── the part's source bytes ────────┼──────── bytes this store authored ────────┤
//! ```
//!
//! An address below `source.len()` resolves into the part's own bytes; an address at or above it
//! resolves into the store's own `edits` vector, which starts empty and grows only when something
//! is edited or authored. A worksheet nobody has touched holds no bytes of its own.
//!
//! A span is two `u32`s, so the whole byte space must stay below [`u32::MAX`], which is reserved as
//! the start of [`TextSpan::none()`]. That bound is checked on the way in and on every store.

use vstd::prelude::*;

use crate::error::SmlError;

verus! {

/// The highest byte address the arena can hand out. One below [`u32::MAX`], which is reserved as
/// [`TextSpan::none()`]'s start.
pub const MAXIMUM_ADDRESS: u32 = 0xFFFF_FFFEu32;

/// The start address that marks a span as absent.
pub const ABSENT_START: u32 = 0xFFFF_FFFFu32;

/// A range of bytes in a [`TextArena`], or nothing at all.
///
/// Eight bytes, [`Copy`], no destructor.
#[derive(Debug, Clone, Copy, PartialEq, Eq, Structural)]
pub struct TextSpan {
    /// The first byte address, meaningless when the span is absent.
    pub start: u32,
    /// How many bytes the span covers.
    pub length: u32,
}

/// **Absent**, not "empty at address zero".
impl Default for TextSpan {
    fn default() -> (span: Self)
        ensures
            span == TextSpan::none(),
    {
        Self::none()
    }
}

impl TextSpan {
    /// The absent span, as a value to compare against.
    pub open spec fn spec_none() -> TextSpan {
        TextSpan { start: ABSENT_START, length: 0 }
    }

    /// The absent span — what a cell with no `<v>` or a row with no trailing content holds.
    ///
    /// Distinct from an *empty* span: `<v></v>` is present and empty.
    #[verifier::when_used_as_spec(spec_none)]
    pub fn none() -> (span: TextSpan)
        ensures
            span == TextSpan::spec_none(),
    {
        TextSpan { start: ABSENT_START, length: 0 }
    }

    /// Whether the span is absent, as opposed to present (and possibly empty).
    pub open spec fn absent(self) -> bool {
        self.start == ABSENT_START
    }

    /// One past the last byte address, as an unbounded integer.
    pub open spec fn spec_end(self) -> int {
        self.start + self.length
    }

    /// A span over `length` bytes beginning at `start`.
    pub fn new(start: u32, length: u32) -> (span: Self)
        ensures
            span.start == start,
            span.length == length,
    {
        Self { start, length }
    }

    /// Whether this is [`NONE`](Self::none()) — absent, as opposed to present and empty.
    #[verifier::when_used_as_spec(absent)]
    pub fn is_none(self) -> (absent: bool)
        ensures
            absent == self.absent(),
    {
        self.start == ABSENT_START
    }

    /// The first byte address, meaningless when [`is_none`](Self::is_none).
    pub fn start(self) -> (start: u32)
        ensures
            start == self.start,
    {
        self.start
    }

    /// One past the last byte address, saturating at [`u32::MAX`]; meaningless when
    /// [`is_none`](Self::is_none).
    pub fn end(self) -> (end: u32)
        ensures
            end == if self.spec_end() <= u32::MAX {
                self.spec_end()
            } else {
                u32::MAX as int
            },
    {
        if self.start > u32::MAX - self.length {
            u32::MAX
        } else {
            self.start + self.length
        }
    }

    /// How many bytes this span covers.
    pub fn length(self) -> (length: u32)
        ensures
            length == self.length,
    {
        self.length
    }
}

/// The error a store of `length` bytes into a space already holding `total` answers with when
/// they do not fit: the length alone when it is past `u32`, else the total asked for.
pub open spec fn too_large(total: int, length: int) -> SmlError {
    SmlError::SheetDataTooLarge {
        bytes: if length > u32::MAX {
            length as u64
        } else {
            (total + length) as u64
        },
    }
}

/// The store's byte space: the part's own bytes, then whatever the store has authored.
#[derive(Debug)]
pub struct TextArena {
    /// The part's source bytes. `None` for a sheet built from a tree that no longer remembers
    /// where it came from — every span is then an edit.
    source: Option<Vec<u8>>,
    /// `source.len()`, cached as the `u32` the addressing arithmetic needs.
    source_length: u32,
    /// Bytes this store authored.
    edits: Vec<u8>,
}

impl Default for TextArena {
    fn default() -> (arena: Self)
        ensures
            arena.wf(),
            arena.source_bytes() == Seq::<u8>::empty(),
            arena.edit_bytes() == Seq::<u8>::empty(),
    {
        TextArena { source: None, source_length: 0, edits: Vec::new() }
    }
}

impl TextArena {
    /// The part's own bytes — the first half of the address space.
    pub closed spec fn source_bytes(&self) -> Seq<u8> {
        match self.source {
            Some(source) => source@,
            None => Seq::empty(),
        }
    }

    /// The bytes this store authored — the second half of the address space.
    pub closed spec fn edit_bytes(&self) -> Seq<u8> {
        self.edits@
    }

    /// The arena's invariant: the cached length is the source's, and the whole address space stays
    /// at or below [`MAXIMUM_ADDRESS`].
    pub closed spec fn wf(&self) -> bool {
        &&& self.source_length as int == self.source_bytes().len()
        &&& self.source_bytes().len() + self.edit_bytes().len() <= MAXIMUM_ADDRESS
    }

    /// The whole address space: source bytes, then authored bytes.
    pub open spec fn space(&self) -> Seq<u8> {
        self.source_bytes() + self.edit_bytes()
    }

    /// How many bytes the address space holds.
    pub open spec fn total(&self) -> int {
        (self.source_bytes().len() + self.edit_bytes().len()) as int
    }

    /// Whether `span` is present and lies entirely inside one of the two halves.
    pub open spec fn fits(&self, span: TextSpan) -> bool {
        &&& !span.absent()
        &&& (span.spec_end() <= self.source_bytes().len() || (self.source_bytes().len()
            <= span.start && span.spec_end() <= self.total()))
    }

    /// The bytes `span` covers: the address space's own bytes when the span fits in one half,
    /// and nothing at all otherwise.
    pub open spec fn resolve(&self, span: TextSpan) -> Seq<u8> {
        if self.fits(span) {
            self.space().subrange(span.start as int, span.spec_end())
        } else {
            Seq::empty()
        }
    }

    /// A well-formed arena's address space never passes [`MAXIMUM_ADDRESS`].
    pub proof fn lemma_bounded(&self)
        requires
            self.wf(),
        ensures
            self.total() <= MAXIMUM_ADDRESS,
    {
    }

    /// An arena over `source`, or over nothing at all when a sheet was built from a tree with no
    /// buffer behind it.
    ///
    /// # Errors
    ///
    /// [`SmlError::SheetDataTooLarge`] if the buffer is too large for the `u32` address space.
    pub fn new(source: Option<Vec<u8>>) -> (arena: Result<Self, SmlError>)
        ensures
            match arena {
                Ok(arena) => {
                    &&& arena.wf()
                    &&& arena.source_bytes() == (match source {
                        Some(s) => s@,
                        None => Seq::<u8>::empty(),
                    })
                    &&& arena.edit_bytes() == Seq::<u8>::empty()
                },
                Err(error) => {
                    &&& source is Some
                    &&& source->0@.len() > MAXIMUM_ADDRESS
                    &&& error == SmlError::SheetDataTooLarge { bytes: source->0@.len() as u64 }
                },
            },
    {
        let source_length: u32 = match &source {
            Some(bytes) => {
                let length = bytes.len();
                if length > MAXIMUM_ADDRESS as usize {
                    return Err(SmlError::SheetDataTooLarge { bytes: length as u64 });
                }
                length as u32
            },
            None => 0,
        };
        Ok(TextArena { source, source_length, edits: Vec::new() })
    }

    /// How many bytes of its own the store has authored. Zero for a worksheet nobody has edited.
    pub fn edited_bytes(&self) -> (count: usize)
        ensures
            count == self.edit_bytes().len(),
    {
        self.edits.len()
    }

    /// The bytes `span` covers.
    ///
    /// A span that does not fit resolves to the empty slice rather than panicking: spans are built
    /// from ranges a file supplied, so an out-of-range span degrades to "nothing here", never to
    /// somebody else's bytes.
    pub fn bytes(&self, span: TextSpan) -> (bytes: &[u8])
        requires
            self.wf(),
        ensures
            bytes@ == self.resolve(span),
    {
        if span.is_none() {
            return empty_slice(&self.edits);
        }
        let start = span.start;
        let length = span.length;
        if start < self.source_length {
            match &self.source {
                Some(source) => {
                    if length <= self.source_length - start {
                        let end = (start + length) as usize;
                        let slice = source.as_slice();
                        proof {
                            assert(self.space().subrange(start as int, end as int)
                                =~= source@.subrange(start as int, end as int));
                        }
                        return vstd::slice::slice_subrange(slice, start as usize, end);
                    }
                    return empty_slice(&self.edits);
                },
                None => {
                    return empty_slice(&self.edits);
                },
            }
        }
        let offset = (start - self.source_length) as usize;
        let available = self.edits.len();
        if offset <= available && length as usize <= available - offset {
            let end = offset + length as usize;
            proof {
                assert(self.space().subrange(start as int, span.spec_end())
                    =~= self.edits@.subrange(offset as int, end as int));
            }
            return vstd::slice::slice_subrange(self.edits.as_slice(), offset, end);
        }
        empty_slice(&self.edits)
    }

    /// A span over the source range `start..end`, or [`TextSpan::none()`] if that range is not one
    /// this arena can address.
    pub fn span_in_source(&self, start: u32, end: u32) -> (span: TextSpan)
        requires
            self.wf(),
        ensures
            span == if end < start || end > self.source_bytes().len() {
                TextSpan::none()
            } else {
                TextSpan { start, length: (end - start) as u32 }
            },
    {
        if end < start || end > self.source_length {
            return TextSpan::none();
        }
        TextSpan::new(start, end - start)
    }

    /// A span over `start..end` **anywhere** in the byte space — the part's own bytes or this
    /// arena's own — or [`TextSpan::none()`] if that is not a range this arena can address.
    pub fn span_over(&self, start: u32, end: u32) -> (span: TextSpan)
        requires
            self.wf(),
        ensures
            span == if end < start || end > self.total() {
                TextSpan::none()
            } else {
                TextSpan { start, length: (end - start) as u32 }
            },
    {
        if end < start || end as u64 > self.total_length() {
            return TextSpan::none();
        }
        TextSpan::new(start, end - start)
    }

    /// How many bytes the whole address space currently holds.
    pub fn total_length(&self) -> (total: u64)
        requires
            self.wf(),
        ensures
            total == self.total(),
    {
        self.source_length as u64 + self.edits.len() as u64
    }

    /// Appends `bytes` and returns the span covering them.
    ///
    /// # Errors
    ///
    /// [`SmlError::SheetDataTooLarge`] if the byte space would grow past [`MAXIMUM_ADDRESS`]; the
    /// arena is then unchanged.
    pub fn store(&mut self, bytes: &[u8]) -> (stored: Result<TextSpan, SmlError>)
        requires
            old(self).wf(),
        ensures
            final(self).wf(),
            final(self).source_bytes() == old(self).source_bytes(),
            match stored {
                Ok(span) => {
                    &&& final(self).edit_bytes() == old(self).edit_bytes() + bytes@
                    &&& span.start == old(self).total()
                    &&& span.length == bytes@.len()
                    &&& old(self).total() + bytes@.len() <= MAXIMUM_ADDRESS
                    &&& final(self).fits(span)
                    &&& final(self).resolve(span) == bytes@
                },
                Err(error) => {
                    &&& final(self).edit_bytes() == old(self).edit_bytes()
                    &&& old(self).total() + bytes@.len() > MAXIMUM_ADDRESS
                    &&& error == too_large(old(self).total(), bytes@.len() as int)
                },
            },
    {
        let count = bytes.len();
        if count > u32::MAX as usize {
            return Err(SmlError::SheetDataTooLarge { bytes: count as u64 });
        }
        let length = count as u32;
        let start = self.source_length + self.edits.len() as u32;
        if length > MAXIMUM_ADDRESS - start {
            return Err(SmlError::SheetDataTooLarge { bytes: start as u64 + length as u64 });
        }
        self.edits.extend_from_slice(bytes);
        let span = TextSpan::new(start, length);
        proof {
            assert(self.space().subrange(span.start as int, span.spec_end()) =~= bytes@);
        }
        Ok(span)
    }
}

/// An empty slice borrowed from `anchor`, so that a "nothing here" answer has the lifetime of
/// the arena it came from.
fn empty_slice(anchor: &Vec<u8>) -> (empty: &[u8])
    ensures
        empty@ == Seq::<u8>::empty(),
{
    vstd::slice::slice_subrange(anchor.as_slice(), 0, 0)
}

/// Storing into the arena never changes what an already-fitting span resolves to: the authored
/// half only grows at its end, and the source half never changes.
pub proof fn lemma_store_keeps_fitting_spans(before: TextArena, after: TextArena, span: TextSpan)
    requires
        before.fits(span),
        after.source_bytes() == before.source_bytes(),
        after.edit_bytes().len() >= before.edit_bytes().len(),
        after.edit_bytes().subrange(0, before.edit_bytes().len() as int) == before.edit_bytes(),
    ensures
        after.fits(span),
        after.resolve(span) == before.resolve(span),
{
    assert(after.space().subrange(span.start as int, span.spec_end()) =~= before.space().subrange(
        span.start as int,
        span.spec_end(),
    )) by {
        assert forall|k: int| span.start <= k < span.spec_end() implies #[trigger] after.space()[k]
            == before.space()[k] by {
            if k >= before.source_bytes().len() {
                let j = k - before.source_bytes().len();
                assert(after.edit_bytes().subrange(0, before.edit_bytes().len() as int)[j]
                    == after.edit_bytes()[j]);
            }
        }
    }
}

} // verus!
