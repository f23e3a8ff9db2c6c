//! The byte space every packed SpreadsheetML store shares, and the element split it is built from.
//!
//! * [`text`] — [`TextSpan`](text::TextSpan) and [`TextArena`](text::TextArena), the address space:
//!   the part's own bytes followed by whatever the store has authored, with a sentinel that tells
//!   *absent* from *present and empty*.
//! * [`attributes`] — reading and rewriting one element's attribute run as bytes, in place.
//! * [`decompose`] — one element's own bytes split into its attribute run and its content, with
//!   the checks that make a byte range refuse rather than hand back somebody else's markup.

pub mod attributes;
pub mod decompose;
pub mod text;
