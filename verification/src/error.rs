//! The error type for the SpreadsheetML layer.

use vstd::prelude::*;

use crate::address::AddressError;

verus! {

/// Errors produced while reading, editing or writing SpreadsheetML markup.
///
/// Every value of this type comes from a file somebody else wrote or a caller's request: no path
/// in this crate panics on untrusted input, and a malformed workbook is a returned error.
#[derive(Debug, Clone, Copy, PartialEq, Eq)]
pub enum SmlError {
    /// A cell reference, range, `sqref` or `spans` value did not parse.
    Address(AddressError),
    /// A worksheet's `sheetData`, or the edits made to it, outgrew the byte space the cell store
    /// addresses values in: the part's bytes plus everything authored must stay below four
    /// gigabytes, because every preserved value is a pair of `u32`s.
    SheetDataTooLarge {
        /// How many bytes were asked for.
        bytes: u64,
    },
}

} // verus!
