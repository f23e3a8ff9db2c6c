//! The packed SpreadsheetML cell store: a worksheet's rows and cells held as records over one byte
//! arena, read from a part's own bytes and written back without re-serialising what nobody
//! touched.
//!
//! * [`arena`] — the byte space and the byte-level element and attribute scanners.
//! * [`cells`] — the store itself: rows, cells, the edit surface and the writer.
//! * [`address`] — cell references in A1 notation, and the `spans` hint a row carries.
//! * [`decimal`] — decimal numerals as bytes.

pub mod address;
pub mod arena;
pub mod cells;
pub mod decimal;
pub mod error;
pub mod escape;
pub mod features;
