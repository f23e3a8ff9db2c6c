//! The cell store: rows, cells, cell values and the memory model behind them.
//!
//! A worksheet is held as three flat arrays — rows, cells, and the rare per-cell extras — over one
//! byte arena. Every value the store preserves is a byte range into that arena, and a record whose
//! source range is still present is written back by copying those bytes.

pub mod cell_type;
pub mod record;
pub mod store;
pub mod model;
pub mod edits;
pub mod write;
pub mod view;
pub mod laws;
pub mod anomaly;
pub mod read;
pub mod tidy;
