//! Worksheet features beside the cell store: the header and footer vocabulary of page setup, and
//! the table style a table is authored to wear.

pub mod print;
pub mod table_specs;
pub mod conditional_chain;
