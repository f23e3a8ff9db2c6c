//! What a table is authored to wear: its style's name, and which parts of it wear the style.

use vstd::prelude::*;

verus! {

/// One `x:tableStyleInfo` to author: the style's name, and which parts of the table wear it.
///
/// Every flag is an `Option<bool>` because `CT_TableStyleInfo` gives none of the four a schema
/// default: `None` writes no attribute at all, which is a different statement from writing `"0"`.
#[derive(Debug, Clone)]
pub struct TableStyleReferenceSpec {
    /// `@name` — the style to wear. `None` writes no `@name`, which asks for no style at all.
    pub name: Option<String>,
    /// `@showFirstColumn`.
    pub show_first_column: Option<bool>,
    /// `@showLastColumn`.
    pub show_last_column: Option<bool>,
    /// `@showRowStripes`.
    pub show_row_stripes: Option<bool>,
    /// `@showColumnStripes`.
    pub show_column_stripes: Option<bool>,
}

/// Nothing stated: no name, and no flag.
impl Default for TableStyleReferenceSpec {
    fn default() -> (spec: Self)
        ensures
            spec.name is None,
            spec.show_first_column is None,
            spec.show_last_column is None,
            spec.show_row_stripes is None,
            spec.show_column_stripes is None,
    {
        TableStyleReferenceSpec {
            name: None,
            show_first_column: None,
            show_last_column: None,
            show_row_stripes: None,
            show_column_stripes: None,
        }
    }
}

impl TableStyleReferenceSpec {
    /// A style reference naming `name`, with every banding flag left unstated.
    pub fn named(name: String) -> (spec: Self)
        ensures
            spec.name matches Some(given) && given@ == name@,
            spec.show_first_column is None,
            spec.show_last_column is None,
            spec.show_row_stripes is None,
            spec.show_column_stripes is None,
    {
        TableStyleReferenceSpec {
            name: Some(name),
            show_first_column: None,
            show_last_column: None,
            show_row_stripes: None,
            show_column_stripes: None,
        }
    }
}

} // verus!
