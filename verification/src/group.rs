//! A schema entry: one declared attribute key, its admissible values, and
//! when it is required.
use vstd::prelude::*;
use crate::group_filter::GroupFilter;

verus! {

/// One declared attribute: its key, display texts, the admissible values
/// (each with a label), and an optional condition under which the attribute
/// is required. Without a condition the attribute is unconditionally
/// required; with one, it is required exactly when the condition holds of
/// the very attribute set under validation.
#[derive(Debug)]
pub struct Group {
    pub id: String,
    pub name: String,
    pub help: String,
    pub values: Vec<(String, String)>,
    pub required_if: Option<GroupFilter>,
}

} // verus!
