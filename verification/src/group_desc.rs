//! A schema entry with localized display texts (one French, one English).
use vstd::prelude::*;
use crate::group_filter::GroupFilter;

verus! {

/// One declared attribute with localized names: the key, a display name and
/// a help text in two languages, the admissible values (each with its two
/// labels), and the optional condition under which the attribute is
/// required.
#[derive(Debug)]
pub struct GroupDesc {
    pub id: String,
    pub name: (String, String),
    pub help: (String, String),
    pub values: Vec<(String, (String, String))>,
    pub required_if: Option<GroupFilter>,
}

} // verus!
