//! An advertisement record shown to a targeted audience.
use vstd::prelude::*;
use crate::group_descriptor::GroupDescriptor;

verus! {

/// How an advertisement's content is to be rendered.
#[derive(Debug, Clone, Copy, PartialEq, Eq, Structural, Hash)]
pub enum AdContentType {
    Text,
    Html,
}

/// One advertisement: its window of validity, its optional audience, and
/// its content.
#[derive(Debug, Clone)]
pub struct AdRecord {
    pub title: String,
    pub id: String,
    pub start_ts: u64,
    pub end_ts: u64,
    pub target: Option<GroupDescriptor>,
    pub ty: AdContentType,
    pub content: Option<String>,
}

} // verus!
