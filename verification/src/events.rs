//! A timetable event addressed to the subjects a filter selects.
use vstd::prelude::*;
use crate::group_filter::GroupFilter;
use crate::location::Location;

verus! {

/// The kind of a teaching event.
#[derive(Debug, Clone, Copy, PartialEq, Eq, Structural, Hash)]
pub enum EventKind {
    Td,
    Cm,
    Tp,
}

/// One timetable event; `group` says who it applies to.
#[derive(Debug, Clone)]
pub struct Event {
    pub summary: String,
    pub kind: Option<EventKind>,
    pub number: Option<u8>,
    pub teachers: Vec<String>,
    pub group: GroupFilter,
    pub location: Option<Location>,
    pub start_unixtime: u64,
    pub end_unixtime: u64,
}

} // verus!
