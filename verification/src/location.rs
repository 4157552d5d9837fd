//! A room location on campus.
use vstd::prelude::*;

verus! {

/// A campus building.
#[derive(Debug, Clone, Copy, PartialEq, Eq, Structural, Hash)]
pub enum Building {
    DumontDurville,
    Magellan,
}

/// The display name of a building.
pub open spec fn building_name(b: Building) -> Seq<char> {
    match b {
        Building::DumontDurville => "Dumont Durville"@,
        Building::Magellan => "Magellan"@,
    }
}

impl Building {
    /// The display name.
    pub fn as_str(&self) -> (r: &'static str)
        ensures
            r@ == building_name(*self),
    {
        match self {
            Building::DumontDurville => "Dumont Durville",
            Building::Magellan => "Magellan",
        }
    }
}

/// A floor of a building.
#[derive(Debug, Clone, Copy, PartialEq, Eq, Structural, Hash)]
pub enum Level {
    Rc,
    Rj,
    Level1,
    Level2,
}

/// The display code of a level.
pub open spec fn level_name(l: Level) -> Seq<char> {
    match l {
        Level::Rc => "RC"@,
        Level::Rj => "RJ"@,
        Level::Level1 => "R1"@,
        Level::Level2 => "R2"@,
    }
}

impl Level {
    /// The display code.
    pub fn as_str(&self) -> (r: &'static str)
        ensures
            r@ == level_name(*self),
    {
        match self {
            Level::Rc => "RC",
            Level::Rj => "RJ",
            Level::Level1 => "R1",
            Level::Level2 => "R2",
        }
    }
}

/// A room: building, area letter, level and room number.
#[derive(Debug, Clone, Copy, PartialEq, Eq, Structural, Hash)]
pub struct Location {
    pub building: Building,
    pub building_area: char,
    pub level: Level,
    pub room_number: u8,
}

} // verus!
