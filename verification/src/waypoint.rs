//! Annotations for points of interest on a map: observed weather, packed
//! into one byte, and the kind of feature a point marks.

use vstd::prelude::*;

verus! {

/// Weather observed at a point, packed into one byte: bits 0..=3 hold the
/// state (sunny, rain, ...), bits 4..=7 its strength.
#[derive(Clone, Eq, PartialEq, Structural)]
pub struct Weather(pub u8);

impl Weather {
    pub const NONE: u8 = 0;

    pub const SUNNY: u8 = 1;

    pub const CLOUDY: u8 = 2;

    pub const RAIN: u8 = 3;

    pub const SNOW: u8 = 4;

    pub const HAIL: u8 = 5;

    pub const SLEET: u8 = 6;

    pub const FOG: u8 = 7;

    pub const LITE: u8 = 1;

    pub const MEDIUM: u8 = 0;

    pub const HEAVY: u8 = 2;

    pub const FEEBLE: u8 = 3;

    pub const STORMY: u8 = 4;

    /// The state bits, 0..=3.
    pub fn state(&self) -> (r: u8)
        ensures
            r == self.0 & 0xf,
    {
        self.0 & 0xf
    }

    /// The strength bits, 4..=7.
    pub fn strong(&self) -> (r: u8)
        ensures
            r == self.0 >> 4,
    {
        self.0 >> 4
    }

    /// Replaces the packed byte wholesale.
    pub fn set_strong(&mut self, strong: u8)
        ensures
            final(self).0 == strong,
    {
        self.0 = strong;
    }
}

/// The kind of feature a marked point stands for.
#[derive(Clone, Copy, Eq, PartialEq, Structural)]
pub enum PointType {
    Unmarked,
    Hut,
    Cliff,
    Node,
    Avalanche,
    Flower,
    Danger,
    View,
    Summit,
    Water,
    Station,
    BusStop,
    Note,
    Waterfall,
    Animal,
    Entrance,
}

impl PointType {
    /// The display label of each kind.
    pub open spec fn spec_str(self) -> Seq<char> {
        match self {
            PointType::Unmarked => "None"@,
            PointType::Hut => "Hut"@,
            PointType::Cliff => "Cliff"@,
            PointType::Node => "Node"@,
            PointType::Avalanche => "Avalanche"@,
            PointType::Flower => "Flowers"@,
            PointType::Danger => "Danger"@,
            PointType::View => "Good View"@,
            PointType::Summit => "Summit"@,
            PointType::Water => "Water Source"@,
            PointType::Station => "Train Station"@,
            PointType::BusStop => "Bus Stop"@,
            PointType::Note => "Note"@,
            PointType::Waterfall => "Waterfall"@,
            PointType::Animal => "Animal"@,
            PointType::Entrance => "Entrance/Exit"@,
        }
    }

    pub fn as_str(&self) -> (r: &str)
        ensures
            r@ == self.spec_str(),
    {
        match self {
            PointType::Unmarked => "None",
            PointType::Hut => "Hut",
            PointType::Cliff => "Cliff",
            PointType::Node => "Node",
            PointType::Avalanche => "Avalanche",
            PointType::Flower => "Flowers",
            PointType::Danger => "Danger",
            PointType::View => "Good View",
            PointType::Summit => "Summit",
            PointType::Water => "Water Source",
            PointType::Station => "Train Station",
            PointType::BusStop => "Bus Stop",
            PointType::Note => "Note",
            PointType::Waterfall => "Waterfall",
            PointType::Animal => "Animal",
            PointType::Entrance => "Entrance/Exit",
        }
    }
}

} // verus!
