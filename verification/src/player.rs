//! Players and their starting resources: plain data holders whose
//! fields the scenario encoder serializes. A player's name is kept
//! as its encoded bytes; the format allows at most 255 of them.

use vstd::prelude::*;

use crate::unit::Unit;

verus! {

/// Five independent starting-resource counters.
pub struct BaseResources {
    pub gold: u32,
    pub wood: u32,
    pub food: u32,
    pub stone: u32,
    pub ore: u32,
}

impl BaseResources {
    /// The standard starting stock.
    pub fn default() -> (r: BaseResources)
        ensures
            r == (BaseResources { gold: 100, wood: 200, food: 200, stone: 200, ore: 0 }),
    {
        BaseResources { gold: 100, wood: 200, food: 200, stone: 200, ore: 0 }
    }
}

/// One player slot: the name's encoded bytes, the active and
/// human/AI flags, the civilization code, the starting resources,
/// and the player's units.
pub struct Player {
    pub name: Vec<u8>,
    pub active: u32,
    pub human: u32,
    pub civilization: u8,
    pub resources: BaseResources,
    pub units: Vec<Unit>,
}

impl Player {
    /// An inactive, empty player slot.
    pub fn empty() -> (p: Player)
        ensures
            p.name@ == Seq::<u8>::empty(),
            p.active == 0,
            p.human == 0,
            p.civilization == 0,
            p.resources == (BaseResources { gold: 0, wood: 0, food: 0, stone: 0, ore: 0 }),
            p.units@ == Seq::<Unit>::empty(),
    {
        Player {
            name: Vec::new(),
            active: 0,
            human: 0,
            civilization: 0,
            resources: BaseResources { gold: 0, wood: 0, food: 0, stone: 0, ore: 0 },
            units: Vec::new(),
        }
    }

    /// The same player with its unit list replaced.
    pub fn with_units(self, units: Vec<Unit>) -> (p: Player)
        ensures
            p.name == self.name,
            p.active == self.active,
            p.human == self.human,
            p.civilization == self.civilization,
            p.resources == self.resources,
            p.units == units,
    {
        Player {
            name: self.name,
            active: self.active,
            human: self.human,
            civilization: self.civilization,
            resources: self.resources,
            units,
        }
    }
}

} // verus!
