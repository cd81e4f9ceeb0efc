use vstd::prelude::*;

use crate::text::{decimal, decimal_string};

verus! {

/// Process-wide unique identifier of an NPC.
///
/// NPCs refer to each other through this id, never through an index or a pointer,
/// so that removing an NPC from a `Vec` cannot make references drift.
#[derive(Clone, Copy, Debug, Default, PartialEq, Eq, PartialOrd, Ord, Hash, Structural)]
pub struct NpcId(pub u32);

impl NpcId {
    pub fn new(value: u32) -> (id: Self)
        ensures
            id.0 == value,
    {
        NpcId(value)
    }

    pub fn get(self) -> (value: u32)
        ensures
            value == self.0,
    {
        self.0
    }

    /// The id in decimal.
    pub fn to_string(&self) -> (text: String)
        ensures
            text@ == decimal(self.0 as nat),
    {
        decimal_string(self.0 as u64)
    }
}

impl From<u32> for NpcId {
    fn from(value: u32) -> (id: Self) {
        NpcId(value)
    }
}

impl vstd::std_specs::convert::FromSpecImpl<u32> for NpcId {
    open spec fn obeys_from_spec() -> bool {
        true
    }

    open spec fn from_spec(value: u32) -> NpcId {
        NpcId(value)
    }
}

impl From<NpcId> for u32 {
    fn from(value: NpcId) -> (raw: u32) {
        value.0
    }
}

impl vstd::std_specs::convert::FromSpecImpl<NpcId> for u32 {
    open spec fn obeys_from_spec() -> bool {
        true
    }

    open spec fn from_spec(value: NpcId) -> u32 {
        value.0
    }
}

/// Process-wide unique identifier of a town.
#[derive(Clone, Copy, Debug, Default, PartialEq, Eq, PartialOrd, Ord, Hash, Structural)]
pub struct TownId(pub u16);

impl TownId {
    pub fn new(value: u16) -> (id: Self)
        ensures
            id.0 == value,
    {
        TownId(value)
    }

    pub fn get(self) -> (value: u16)
        ensures
            value == self.0,
    {
        self.0
    }

    /// The id in decimal.
    pub fn to_string(&self) -> (text: String)
        ensures
            text@ == decimal(self.0 as nat),
    {
        decimal_string(self.0 as u64)
    }
}

impl From<u16> for TownId {
    fn from(value: u16) -> (id: Self) {
        TownId(value)
    }
}

impl vstd::std_specs::convert::FromSpecImpl<u16> for TownId {
    open spec fn obeys_from_spec() -> bool {
        true
    }

    open spec fn from_spec(value: u16) -> TownId {
        TownId(value)
    }
}

impl From<TownId> for u16 {
    fn from(value: TownId) -> (raw: u16) {
        value.0
    }
}

impl vstd::std_specs::convert::FromSpecImpl<TownId> for u16 {
    open spec fn obeys_from_spec() -> bool {
        true
    }

    open spec fn from_spec(value: TownId) -> u16 {
        value.0
    }
}

} // verus!
