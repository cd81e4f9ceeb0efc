use vstd::prelude::*;

use crate::belief::BeliefKind;
use crate::goal::GoalKind;
use crate::id::{NpcId, TownId};

verus! {

/// Cause used to classify yearly death statistics; the `Death` event itself stays terse.
#[derive(Clone, Copy, Debug, Default, PartialEq, Eq, Hash, Structural)]
pub enum DeathCause {
    #[default]
    Natural,
    Disaster,
    Disease,
    War,
    Famine,
}

#[derive(Clone, Copy, Debug, PartialEq, Eq, Hash, Structural)]
pub enum WorldEventKind {
    Birth,
    Death,
    Partnership,
    Migration,
    RelationshipChanged,
    BeliefChanged,
    GoalChanged,
    NaturalDisaster,
    DiseaseOutbreak,
    WarStarted,
    WarEnded,
    ExternalImmigration,
    ExternalEmigration,
    FamineStarted,
    FamineEnded,
}

/// The rare world events worth keeping in the persistent log.
#[derive(Clone, Copy, Debug, PartialEq, Eq, Structural)]
pub enum WorldEvent {
    Birth { npc: NpcId },
    Death { npc: NpcId },
    Partnership { a: NpcId, b: NpcId },
    Migration { npc: NpcId, from: TownId, to: TownId },
    RelationshipChanged { a: NpcId, b: NpcId },
    BeliefChanged { npc: NpcId, belief: BeliefKind },
    GoalChanged { npc: NpcId, old: GoalKind, new: GoalKind },
    NaturalDisaster { town: TownId },
    DiseaseOutbreak,
    WarStarted,
    WarEnded,
    ExternalImmigration { npc: NpcId, to: TownId },
    ExternalEmigration { npc: NpcId, from: TownId },
    FamineStarted { town: TownId },
    FamineEnded { town: TownId },
}

/// An event with the time at which it happened, for the yearly timeline.
///
/// `month == 0` is the yearly processing at the start of the year, `1..=12` the
/// monthly processing.
#[derive(Clone, Copy, Debug, PartialEq, Eq, Structural)]
pub struct TimedWorldEvent {
    pub year: u64,
    pub month: u8,
    pub event: WorldEvent,
}

impl TimedWorldEvent {
    pub fn new(year: u64, month: u8, event: WorldEvent) -> (timed: Self)
        ensures
            timed == (TimedWorldEvent { year, month, event }),
    {
        TimedWorldEvent { year, month, event }
    }
}

impl WorldEvent {
    pub open spec fn kind_spec(&self) -> WorldEventKind {
        match self {
            WorldEvent::Birth { .. } => WorldEventKind::Birth,
            WorldEvent::Death { .. } => WorldEventKind::Death,
            WorldEvent::Partnership { .. } => WorldEventKind::Partnership,
            WorldEvent::Migration { .. } => WorldEventKind::Migration,
            WorldEvent::RelationshipChanged { .. } => WorldEventKind::RelationshipChanged,
            WorldEvent::BeliefChanged { .. } => WorldEventKind::BeliefChanged,
            WorldEvent::GoalChanged { .. } => WorldEventKind::GoalChanged,
            WorldEvent::NaturalDisaster { .. } => WorldEventKind::NaturalDisaster,
            WorldEvent::DiseaseOutbreak => WorldEventKind::DiseaseOutbreak,
            WorldEvent::WarStarted => WorldEventKind::WarStarted,
            WorldEvent::WarEnded => WorldEventKind::WarEnded,
            WorldEvent::ExternalImmigration { .. } => WorldEventKind::ExternalImmigration,
            WorldEvent::ExternalEmigration { .. } => WorldEventKind::ExternalEmigration,
            WorldEvent::FamineStarted { .. } => WorldEventKind::FamineStarted,
            WorldEvent::FamineEnded { .. } => WorldEventKind::FamineEnded,
        }
    }

    /// The NPCs named in the event, in the order of the variant's fields.
    pub open spec fn npc_ids_spec(&self) -> Seq<NpcId> {
        match self {
            WorldEvent::Birth { npc } => seq![*npc],
            WorldEvent::Death { npc } => seq![*npc],
            WorldEvent::Migration { npc, .. } => seq![*npc],
            WorldEvent::BeliefChanged { npc, .. } => seq![*npc],
            WorldEvent::GoalChanged { npc, .. } => seq![*npc],
            WorldEvent::ExternalImmigration { npc, .. } => seq![*npc],
            WorldEvent::ExternalEmigration { npc, .. } => seq![*npc],
            WorldEvent::Partnership { a, b } => seq![*a, *b],
            WorldEvent::RelationshipChanged { a, b } => seq![*a, *b],
            _ => seq![],
        }
    }

    /// The towns named in the event; a migration lists its origin first.
    pub open spec fn town_ids_spec(&self) -> Seq<TownId> {
        match self {
            WorldEvent::Migration { from, to, .. } => seq![*from, *to],
            WorldEvent::NaturalDisaster { town } => seq![*town],
            WorldEvent::FamineStarted { town } => seq![*town],
            WorldEvent::FamineEnded { town } => seq![*town],
            WorldEvent::ExternalImmigration { to, .. } => seq![*to],
            WorldEvent::ExternalEmigration { from, .. } => seq![*from],
            _ => seq![],
        }
    }

    pub fn kind(&self) -> (kind: WorldEventKind)
        ensures
            kind == self.kind_spec(),
    {
        match self {
            WorldEvent::Birth { .. } => WorldEventKind::Birth,
            WorldEvent::Death { .. } => WorldEventKind::Death,
            WorldEvent::Partnership { .. } => WorldEventKind::Partnership,
            WorldEvent::Migration { .. } => WorldEventKind::Migration,
            WorldEvent::RelationshipChanged { .. } => WorldEventKind::RelationshipChanged,
            WorldEvent::BeliefChanged { .. } => WorldEventKind::BeliefChanged,
            WorldEvent::GoalChanged { .. } => WorldEventKind::GoalChanged,
            WorldEvent::NaturalDisaster { .. } => WorldEventKind::NaturalDisaster,
            WorldEvent::DiseaseOutbreak => WorldEventKind::DiseaseOutbreak,
            WorldEvent::WarStarted => WorldEventKind::WarStarted,
            WorldEvent::WarEnded => WorldEventKind::WarEnded,
            WorldEvent::ExternalImmigration { .. } => WorldEventKind::ExternalImmigration,
            WorldEvent::ExternalEmigration { .. } => WorldEventKind::ExternalEmigration,
            WorldEvent::FamineStarted { .. } => WorldEventKind::FamineStarted,
            WorldEvent::FamineEnded { .. } => WorldEventKind::FamineEnded,
        }
    }

    pub fn npc_ids(&self) -> (ids: Vec<NpcId>)
        ensures
            ids@ == self.npc_ids_spec(),
    {
        let mut ids: Vec<NpcId> = Vec::new();
        match self {
            WorldEvent::Birth { npc }
            | WorldEvent::Death { npc }
            | WorldEvent::Migration { npc, .. }
            | WorldEvent::BeliefChanged { npc, .. }
            | WorldEvent::GoalChanged { npc, .. }
            | WorldEvent::ExternalImmigration { npc, .. }
            | WorldEvent::ExternalEmigration { npc, .. } => {
                ids.push(*npc);
            },
            WorldEvent::Partnership { a, b } | WorldEvent::RelationshipChanged { a, b } => {
                ids.push(*a);
                ids.push(*b);
            },
            _ => {},
        }
        proof {
            assert(ids@ =~= self.npc_ids_spec());
        }
        ids
    }

    pub fn town_ids(&self) -> (ids: Vec<TownId>)
        ensures
            ids@ == self.town_ids_spec(),
    {
        let mut ids: Vec<TownId> = Vec::new();
        match self {
            WorldEvent::Migration { from, to, .. } => {
                ids.push(*from);
                ids.push(*to);
            },
            WorldEvent::NaturalDisaster { town }
            | WorldEvent::FamineStarted { town }
            | WorldEvent::FamineEnded { town } => {
                ids.push(*town);
            },
            WorldEvent::ExternalImmigration { to, .. } => {
                ids.push(*to);
            },
            WorldEvent::ExternalEmigration { from, .. } => {
                ids.push(*from);
            },
            _ => {},
        }
        proof {
            assert(ids@ =~= self.town_ids_spec());
        }
        ids
    }
}

} // verus!
