//! The lines of an NPC's timeline for one year, before they are put into words: the
//! events that name it, how often its relationships changed, its appearance in the
//! world, and what changed since the last year's end (a partner lost, children born, a
//! new state).

use vstd::prelude::*;

use crate::event::{TimedWorldEvent, WorldEvent};
use crate::id::NpcId;
use crate::npc::{Npc, NpcState};
use crate::world::{contains_id, npc_at, World};

verus! {

/// What an NPC's timeline remembers of it from one year's end to the next.
#[derive(Clone, Debug, PartialEq, Eq)]
pub struct NpcSnapshot {
    pub alive: bool,
    pub state: NpcState,
    pub partner: Option<NpcId>,
    pub children: Vec<NpcId>,
}

impl NpcSnapshot {
    pub fn of(npc: &Npc) -> (snapshot: Self)
        ensures
            snapshot.alive == npc.alive,
            snapshot.state == npc.state,
            snapshot.partner == npc.partner,
            snapshot.children@ == npc.children@,
    {
        NpcSnapshot { alive: npc.alive, state: npc.state, partner: npc.partner, children: npc.children.clone() }
    }
}

/// A line of an NPC's timeline.
#[derive(Clone, Copy, Debug, PartialEq, Eq, Structural)]
pub enum NpcHistoryItem {
    /// An event that names the NPC and that the timeline tells.
    Event(TimedWorldEvent),
    /// How often the NPC's relationships changed in the year.
    RelationshipChanges { year: u64, count: usize },
    /// The NPC came into the world without an event that says so.
    Appeared { year: u64 },
    PartnerLost { year: u64, month: u8, former: NpcId },
    ChildBorn { year: u64, month: u8, child: NpcId },
    /// The state at the year's end differs from last year's.
    StateChanged { year: u64, state: NpcState },
}

/// The event names the NPC.
pub open spec fn mentions(event: WorldEvent, id: NpcId) -> bool {
    event.npc_ids_spec().contains(id)
}

/// The timeline tells the event for the NPC it names: its own birth or death, and any
/// partnership, move, change of belief or goal, arrival or departure.
pub open spec fn told_for(event: WorldEvent, id: NpcId) -> bool {
    match event {
        WorldEvent::Birth { npc } => npc == id,
        WorldEvent::Death { npc } => npc == id,
        WorldEvent::Partnership { .. } => true,
        WorldEvent::Migration { .. } => true,
        WorldEvent::BeliefChanged { .. } => true,
        WorldEvent::GoalChanged { .. } => true,
        WorldEvent::ExternalImmigration { .. } => true,
        WorldEvent::ExternalEmigration { .. } => true,
        _ => false,
    }
}

pub open spec fn told(id: NpcId) -> spec_fn(TimedWorldEvent) -> bool {
    |timed: TimedWorldEvent| mentions(timed.event, id) && told_for(timed.event, id)
}

pub open spec fn relationship_change_of(id: NpcId) -> spec_fn(TimedWorldEvent) -> bool {
    |timed: TimedWorldEvent| mentions(timed.event, id) && timed.event is RelationshipChanged
}

/// The event brings the NPC into the world: its birth or its arrival from outside.
pub open spec fn arrival_of(id: NpcId) -> spec_fn(TimedWorldEvent) -> bool {
    |timed: TimedWorldEvent|
        match timed.event {
            WorldEvent::Birth { npc } => npc == id,
            WorldEvent::ExternalImmigration { npc, .. } => npc == id,
            _ => false,
        }
}

/// The month of the first of the events that is `event`; zero when there is none.
pub open spec fn month_of_first(events: Seq<TimedWorldEvent>, event: WorldEvent) -> u8
    decreases events.len(),
{
    if events.len() == 0 {
        0
    } else if events[0].event == event {
        events[0].month
    } else {
        month_of_first(events.skip(1), event)
    }
}

/// What changed since the snapshot: the partner lost (with the month of its death), each
/// child born since (with the month of its birth), and a new state of a living NPC.
pub open spec fn snapshot_items(
    year: u64,
    events: Seq<TimedWorldEvent>,
    previous: NpcSnapshot,
    npc: Npc,
) -> Seq<NpcHistoryItem> {
    let lost = match (previous.partner, npc.partner) {
        (Some(former), None) => seq![
            NpcHistoryItem::PartnerLost {
                year,
                month: month_of_first(events, WorldEvent::Death { npc: former }),
                former,
            },
        ],
        _ => Seq::empty(),
    };
    let born = npc.children@.filter(|child: NpcId| !previous.children@.contains(child)).map_values(
        |child: NpcId|
            NpcHistoryItem::ChildBorn { year, month: month_of_first(events, WorldEvent::Birth { npc: child }), child },
    );
    let state = if npc.alive && previous.state != npc.state {
        seq![NpcHistoryItem::StateChanged { year, state: npc.state }]
    } else {
        Seq::empty()
    };
    lost + born + state
}

/// The NPC's lines for the year: the events told for it, how often its relationships
/// changed (when they did), its appearance when it had no snapshot, is now in the list
/// and no event brought it, and what changed since its snapshot.
pub open spec fn history_items(
    year: u64,
    events: Seq<TimedWorldEvent>,
    id: NpcId,
    previous: Option<NpcSnapshot>,
    current: Option<Npc>,
) -> Seq<NpcHistoryItem> {
    let told_items = events.filter(told(id)).map_values(|timed: TimedWorldEvent| NpcHistoryItem::Event(timed));
    let count = events.filter(relationship_change_of(id)).len();
    let changes = if count > 0 {
        seq![NpcHistoryItem::RelationshipChanges { year, count: count as usize }]
    } else {
        Seq::empty()
    };
    let appeared = if previous is None && current is Some && events.filter(arrival_of(id)).len() == 0 {
        seq![NpcHistoryItem::Appeared { year }]
    } else {
        Seq::empty()
    };
    let since = match (previous, current) {
        (Some(snapshot), Some(npc)) => snapshot_items(year, events, snapshot, npc),
        _ => Seq::empty(),
    };
    told_items + changes + appeared + since
}

/// The NPC stored for the id, when there is one.
pub open spec fn stored(world: World, id: NpcId) -> Option<Npc> {
    if npc_at(world.npcs@, id) {
        Some(world.npcs@[id.0 as int])
    } else {
        None
    }
}

fn mentions_npc(event: &WorldEvent, id: NpcId) -> (named: bool)
    ensures
        named == mentions(*event, id),
{
    let ids = event.npc_ids();
    contains_id(&ids, id)
}

fn first_month(events: &Vec<TimedWorldEvent>, event: WorldEvent) -> (month: u8)
    ensures
        month == month_of_first(events@, event),
{
    let mut k: usize = 0;
    proof {
        assert(events@.skip(0) =~= events@);
    }
    while k < events.len()
        invariant
            k <= events@.len(),
            month_of_first(events@, event) == month_of_first(events@.skip(k as int), event),
        decreases events.len() - k,
    {
        proof {
            assert(events@.skip(k as int)[0] == events@[k as int]);
            assert(events@.skip(k as int).skip(1) =~= events@.skip(k as int + 1));
        }
        if events[k].event == event {
            return events[k].month;
        }
        k = k + 1;
    }
    0
}

fn snapshot_changes(year: u64, events: &Vec<TimedWorldEvent>, previous: &NpcSnapshot, npc: &Npc) -> (items: Vec<
    NpcHistoryItem,
>)
    ensures
        items@ == snapshot_items(year, events@, *previous, *npc),
{
    let mut items: Vec<NpcHistoryItem> = Vec::new();
    match (previous.partner, npc.partner) {
        (Some(former), None) => {
            let month = first_month(events, WorldEvent::Death { npc: former });
            items.push(NpcHistoryItem::PartnerLost { year, month, former });
        },
        _ => {},
    }
    let ghost lost = items@;
    let ghost fresh = |child: NpcId| !previous.children@.contains(child);
    let ghost born = |child: NpcId|
        NpcHistoryItem::ChildBorn { year, month: month_of_first(events@, WorldEvent::Birth { npc: child }), child };
    let mut c: usize = 0;
    while c < npc.children.len()
        invariant
            c <= npc.children@.len(),
            fresh == (|child: NpcId| !previous.children@.contains(child)),
            born == (|child: NpcId|
                NpcHistoryItem::ChildBorn { year, month: month_of_first(events@, WorldEvent::Birth { npc: child }), child }),
            items@ == lost + npc.children@.take(c as int).filter(fresh).map_values(born),
        decreases npc.children.len() - c,
    {
        let child = npc.children[c];
        proof {
            assert(npc.children@.take(c as int + 1) =~= npc.children@.take(c as int).push(child));
            npc.children@.take(c as int).lemma_filter_push(child, fresh);
        }
        if !contains_id(&previous.children, child) {
            let month = first_month(events, WorldEvent::Birth { npc: child });
            items.push(NpcHistoryItem::ChildBorn { year, month, child });
            proof {
                assert(npc.children@.take(c as int + 1).filter(fresh).map_values(born) =~= npc.children@.take(
                    c as int,
                ).filter(fresh).map_values(born).push(born(child)));
            }
        }
        proof {
            assert(items@ =~= lost + npc.children@.take(c as int + 1).filter(fresh).map_values(born));
        }
        c = c + 1;
    }
    proof {
        assert(npc.children@.take(npc.children@.len() as int) =~= npc.children@);
    }
    if npc.alive && previous.state != npc.state {
        items.push(NpcHistoryItem::StateChanged { year, state: npc.state });
    }
    proof {
        assert(items@ =~= snapshot_items(year, events@, *previous, *npc));
    }
    items
}

/// The NPC's timeline lines for the year that just ended, and its new snapshot (none when
/// it is not in the list).
pub fn npc_year_history(world: &World, id: NpcId, previous: &Option<NpcSnapshot>) -> (result: (
    Vec<NpcHistoryItem>,
    Option<NpcSnapshot>,
))
    ensures
        result.0@ == history_items(world.year, world.year_events@, id, *previous, stored(*world, id)),
        result.1 is Some == npc_at(world.npcs@, id),
        result.1 matches Some(snapshot) ==> {
            let npc = world.npcs@[id.0 as int];
            &&& snapshot.alive == npc.alive
            &&& snapshot.state == npc.state
            &&& snapshot.partner == npc.partner
            &&& snapshot.children@ == npc.children@
        },
{
    let events = &world.year_events;
    let ghost told_id = told(id);
    let ghost changes_id = relationship_change_of(id);
    let ghost arrival_id = arrival_of(id);
    let ghost as_item = |timed: TimedWorldEvent| NpcHistoryItem::Event(timed);
    let mut items: Vec<NpcHistoryItem> = Vec::new();
    let mut changes: usize = 0;
    let mut arrived = false;
    let mut k: usize = 0;
    while k < events.len()
        invariant
            k <= events@.len(),
            told_id == told(id),
            changes_id == relationship_change_of(id),
            arrival_id == arrival_of(id),
            as_item == (|timed: TimedWorldEvent| NpcHistoryItem::Event(timed)),
            items@ == events@.take(k as int).filter(told_id).map_values(as_item),
            changes == events@.take(k as int).filter(changes_id).len(),
            changes <= k,
            arrived == (events@.take(k as int).filter(arrival_id).len() > 0),
        decreases events.len() - k,
    {
        let timed = events[k];
        proof {
            assert(events@.take(k as int + 1) =~= events@.take(k as int).push(timed));
            events@.take(k as int).lemma_filter_push(timed, told_id);
            events@.take(k as int).lemma_filter_push(timed, changes_id);
            events@.take(k as int).lemma_filter_push(timed, arrival_id);
        }
        if mentions_npc(&timed.event, id) {
            match timed.event {
                WorldEvent::RelationshipChanged { .. } => {
                    changes = changes + 1;
                },
                _ => {
                    let is_arrival = match timed.event {
                        WorldEvent::Birth { npc } => npc == id,
                        WorldEvent::ExternalImmigration { npc, .. } => npc == id,
                        _ => false,
                    };
                    if is_arrival {
                        arrived = true;
                    }
                    let is_told = match timed.event {
                        WorldEvent::Birth { npc } => npc == id,
                        WorldEvent::Death { npc } => npc == id,
                        WorldEvent::Partnership { .. } => true,
                        WorldEvent::Migration { .. } => true,
                        WorldEvent::BeliefChanged { .. } => true,
                        WorldEvent::GoalChanged { .. } => true,
                        WorldEvent::ExternalImmigration { .. } => true,
                        WorldEvent::ExternalEmigration { .. } => true,
                        _ => false,
                    };
                    if is_told {
                        items.push(NpcHistoryItem::Event(timed));
                    }
                },
            }
        } else {
            proof {
                assert(!arrival_id(timed)) by {
                    match timed.event {
                        WorldEvent::Birth { npc } => assert(timed.event.npc_ids_spec()[0] == npc),
                        WorldEvent::ExternalImmigration { npc, .. } => assert(timed.event.npc_ids_spec()[0] == npc),
                        _ => {},
                    }
                }
            }
        }
        proof {
            assert(items@ =~= events@.take(k as int + 1).filter(told_id).map_values(as_item));
        }
        k = k + 1;
    }
    proof {
        assert(events@.take(events@.len() as int) =~= events@);
    }
    if changes > 0 {
        items.push(NpcHistoryItem::RelationshipChanges { year: world.year, count: changes });
    }
    let current = match world.npc(id) {
        Some(npc) => Some(NpcSnapshot::of(npc)),
        None => None,
    };
    if previous.is_none() && current.is_some() && !arrived {
        items.push(NpcHistoryItem::Appeared { year: world.year });
    }
    match (previous, world.npc(id)) {
        (Some(snapshot), Some(npc)) => {
            let since = snapshot_changes(world.year, events, snapshot, npc);
            let mut s: usize = 0;
            let ghost head = items@;
            while s < since.len()
                invariant
                    s <= since@.len(),
                    items@ == head + since@.take(s as int),
                decreases since.len() - s,
            {
                proof {
                    assert(since@.take(s as int + 1) =~= since@.take(s as int).push(since@[s as int]));
                }
                items.push(since[s]);
                s = s + 1;
            }
            proof {
                assert(since@.take(since@.len() as int) =~= since@);
            }
        },
        _ => {},
    }
    proof {
        assert(items@ =~= history_items(world.year, world.year_events@, id, *previous, stored(*world, id)));
    }
    (items, current)
}

} // verus!
