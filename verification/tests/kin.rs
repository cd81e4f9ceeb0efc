use npc_system::family::{distinct_ascending, grandchildren, grandparents, siblings};
use npc_system::goal::{Goal, GoalKind};
use npc_system::event::{TimedWorldEvent, WorldEvent};
use npc_system::health::relationship_tally;
use npc_system::history::{npc_year_history, NpcHistoryItem, NpcSnapshot};
use npc_system::id::{NpcId, TownId};
use npc_system::npc::{Attributes, Npc, NpcState, Sex};
use npc_system::relationship::{Relationship, RelationshipKind};
use npc_system::town::Town;
use npc_system::world::World;

fn someone(id: u32, age: u8) -> Npc {
    Npc::with_default_name(
        NpcId(id),
        age,
        Sex::Male,
        TownId(0),
        TownId(0),
        Attributes::uniform(4),
        Vec::new(),
        Goal::new(GoalKind::LivePeacefully, 0),
    )
}

fn link(parent: &mut Npc, child: &mut Npc) {
    assert!(parent.add_child(child.id));
    assert!(child.add_parent(parent.id));
}

/// Grandparent 0; its children 1 and 2; 1's children 3 and 4; 3's child 5.
fn three_generations() -> World {
    let mut people: Vec<Npc> = (0..6).map(|id| someone(id, 80 - 15 * id as u8)).collect();
    let (upper, lower) = people.split_at_mut(1);
    link(&mut upper[0], &mut lower[0]);
    link(&mut upper[0], &mut lower[1]);
    let (upper, lower) = people.split_at_mut(3);
    link(&mut upper[1], &mut lower[0]);
    link(&mut upper[1], &mut lower[1]);
    let (upper, lower) = people.split_at_mut(5);
    link(&mut upper[3], &mut lower[0]);
    let mut world = World::empty(1);
    world.towns = vec![Town::new(TownId(0), "Home".to_string(), 50, 5, 5, 5, 5, 5)];
    world.npcs = people;
    world.rebuild_active_npcs();
    world
}

#[test]
fn grandparents_siblings_and_grandchildren_follow_the_records() {
    let world = three_generations();
    assert_eq!(grandparents(&world, &world.npcs[3]), vec![NpcId(0)]);
    assert_eq!(grandparents(&world, &world.npcs[1]), Vec::<NpcId>::new());
    assert_eq!(siblings(&world, &world.npcs[3]), vec![NpcId(4)]);
    assert_eq!(siblings(&world, &world.npcs[2]), vec![NpcId(1)]);
    assert_eq!(grandchildren(&world, &world.npcs[0]), vec![NpcId(3), NpcId(4)]);
    assert_eq!(grandchildren(&world, &world.npcs[1]), vec![NpcId(5)]);
}

#[test]
fn relatives_missing_from_the_world_add_nobody() {
    let mut world = three_generations();
    world.npcs[1].parents.push(NpcId(40));
    assert_eq!(grandparents(&world, &world.npcs[3]), vec![NpcId(0), NpcId(40)]);
    assert_eq!(grandparents(&world, &world.npcs[1]), Vec::<NpcId>::new());
}

#[test]
fn relative_lists_come_out_ascending_without_repeats() {
    let ids = vec![NpcId(7), NpcId(2), NpcId(7), NpcId(5), NpcId(2)];
    assert_eq!(distinct_ascending(&ids), vec![NpcId(2), NpcId(5), NpcId(7)]);
    assert!(distinct_ascending(&Vec::new()).is_empty());
}

#[test]
fn the_tally_counts_only_relationships_between_active_npcs() {
    let mut world = three_generations();
    world.npcs[0].relationships.insert(NpcId(1), Relationship::with_relation(5, 10, RelationshipKind::Family, 0, 0));
    world.npcs[0].relationships.insert(NpcId(2), Relationship::with_relation(5, 7, RelationshipKind::Family, 0, 0));
    world.npcs[1].relationships.insert(NpcId(0), Relationship::with_relation(5, 0, RelationshipKind::Enemy, 0, 0));
    world.npcs[1].relationships.insert(NpcId(3), Relationship::with_relation(5, 5, RelationshipKind::Family, 0, 0));
    world.npcs[1].relationships.insert(NpcId(30), Relationship::with_relation(5, 9, RelationshipKind::Friend, 0, 0));
    world.npcs[3].in_world = false;
    world.rebuild_active_npcs();
    assert_eq!(relationship_tally(&world), (3, 2, 2));
}

#[test]
fn only_active_npcs_grow_older() {
    let mut world = three_generations();
    world.npcs[2].alive = false;
    world.npcs[5].age = 255;
    world.rebuild_active_npcs();
    npc_system::yearly::age_active_npcs(&mut world);
    let ages: Vec<u8> = world.npcs.iter().map(|npc| npc.age).collect();
    assert_eq!(ages, vec![81, 66, 50, 36, 21, 255]);
}

#[test]
fn only_unpartnered_working_age_npcs_are_ready_for_a_partner() {
    let mut world = three_generations();
    assert!(npc_system::society::ready_for_partner(&world, NpcId(3)));
    assert!(!npc_system::society::ready_for_partner(&world, NpcId(0)));
    assert!(!npc_system::society::ready_for_partner(&world, NpcId(5)));
    assert!(!npc_system::society::ready_for_partner(&world, NpcId(77)));
    assert!(world.npcs[3].set_partner(NpcId(4)));
    assert!(!npc_system::society::ready_for_partner(&world, NpcId(3)));
}

#[test]
fn a_year_of_history_lists_events_then_changes_since_the_snapshot() {
    let mut world = three_generations();
    world.year = 7;
    assert!(world.npcs[1].set_partner(NpcId(2)));
    let previous = Some(NpcSnapshot::of(&world.npcs[1]));
    world.npcs[1].partner = None;
    world.npcs[1].children.push(NpcId(5));
    world.npcs[1].state = NpcState::Sick;
    world.year_events = vec![
        TimedWorldEvent::new(7, 0, WorldEvent::GoalChanged { npc: NpcId(1), old: GoalKind::LivePeacefully, new: GoalKind::Survive }),
        TimedWorldEvent::new(7, 2, WorldEvent::RelationshipChanged { a: NpcId(1), b: NpcId(3) }),
        TimedWorldEvent::new(7, 3, WorldEvent::Birth { npc: NpcId(5) }),
        TimedWorldEvent::new(7, 4, WorldEvent::Death { npc: NpcId(2) }),
        TimedWorldEvent::new(7, 5, WorldEvent::RelationshipChanged { a: NpcId(0), b: NpcId(1) }),
        TimedWorldEvent::new(7, 6, WorldEvent::Death { npc: NpcId(4) }),
    ];
    let (items, current) = npc_year_history(&world, NpcId(1), &previous);
    assert_eq!(
        items,
        vec![
            NpcHistoryItem::Event(world.year_events[0]),
            NpcHistoryItem::RelationshipChanges { year: 7, count: 2 },
            NpcHistoryItem::PartnerLost { year: 7, month: 4, former: NpcId(2) },
            NpcHistoryItem::ChildBorn { year: 7, month: 3, child: NpcId(5) },
            NpcHistoryItem::StateChanged { year: 7, state: NpcState::Sick },
        ]
    );
    assert_eq!(current.unwrap().children, vec![NpcId(3), NpcId(4), NpcId(5)]);
}

#[test]
fn an_npc_without_a_snapshot_appears_unless_an_event_brought_it() {
    let mut world = three_generations();
    world.year = 2;
    let (items, current) = npc_year_history(&world, NpcId(4), &None);
    assert_eq!(items, vec![NpcHistoryItem::Appeared { year: 2 }]);
    assert!(current.is_some());
    world.year_events = vec![TimedWorldEvent::new(2, 5, WorldEvent::Birth { npc: NpcId(4) })];
    let (items, _) = npc_year_history(&world, NpcId(4), &None);
    assert_eq!(items, vec![NpcHistoryItem::Event(world.year_events[0])]);
    let (items, current) = npc_year_history(&world, NpcId(40), &None);
    assert!(items.is_empty());
    assert!(current.is_none());
}
