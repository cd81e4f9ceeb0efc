use npc_system::belief::{Belief, BeliefKind};
use npc_system::config::{RelationshipDecayConfig, WorldDanger};
use npc_system::goal::{Goal, GoalKind};
use npc_system::id::{NpcId, TownId};
use npc_system::relationship::{Relationship, RelationshipKind};
use npc_system::text::{format_number, timestamp};
use std::collections::{BTreeSet, HashSet};

#[test]
fn constructor_and_setter_clamp_strength() {
    let mut belief = Belief::new(BeliefKind::HelpOthers, 255);
    assert_eq!(belief.strength, 10);
    assert!(belief.is_valid());

    belief.set_strength(42);
    assert_eq!(belief.strength, 10);
}

#[test]
fn adjustment_is_limited_per_event_and_at_boundaries() {
    let mut belief = Belief::new(BeliefKind::KeepPromises, 5);
    assert_eq!(belief.adjust(100), 3);
    assert_eq!(belief.strength, 8);
    assert_eq!(belief.adjust(-100), -3);
    assert_eq!(belief.strength, 5);

    belief.set_strength(9);
    assert_eq!(belief.adjust(3), 1);
    assert_eq!(belief.strength, 10);
    assert_eq!(belief.adjust(-30), -3);
    assert_eq!(belief.strength, 7);
}

#[test]
fn all_contains_each_kind_once() {
    let mut kinds = BeliefKind::all().to_vec();
    kinds.sort_unstable();
    kinds.dedup();
    assert_eq!(kinds.len(), BeliefKind::ALL.len());
    assert_eq!(BeliefKind::ALL.len(), 10);
}

#[test]
fn timestamp_distinguishes_annual_and_monthly_events() {
    assert_eq!(timestamp(12, 0), "  12年    ");
    assert_eq!(timestamp(12, 3), "  12年03月");
    assert_eq!(timestamp(12, 13), "  12年末  ");
}

#[test]
fn danger_parses_and_displays_for_cli() {
    assert_eq!("harsh".parse(), Ok(WorldDanger::Harsh));
    assert_eq!(WorldDanger::Peaceful.to_string(), "peaceful");
    assert!("unknown".parse::<WorldDanger>().is_err());
}

#[test]
fn relationship_decay_keeps_strong_and_protected_edges() {
    let decay = RelationshipDecayConfig::default();
    assert!(decay.should_forget(5, 14 - 10, false));
    assert!(!decay.should_forget(5, 13 - 10, false));
    assert!(decay.should_forget(6, 18 - 10, false));
    assert!(!decay.should_forget(7, 100, false));
    assert!(!decay.should_forget(2, 100, true));
}

#[test]
fn all_goal_kinds_are_unique() {
    let mut kinds = GoalKind::all().to_vec();
    kinds.sort_unstable();
    kinds.dedup();
    assert_eq!(kinds.len(), 11);
}

#[test]
fn major_event_bypasses_cooldown_but_noop_is_not_a_change() {
    let mut goal = Goal::new(GoalKind::LivePeacefully, 100);
    assert!(goal.change_to(GoalKind::Survive, 100, 3, true));
    assert!(!goal.change_to(GoalKind::Survive, 100, 3, true));
}

#[test]
fn ids_are_hashable_and_ordered() {
    let mut hash_ids = HashSet::new();
    hash_ids.insert(NpcId::new(7));
    assert!(hash_ids.contains(&NpcId(7)));

    let ordered = [TownId(3), TownId(1), TownId(2)]
        .into_iter()
        .collect::<BTreeSet<_>>()
        .into_iter()
        .collect::<Vec<_>>();
    assert_eq!(ordered, vec![TownId(1), TownId(2), TownId(3)]);
}

#[test]
fn ids_convert_to_and_from_their_integer_types() {
    let npc = NpcId::from(99_u32);
    let town = TownId::from(8_u16);
    assert_eq!(u32::from(npc), 99);
    assert_eq!(u16::from(town), 8);
    assert_eq!(npc.to_string(), "99");
    assert_eq!(town.to_string(), "8");
}

#[test]
fn formats_counts_with_group_separators() {
    assert_eq!(format_number(0), "0");
    assert_eq!(format_number(999), "999");
    assert_eq!(format_number(1_000), "1,000");
    assert_eq!(format_number(12_345_678), "12,345,678");
}

#[test]
fn new_relationship_is_neutral_and_values_are_clamped() {
    let relationship = Relationship::new(250, RelationshipKind::Acquaintance, 10, 0);
    assert_eq!(relationship.affinity, 10);
    assert_eq!(relationship.relation, 5);
    assert_eq!(relationship.last_interaction_month, 1);
    assert!(relationship.values_in_range());

    let existing = Relationship::with_relation(200, 100, RelationshipKind::Friend, 8, 80);
    assert_eq!((existing.affinity, existing.relation), (10, 10));
    assert_eq!(existing.last_interaction_month, 12);
}

#[test]
fn relation_adjustment_never_leaves_range() {
    for initial in 0..=10 {
        for change in i8::MIN..=i8::MAX {
            let mut relationship =
                Relationship::with_relation(5, initial, RelationshipKind::Acquaintance, 0, 1);
            let actual = relationship.adjust_relation(change);
            assert!(relationship.relation <= 10);
            assert!((-3..=3).contains(&actual));
        }
    }
}

#[test]
fn weak_relationship_is_forgotten_after_four_full_years() {
    let relationship = Relationship::with_relation(5, 5, RelationshipKind::Acquaintance, 20, 6);
    assert!(!relationship.should_forget_at(24, 5));
    assert!(relationship.should_forget_at(24, 6));
    assert!(relationship.should_forget(24));
}

#[test]
fn relation_six_needs_eight_years() {
    let relationship = Relationship::with_relation(5, 6, RelationshipKind::Friend, 20, 1);
    assert!(!relationship.should_forget(27));
    assert!(relationship.should_forget(28));
}

#[test]
fn strong_family_and_partner_relationships_are_retained() {
    for relationship in [
        Relationship::with_relation(5, 7, RelationshipKind::Acquaintance, 0, 1),
        Relationship::with_relation(2, 0, RelationshipKind::Family, 0, 1),
        Relationship::with_relation(2, 0, RelationshipKind::Partner, 0, 1),
    ] {
        assert!(!relationship.should_forget(u64::MAX));
        assert!(!relationship.should_forget_at(u64::MAX, 12));
    }
}
