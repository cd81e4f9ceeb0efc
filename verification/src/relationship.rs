use vstd::prelude::*;

use crate::belief::{adjusted_strength, as_signed_byte};

verus! {

pub const MIN_RELATIONSHIP_VALUE: u8 = 0;
pub const MAX_RELATIONSHIP_VALUE: u8 = 10;
pub const NEUTRAL_RELATION: u8 = 5;
pub const MAX_SINGLE_RELATION_CHANGE: i8 = 3;
pub const WEAK_RELATION_FORGET_YEARS: u64 = 4;
pub const FRIENDLY_RELATION_FORGET_YEARS: u64 = 8;

#[derive(Clone, Copy, Debug, Default, PartialEq, Eq, PartialOrd, Ord, Hash, Structural)]
pub enum RelationshipKind {
    #[default]
    Acquaintance,
    Friend,
    CloseFriend,
    Family,
    Partner,
    Rival,
    Enemy,
}

impl RelationshipKind {
    pub open spec fn permanent(self) -> bool {
        self == RelationshipKind::Family || self == RelationshipKind::Partner
    }

    pub fn is_permanent(self) -> (permanent: bool)
        ensures
            permanent == self.permanent(),
    {
        match self {
            RelationshipKind::Family | RelationshipKind::Partner => true,
            _ => false,
        }
    }
}

/// A relation value clamped into `0..=10`.
pub open spec fn clamped_value(value: u8) -> u8 {
    if value > MAX_RELATIONSHIP_VALUE {
        MAX_RELATIONSHIP_VALUE
    } else {
        value
    }
}

/// A month clamped into `1..=12`.
pub open spec fn clamped_month(month: u8) -> u8 {
    if month == 0 {
        1
    } else if month > 12 {
        12
    } else {
        month
    }
}

/// Months elapsed since the start of year zero, with the month read as `1..=12`.
pub open spec fn month_number(year: u64, month: u8) -> int {
    year * 12 + (clamped_month(month) - 1)
}

/// Years of inactivity after which a relationship of this relation is forgotten.
pub open spec fn forget_years(relation: u8) -> int {
    if relation <= 5 {
        WEAK_RELATION_FORGET_YEARS as int
    } else {
        FRIENDLY_RELATION_FORGET_YEARS as int
    }
}

/// A directed relationship between two NPCs.
///
/// `affinity` is the mostly fixed compatibility, `relation` the current standing.
/// Both are clamped into `0..=10` by the constructors and setters.
#[derive(Clone, Copy, Debug, PartialEq, Eq, Structural)]
pub struct Relationship {
    pub affinity: u8,
    pub relation: u8,
    pub kind: RelationshipKind,
    pub last_interaction_year: u64,
    pub last_interaction_month: u8,
}

impl Relationship {
    pub open spec fn in_range(&self) -> bool {
        &&& self.affinity <= MAX_RELATIONSHIP_VALUE
        &&& self.relation <= MAX_RELATIONSHIP_VALUE
        &&& 1 <= self.last_interaction_month <= 12
    }

    pub open spec fn normalized(self) -> Relationship {
        Relationship {
            affinity: clamped_value(self.affinity),
            relation: clamped_value(self.relation),
            last_interaction_month: clamped_month(self.last_interaction_month),
            ..self
        }
    }

    pub open spec fn strong(&self) -> bool {
        self.relation >= 7
    }

    /// Whether the yearly tick forgets this relationship in `current_year`.
    pub open spec fn forgotten_in(&self, current_year: u64) -> bool {
        &&& !self.kind.permanent()
        &&& self.relation < 7
        &&& current_year - self.last_interaction_year >= forget_years(self.relation)
    }

    /// Whether the month-accurate check forgets this relationship at the given time.
    pub open spec fn forgotten_at(&self, current_year: u64, current_month: u8) -> bool {
        &&& !self.kind.permanent()
        &&& self.relation < 7
        &&& month_number(current_year, current_month) - month_number(
            self.last_interaction_year,
            self.last_interaction_month,
        ) >= forget_years(self.relation) * 12
    }

    /// A new acquaintance starts at the neutral relation five.
    pub fn new(affinity: u8, kind: RelationshipKind, year: u64, month: u8) -> (relationship: Self)
        ensures
            relationship.affinity == clamped_value(affinity),
            relationship.relation == NEUTRAL_RELATION,
            relationship.kind == kind,
            relationship.last_interaction_year == year,
            relationship.last_interaction_month == clamped_month(month),
            relationship.in_range(),
    {
        Relationship {
            affinity: clamp_relationship_value(affinity),
            relation: NEUTRAL_RELATION,
            kind,
            last_interaction_year: year,
            last_interaction_month: clamp_month(month),
        }
    }

    /// Constructor with an explicit relation, for family ties and restored relationships.
    pub fn with_relation(affinity: u8, relation: u8, kind: RelationshipKind, year: u64, month: u8)
        -> (relationship: Self)
        ensures
            relationship.affinity == clamped_value(affinity),
            relationship.relation == clamped_value(relation),
            relationship.kind == kind,
            relationship.last_interaction_year == year,
            relationship.last_interaction_month == clamped_month(month),
            relationship.in_range(),
    {
        Relationship {
            affinity: clamp_relationship_value(affinity),
            relation: clamp_relationship_value(relation),
            kind,
            last_interaction_year: year,
            last_interaction_month: clamp_month(month),
        }
    }

    pub fn values_in_range(&self) -> (in_range: bool)
        ensures
            in_range == self.in_range(),
    {
        self.affinity <= MAX_RELATIONSHIP_VALUE && self.relation <= MAX_RELATIONSHIP_VALUE
            && self.last_interaction_month >= 1 && self.last_interaction_month <= 12
    }

    pub fn normalize(&mut self)
        ensures
            *final(self) == old(self).normalized(),
            final(self).in_range(),
    {
        self.affinity = clamp_relationship_value(self.affinity);
        self.relation = clamp_relationship_value(self.relation);
        self.last_interaction_month = clamp_month(self.last_interaction_month);
    }

    pub fn set_affinity(&mut self, affinity: u8)
        ensures
            *final(self) == (Relationship { affinity: clamped_value(affinity), ..*old(self) }),
    {
        self.affinity = clamp_relationship_value(affinity);
    }

    pub fn set_relation(&mut self, relation: u8)
        ensures
            *final(self) == (Relationship { relation: clamped_value(relation), ..*old(self) }),
    {
        self.relation = clamp_relationship_value(relation);
    }

    /// Applies a relation change: one event moves at most `-3..=3`, the result stays in
    /// `0..=10`. Returns the change actually applied.
    pub fn adjust_relation(&mut self, requested_change: i8) -> (applied: i8)
        requires
            -128 <= as_signed_byte(adjusted_strength(old(self).relation, requested_change))
                - as_signed_byte(old(self).relation) <= 127,
        ensures
            *final(self) == (Relationship {
                relation: adjusted_strength(old(self).relation, requested_change),
                ..*old(self)
            }),
            applied == as_signed_byte(final(self).relation) - as_signed_byte(old(self).relation),
            old(self).relation <= MAX_RELATIONSHIP_VALUE ==> applied == final(self).relation
                - old(self).relation,
            old(self).relation <= MAX_RELATIONSHIP_VALUE ==> -3 <= applied <= 3,
    {
        let change: i8 = if requested_change < -MAX_SINGLE_RELATION_CHANGE {
            -MAX_SINGLE_RELATION_CHANGE
        } else if requested_change > MAX_SINGLE_RELATION_CHANGE {
            MAX_SINGLE_RELATION_CHANGE
        } else {
            requested_change
        };
        let previous: u8 = self.relation;
        let adjusted: i16 = previous as i16 + change as i16;
        let bounded: i16 = if adjusted < MIN_RELATIONSHIP_VALUE as i16 {
            MIN_RELATIONSHIP_VALUE as i16
        } else if adjusted > MAX_RELATIONSHIP_VALUE as i16 {
            MAX_RELATIONSHIP_VALUE as i16
        } else {
            adjusted
        };
        self.relation = bounded as u8;
        let after: i8 = self.relation as i8;
        let before: i8 = if previous < 128 {
            previous as i8
        } else {
            (previous as i16 - 256) as i8
        };
        after - before
    }

    pub fn record_interaction(&mut self, year: u64, month: u8)
        ensures
            *final(self) == (Relationship {
                last_interaction_year: year,
                last_interaction_month: clamped_month(month),
                ..*old(self)
            }),
    {
        self.last_interaction_year = year;
        self.last_interaction_month = clamp_month(month);
    }

    pub fn is_strong(&self) -> (strong: bool)
        ensures
            strong == self.strong(),
    {
        self.relation >= 7
    }

    pub fn is_permanent(&self) -> (permanent: bool)
        ensures
            permanent == self.kind.permanent(),
    {
        self.kind.is_permanent()
    }

    /// Yearly forgetting check.
    pub fn should_forget(&self, current_year: u64) -> (forget: bool)
        ensures
            forget == self.forgotten_in(current_year),
    {
        if self.is_permanent() || self.relation >= 7 {
            return false;
        }
        let inactive_years: u64 = if current_year >= self.last_interaction_year {
            current_year - self.last_interaction_year
        } else {
            0
        };
        if self.relation <= 5 {
            inactive_years >= WEAK_RELATION_FORGET_YEARS
        } else {
            inactive_years >= FRIENDLY_RELATION_FORGET_YEARS
        }
    }

    /// Month-accurate forgetting check; months are read as `1..=12`.
    pub fn should_forget_at(&self, current_year: u64, current_month: u8) -> (forget: bool)
        ensures
            forget == self.forgotten_at(current_year, current_month),
    {
        if self.is_permanent() || self.relation >= 7 {
            return false;
        }
        let last: u128 = absolute_month(self.last_interaction_year, self.last_interaction_month);
        let current: u128 = absolute_month(current_year, current_month);
        let inactive_months: u128 = if current >= last {
            current - last
        } else {
            0
        };
        let required_years: u64 = if self.relation <= 5 {
            WEAK_RELATION_FORGET_YEARS
        } else {
            FRIENDLY_RELATION_FORGET_YEARS
        };
        inactive_months >= required_years as u128 * 12
    }
}

impl Default for Relationship {
    fn default() -> (relationship: Self)
        ensures
            relationship == Relationship::with_relation_spec(5, 5, RelationshipKind::Acquaintance, 0, 1),
    {
        Relationship::new(5, RelationshipKind::Acquaintance, 0, 1)
    }
}

impl Relationship {
    pub open spec fn with_relation_spec(affinity: u8, relation: u8, kind: RelationshipKind, year: u64, month: u8) -> Relationship {
        Relationship {
            affinity: clamped_value(affinity),
            relation: clamped_value(relation),
            kind,
            last_interaction_year: year,
            last_interaction_month: clamped_month(month),
        }
    }
}

pub open spec fn clamp_int(value: int, lo: int, hi: int) -> int {
    if value < lo {
        lo
    } else if value > hi {
        hi
    } else {
        value
    }
}

pub fn clamp_relationship_value(value: u8) -> (clamped: u8)
    ensures
        clamped == clamped_value(value),
{
    if value > MAX_RELATIONSHIP_VALUE {
        MAX_RELATIONSHIP_VALUE
    } else {
        value
    }
}

pub fn clamp_month(month: u8) -> (clamped: u8)
    ensures
        clamped == clamped_month(month),
{
    if month == 0 {
        1
    } else if month > 12 {
        12
    } else {
        month
    }
}

fn absolute_month(year: u64, month: u8) -> (months: u128)
    ensures
        months == month_number(year, month),
{
    year as u128 * 12 + (clamp_month(month) - 1) as u128
}

/// Once forgotten by the yearly check, a relationship stays forgotten in every later year.
pub proof fn lemma_forgetting_is_monotonic(relationship: Relationship, year: u64, later: u64)
    requires
        year <= later,
        relationship.forgotten_in(year),
    ensures
        relationship.forgotten_in(later),
{
}

/// Family and partner ties, and strong relationships, are never forgotten.
pub proof fn lemma_strong_and_permanent_are_kept(relationship: Relationship, year: u64, month: u8)
    requires
        relationship.kind.permanent() || relationship.strong(),
    ensures
        !relationship.forgotten_in(year),
        !relationship.forgotten_at(year, month),
{
}

/// The setters and constructors always leave the bounded values in range.
pub proof fn lemma_mutations_keep_range(relationship: Relationship, affinity: u8, relation: u8)
    requires
        relationship.in_range(),
    ensures
        (Relationship { affinity: clamped_value(affinity), ..relationship }).in_range(),
        (Relationship { relation: clamped_value(relation), ..relationship }).in_range(),
        relationship.normalized() == relationship,
{
}

} // verus!
