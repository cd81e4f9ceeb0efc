use vstd::prelude::*;

verus! {

pub const MIN_BELIEF_STRENGTH: u8 = 0;
pub const MAX_BELIEF_STRENGTH: u8 = 10;
pub const RECOMMENDED_MIN_BELIEFS: usize = 2;
pub const MAX_BELIEFS: usize = 3;
pub const MAX_SINGLE_BELIEF_CHANGE: i8 = 3;

/// The fixed set of beliefs an NPC can hold.
#[derive(Clone, Copy, Debug, Default, PartialEq, Eq, PartialOrd, Ord, Hash, Structural)]
pub enum BeliefKind {
    #[default]
    ProtectFamily,
    HelpOthers,
    KeepPromises,
    ValueFreedom,
    ValueOrder,
    ValueWealth,
    ValueKnowledge,
    ProtectHometown,
    DistrustOutsiders,
    JudgeIndividuals,
}

/// Position of a belief kind in declaration order.
pub open spec fn belief_kind_index(kind: BeliefKind) -> int {
    match kind {
        BeliefKind::ProtectFamily => 0,
        BeliefKind::HelpOthers => 1,
        BeliefKind::KeepPromises => 2,
        BeliefKind::ValueFreedom => 3,
        BeliefKind::ValueOrder => 4,
        BeliefKind::ValueWealth => 5,
        BeliefKind::ValueKnowledge => 6,
        BeliefKind::ProtectHometown => 7,
        BeliefKind::DistrustOutsiders => 8,
        BeliefKind::JudgeIndividuals => 9,
    }
}

impl BeliefKind {
    pub const ALL: [BeliefKind; 10] = [
        BeliefKind::ProtectFamily,
        BeliefKind::HelpOthers,
        BeliefKind::KeepPromises,
        BeliefKind::ValueFreedom,
        BeliefKind::ValueOrder,
        BeliefKind::ValueWealth,
        BeliefKind::ValueKnowledge,
        BeliefKind::ProtectHometown,
        BeliefKind::DistrustOutsiders,
        BeliefKind::JudgeIndividuals,
    ];

    /// Every belief kind exactly once, in declaration order.
    pub fn all() -> (kinds: &'static [BeliefKind])
        ensures
            kinds@.len() == 10,
            forall|i: int| 0 <= i < 10 ==> belief_kind_index(#[trigger] kinds@[i]) == i,
    {
        &Self::ALL
    }
}

/// Strength clamped into `0..=10`.
pub open spec fn clamped_strength(strength: u8) -> u8 {
    if strength > MAX_BELIEF_STRENGTH {
        MAX_BELIEF_STRENGTH
    } else {
        strength
    }
}

/// Integer clamp of `value` into `lo..=hi`.
pub open spec fn clamp_int(value: int, lo: int, hi: int) -> int {
    if value < lo {
        lo
    } else if value > hi {
        hi
    } else {
        value
    }
}

/// A belief held by an NPC together with its strength.
#[derive(Clone, Copy, Debug, PartialEq, Eq, Hash, Structural)]
pub struct Belief {
    pub kind: BeliefKind,
    pub strength: u8,
}

impl Belief {
    /// Strengths outside the range are clamped into `0..=10`.
    pub fn new(kind: BeliefKind, strength: u8) -> (belief: Self)
        ensures
            belief.kind == kind,
            belief.strength == clamped_strength(strength),
    {
        Belief { kind, strength: clamp_strength(strength) }
    }

    pub open spec fn valid(&self) -> bool {
        self.strength <= MAX_BELIEF_STRENGTH
    }

    pub fn is_valid(&self) -> (valid: bool)
        ensures
            valid == self.valid(),
    {
        self.strength <= MAX_BELIEF_STRENGTH
    }

    pub fn normalize(&mut self)
        ensures
            final(self).kind == old(self).kind,
            final(self).strength == clamped_strength(old(self).strength),
    {
        self.strength = clamp_strength(self.strength);
    }

    pub fn set_strength(&mut self, strength: u8)
        ensures
            final(self).kind == old(self).kind,
            final(self).strength == clamped_strength(strength),
    {
        self.strength = clamp_strength(strength);
    }

    /// Applies the change caused by a major event.
    ///
    /// A single change is limited to `-3..=3` and the result stays in `0..=10`.
    /// The returned value is the change actually applied after clamping.
    pub fn adjust(&mut self, requested_change: i8) -> (applied: i8)
        requires
            -128 <= as_signed_byte(adjusted_strength(old(self).strength, requested_change))
                - as_signed_byte(old(self).strength) <= 127,
        ensures
            final(self).kind == old(self).kind,
            final(self).strength == adjusted_strength(old(self).strength, requested_change),
            applied == as_signed_byte(final(self).strength) - as_signed_byte(old(self).strength),
            old(self).valid() ==> applied == final(self).strength - old(self).strength,
            old(self).valid() ==> -3 <= applied <= 3,
    {
        let change: i8 = if requested_change < -MAX_SINGLE_BELIEF_CHANGE {
            -MAX_SINGLE_BELIEF_CHANGE
        } else if requested_change > MAX_SINGLE_BELIEF_CHANGE {
            MAX_SINGLE_BELIEF_CHANGE
        } else {
            requested_change
        };
        let previous: u8 = self.strength;
        let adjusted: i16 = previous as i16 + change as i16;
        let bounded: i16 = if adjusted < MIN_BELIEF_STRENGTH as i16 {
            MIN_BELIEF_STRENGTH as i16
        } else if adjusted > MAX_BELIEF_STRENGTH as i16 {
            MAX_BELIEF_STRENGTH as i16
        } else {
            adjusted
        };
        self.strength = bounded as u8;
        let after: i8 = self.strength as i8;
        let before: i8 = if previous < 128 {
            previous as i8
        } else {
            (previous as i16 - 256) as i8
        };
        after - before
    }
}

/// The two's-complement reading of a byte, as `u8 as i8` gives it.
pub open spec fn as_signed_byte(value: u8) -> int {
    if value < 128 {
        value as int
    } else {
        value - 256
    }
}

/// Strength after a requested change: the change is limited to `-3..=3` and the
/// result to `0..=10`.
pub open spec fn adjusted_strength(strength: u8, requested_change: i8) -> u8 {
    clamp_int(strength + clamp_int(requested_change as int, -3, 3), 0, 10) as u8
}

impl Default for Belief {
    fn default() -> (belief: Self)
        ensures
            belief.kind == BeliefKind::ProtectFamily,
            belief.strength == 5,
    {
        Belief::new(BeliefKind::ProtectFamily, 5)
    }
}

pub fn clamp_strength(strength: u8) -> (clamped: u8)
    ensures
        clamped == clamped_strength(strength),
{
    if strength > MAX_BELIEF_STRENGTH {
        MAX_BELIEF_STRENGTH
    } else {
        strength
    }
}

/// Strength stays within `0..=10` whatever the requested change, and one event
/// never moves a valid strength by more than three.
pub proof fn lemma_adjust_stays_in_range(strength: u8, requested_change: i8)
    requires
        strength <= MAX_BELIEF_STRENGTH,
    ensures
        adjusted_strength(strength, requested_change) <= MAX_BELIEF_STRENGTH,
        -3 <= adjusted_strength(strength, requested_change) - strength <= 3,
{
}

} // verus!
