use vstd::prelude::*;

verus! {

#[derive(Clone, Copy, Debug, Default, PartialEq, Eq, PartialOrd, Ord, Hash, Structural)]
pub enum GoalKind {
    #[default]
    Survive,
    ProtectFamily,
    FindPartner,
    RaiseChildren,
    BecomeSkilled,
    GainWealth,
    GainStatus,
    MoveToBetterTown,
    ProtectTown,
    SeekKnowledge,
    LivePeacefully,
}

/// Position of a goal kind in declaration order.
pub open spec fn goal_kind_index(kind: GoalKind) -> int {
    match kind {
        GoalKind::Survive => 0,
        GoalKind::ProtectFamily => 1,
        GoalKind::FindPartner => 2,
        GoalKind::RaiseChildren => 3,
        GoalKind::BecomeSkilled => 4,
        GoalKind::GainWealth => 5,
        GoalKind::GainStatus => 6,
        GoalKind::MoveToBetterTown => 7,
        GoalKind::ProtectTown => 8,
        GoalKind::SeekKnowledge => 9,
        GoalKind::LivePeacefully => 10,
    }
}

impl GoalKind {
    pub const ALL: [GoalKind; 11] = [
        GoalKind::Survive,
        GoalKind::ProtectFamily,
        GoalKind::FindPartner,
        GoalKind::RaiseChildren,
        GoalKind::BecomeSkilled,
        GoalKind::GainWealth,
        GoalKind::GainStatus,
        GoalKind::MoveToBetterTown,
        GoalKind::ProtectTown,
        GoalKind::SeekKnowledge,
        GoalKind::LivePeacefully,
    ];

    /// Every goal kind exactly once, in declaration order.
    pub fn all() -> (kinds: &'static [GoalKind])
        ensures
            kinds@.len() == 11,
            forall|i: int| 0 <= i < 11 ==> goal_kind_index(#[trigger] kinds@[i]) == i,
    {
        &Self::ALL
    }
}

/// Bit pattern of the single-precision value 0.0.
pub const MIN_GOAL_PROGRESS_BITS: u32 = 0;
/// Bit pattern of the single-precision value 1.0.
pub const MAX_GOAL_PROGRESS_BITS: u32 = 0x3F80_0000;

pub const SIGN_BIT: u32 = 0x8000_0000;
pub const POSITIVE_INFINITY_BITS: u32 = 0x7F80_0000;

/// The bits without the sign bit: the magnitude of the encoded value.
pub open spec fn magnitude_bits(bits: u32) -> u32 {
    if bits >= SIGN_BIT {
        (bits - SIGN_BIT) as u32
    } else {
        bits
    }
}

/// The bits encode a NaN.
pub open spec fn is_nan_bits(bits: u32) -> bool {
    magnitude_bits(bits) > POSITIVE_INFINITY_BITS
}

/// The bits encode a finite value within `0.0..=1.0` (negative zero included, since it
/// compares equal to zero).
pub open spec fn progress_bits_valid(bits: u32) -> bool {
    bits <= MAX_GOAL_PROGRESS_BITS || bits == SIGN_BIT
}

/// The bits encode a value `>= 1.0`.
pub open spec fn progress_bits_complete(bits: u32) -> bool {
    MAX_GOAL_PROGRESS_BITS <= bits <= POSITIVE_INFINITY_BITS
}

/// The value clamped into `0.0..=1.0` with NaN mapped to `0.0`, as bits. Negative zero
/// is already within the range and stays as it is; every other negative value,
/// negative infinity included, becomes `0.0`, and every value above one becomes `1.0`.
pub open spec fn clamped_progress_bits(bits: u32) -> u32 {
    if is_nan_bits(bits) {
        MIN_GOAL_PROGRESS_BITS
    } else if bits == SIGN_BIT {
        bits
    } else if bits > SIGN_BIT {
        MIN_GOAL_PROGRESS_BITS
    } else if bits > MAX_GOAL_PROGRESS_BITS {
        MAX_GOAL_PROGRESS_BITS
    } else {
        bits
    }
}

/// Clamps the single-precision value with the given bits into `0.0..=1.0`; NaN becomes
/// `0.0`. Returns the bits of the clamped value.
pub fn clamp_progress_bits(bits: u32) -> (clamped: u32)
    ensures
        clamped == clamped_progress_bits(bits),
        progress_bits_valid(clamped),
{
    let magnitude: u32 = if bits >= SIGN_BIT {
        bits - SIGN_BIT
    } else {
        bits
    };
    if magnitude > POSITIVE_INFINITY_BITS {
        MIN_GOAL_PROGRESS_BITS
    } else if bits == SIGN_BIT {
        bits
    } else if bits > SIGN_BIT {
        MIN_GOAL_PROGRESS_BITS
    } else if bits > MAX_GOAL_PROGRESS_BITS {
        MAX_GOAL_PROGRESS_BITS
    } else {
        bits
    }
}

/// The single main goal an NPC currently pursues.
///
/// `progress_bits` holds the IEEE-754 single-precision bit pattern of the progress,
/// a value normalized into `0.0..=1.0`. `since_year` is the base of the cooldown: a
/// regular change of goal is held back until the given number of years has passed.
#[derive(Clone, Copy, Debug, PartialEq, Eq, Structural)]
pub struct Goal {
    pub kind: GoalKind,
    pub progress_bits: u32,
    pub since_year: u64,
}

impl Goal {
    pub open spec fn valid(&self) -> bool {
        progress_bits_valid(self.progress_bits)
    }

    pub open spec fn years_held_spec(&self, current_year: u64) -> int {
        if current_year >= self.since_year {
            current_year - self.since_year
        } else {
            0
        }
    }

    pub open spec fn may_change(&self, current_year: u64, cooldown_years: u16, major_event: bool) -> bool {
        major_event || self.years_held_spec(current_year) >= cooldown_years
    }

    /// A new goal with zero progress.
    pub fn new(kind: GoalKind, since_year: u64) -> (goal: Self)
        ensures
            goal == (Goal { kind, progress_bits: MIN_GOAL_PROGRESS_BITS, since_year }),
    {
        Goal { kind, progress_bits: MIN_GOAL_PROGRESS_BITS, since_year }
    }

    /// A goal whose progress has the given bits, clamped into `0.0..=1.0`.
    pub fn with_progress_bits(kind: GoalKind, progress_bits: u32, since_year: u64) -> (goal: Self)
        ensures
            goal == (Goal { kind, progress_bits: clamped_progress_bits(progress_bits), since_year }),
    {
        Goal { kind, progress_bits: clamp_progress_bits(progress_bits), since_year }
    }

    pub fn is_valid(&self) -> (valid: bool)
        ensures
            valid == self.valid(),
    {
        self.progress_bits <= MAX_GOAL_PROGRESS_BITS || self.progress_bits == SIGN_BIT
    }

    pub fn normalize(&mut self)
        ensures
            *final(self) == (Goal {
                progress_bits: clamped_progress_bits(old(self).progress_bits),
                ..*old(self)
            }),
            final(self).valid(),
    {
        self.progress_bits = clamp_progress_bits(self.progress_bits);
    }

    pub fn set_progress_bits(&mut self, progress_bits: u32)
        ensures
            *final(self) == (Goal { progress_bits: clamped_progress_bits(progress_bits), ..*old(self) }),
    {
        self.progress_bits = clamp_progress_bits(progress_bits);
    }

    pub fn is_complete(&self) -> (complete: bool)
        ensures
            complete == progress_bits_complete(self.progress_bits),
    {
        self.progress_bits >= MAX_GOAL_PROGRESS_BITS && self.progress_bits <= POSITIVE_INFINITY_BITS
    }

    pub fn years_held(&self, current_year: u64) -> (years: u64)
        ensures
            years == self.years_held_spec(current_year),
    {
        current_year.saturating_sub(self.since_year)
    }

    /// A regular change must wait for the cooldown; a major event allows it at once.
    pub fn can_change(&self, current_year: u64, cooldown_years: u16, major_event: bool) -> (allowed: bool)
        ensures
            allowed == self.may_change(current_year, cooldown_years, major_event),
    {
        major_event || self.years_held(current_year) >= cooldown_years as u64
    }

    /// Changes the goal when allowed: kind, start year and progress are updated together.
    /// Choosing the current kind again is no change.
    pub fn change_to(
        &mut self,
        new_kind: GoalKind,
        current_year: u64,
        cooldown_years: u16,
        major_event: bool,
    ) -> (changed: bool)
        ensures
            changed == (old(self).kind != new_kind && old(self).may_change(
                current_year,
                cooldown_years,
                major_event,
            )),
            changed ==> *final(self) == (Goal {
                kind: new_kind,
                progress_bits: MIN_GOAL_PROGRESS_BITS,
                since_year: current_year,
            }),
            !changed ==> *final(self) == *old(self),
    {
        if self.kind == new_kind || !self.can_change(current_year, cooldown_years, major_event) {
            return false;
        }
        self.kind = new_kind;
        self.progress_bits = MIN_GOAL_PROGRESS_BITS;
        self.since_year = current_year;
        true
    }
}

impl Default for Goal {
    fn default() -> (goal: Self)
        ensures
            goal == (Goal { kind: GoalKind::Survive, progress_bits: MIN_GOAL_PROGRESS_BITS, since_year: 0 }),
    {
        Goal::new(GoalKind::Survive, 0)
    }
}

/// Clamping leaves the progress valid, and a valid progress unchanged.
pub proof fn lemma_clamp_progress_is_normalizing(bits: u32)
    ensures
        progress_bits_valid(clamped_progress_bits(bits)),
        progress_bits_valid(bits) ==> clamped_progress_bits(bits) == bits,
        clamped_progress_bits(clamped_progress_bits(bits)) == clamped_progress_bits(bits),
{
}

} // verus!
