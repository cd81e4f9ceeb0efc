use vstd::prelude::*;
use vstd::string::{StrSliceExecFns, StringExecFns};

verus! {

/// How often bad events happen in the world.
#[derive(Clone, Copy, Debug, Default, PartialEq, Eq, Hash, Structural)]
pub enum WorldDanger {
    Peaceful,
    #[default]
    Normal,
    Harsh,
}

/// A character with ASCII capitals made small, as `to_ascii_lowercase` does.
pub open spec fn ascii_lower(c: char) -> char {
    if 'A' <= c <= 'Z' {
        ((c as u32) + 32) as char
    } else {
        c
    }
}

pub open spec fn ascii_lowercase(text: Seq<char>) -> Seq<char> {
    text.map_values(|c: char| ascii_lower(c))
}

pub open spec fn danger_name(danger: WorldDanger) -> Seq<char> {
    match danger {
        WorldDanger::Peaceful => seq!['p', 'e', 'a', 'c', 'e', 'f', 'u', 'l'],
        WorldDanger::Normal => seq!['n', 'o', 'r', 'm', 'a', 'l'],
        WorldDanger::Harsh => seq!['h', 'a', 'r', 's', 'h'],
    }
}

/// The danger named by the text, in any mix of capitals.
pub open spec fn parsed_danger(text: Seq<char>) -> Option<WorldDanger> {
    if ascii_lowercase(text) == danger_name(WorldDanger::Peaceful) {
        Some(WorldDanger::Peaceful)
    } else if ascii_lowercase(text) == danger_name(WorldDanger::Normal) {
        Some(WorldDanger::Normal)
    } else if ascii_lowercase(text) == danger_name(WorldDanger::Harsh) {
        Some(WorldDanger::Harsh)
    } else {
        None
    }
}

/// Whether `text` spells `name` when its ASCII capitals are made small.
fn matches_ignoring_case(text: &str, name: &str) -> (same: bool)
    ensures
        same == (ascii_lowercase(text@) == name@),
{
    let length = text.unicode_len();
    if length != name.unicode_len() {
        proof {
            assert(ascii_lowercase(text@).len() != name@.len());
        }
        return false;
    }
    let mut i: usize = 0;
    while i < length
        invariant
            length == text@.len(),
            text@.len() == name@.len(),
            i <= length,
            forall|j: int| 0 <= j < i ==> ascii_lower(#[trigger] text@[j]) == name@[j],
        decreases length - i,
    {
        let c = text.get_char(i);
        let n = name.get_char(i);
        let code: u32 = c as u32;
        let lowered: u32 = if 65 <= code && code <= 90 {
            code + 32
        } else {
            code
        };
        if lowered != n as u32 {
            proof {
                assert(ascii_lowercase(text@)[i as int] == ascii_lower(c));
                assert(ascii_lower(c) != n);
            }
            return false;
        }
        proof {
            assert(ascii_lower(c) == n);
        }
        i = i + 1;
    }
    proof {
        assert(ascii_lowercase(text@) =~= name@);
    }
    true
}

/// The text of a danger level that could not be read.
#[derive(Clone, Debug, PartialEq, Eq)]
pub struct ParseWorldDangerError(pub String);

impl WorldDanger {
    /// The lower-case name, as the command line writes it.
    pub fn as_str(self) -> (name: &'static str)
        ensures
            name@ == danger_name(self),
    {
        match self {
            WorldDanger::Peaceful => {
                proof {
                    reveal_strlit("peaceful");
                }
                "peaceful"
            },
            WorldDanger::Normal => {
                proof {
                    reveal_strlit("normal");
                }
                "normal"
            },
            WorldDanger::Harsh => {
                proof {
                    reveal_strlit("harsh");
                }
                "harsh"
            },
        }
    }

    pub fn to_string(&self) -> (name: String)
        ensures
            name@ == danger_name(*self),
    {
        String::from_str(self.as_str())
    }

    /// Reads `peaceful`, `normal` or `harsh`, in any mix of capitals; anything else is an
    /// error that carries the text.
    pub fn parse(value: &str) -> (result: Result<WorldDanger, ParseWorldDangerError>)
        ensures
            parsed_danger(value@) matches Some(danger) ==> result == Ok::<WorldDanger, ParseWorldDangerError>(danger),
            parsed_danger(value@) is None ==> (result matches Err(error) && error.0@ == value@),
    {
        proof {
            reveal_strlit("peaceful");
            reveal_strlit("normal");
            reveal_strlit("harsh");
            assert("peaceful"@ =~= danger_name(WorldDanger::Peaceful));
            assert("normal"@ =~= danger_name(WorldDanger::Normal));
            assert("harsh"@ =~= danger_name(WorldDanger::Harsh));
        }
        if matches_ignoring_case(value, "peaceful") {
            Ok(WorldDanger::Peaceful)
        } else if matches_ignoring_case(value, "normal") {
            Ok(WorldDanger::Normal)
        } else if matches_ignoring_case(value, "harsh") {
            Ok(WorldDanger::Harsh)
        } else {
            Err(ParseWorldDangerError(String::from_str(value)))
        }
    }
}

impl std::str::FromStr for WorldDanger {
    type Err = ParseWorldDangerError;

    fn from_str(value: &str) -> (result: Result<WorldDanger, ParseWorldDangerError>)
        ensures
            parsed_danger(value@) matches Some(danger) ==> result == Ok::<WorldDanger, ParseWorldDangerError>(danger),
            parsed_danger(value@) is None ==> (result matches Err(error) && error.0@ == value@),
    {
        WorldDanger::parse(value)
    }
}

/// When weak edges of the sparse relationship graph are forgotten.
#[derive(Clone, Copy, Debug, PartialEq, Eq, Structural)]
pub struct RelationshipDecayConfig {
    pub weak_relation_max: u8,
    pub weak_forget_years: u16,
    pub friendly_relation: u8,
    pub friendly_forget_years: u16,
    pub permanent_relation_min: u8,
}

pub open spec fn at_most_ten(value: u8) -> u8 {
    if value < 10 {
        value
    } else {
        10
    }
}

impl RelationshipDecayConfig {
    /// Whether a relationship unused for the given years is forgotten. Protected ones
    /// (family, partners) and those at the permanent relation or above never are; weak
    /// ones go after `weak_forget_years`, friendly ones after `friendly_forget_years`.
    pub open spec fn forgets(&self, relation: u8, years_since_interaction: u16, protected: bool) -> bool {
        if protected || relation >= at_most_ten(self.permanent_relation_min) {
            false
        } else if relation <= at_most_ten(self.weak_relation_max) {
            years_since_interaction >= self.weak_forget_years
        } else if relation == at_most_ten(self.friendly_relation) {
            years_since_interaction >= self.friendly_forget_years
        } else {
            false
        }
    }

    pub fn should_forget(&self, relation: u8, years_since_interaction: u16, protected: bool) -> (forget: bool)
        ensures
            forget == self.forgets(relation, years_since_interaction, protected),
    {
        let permanent_min: u8 = if self.permanent_relation_min < 10 {
            self.permanent_relation_min
        } else {
            10
        };
        if protected || relation >= permanent_min {
            return false;
        }
        let weak_max: u8 = if self.weak_relation_max < 10 {
            self.weak_relation_max
        } else {
            10
        };
        let friendly: u8 = if self.friendly_relation < 10 {
            self.friendly_relation
        } else {
            10
        };
        if relation <= weak_max {
            years_since_interaction >= self.weak_forget_years
        } else if relation == friendly {
            years_since_interaction >= self.friendly_forget_years
        } else {
            false
        }
    }
}

impl Default for RelationshipDecayConfig {
    fn default() -> (config: Self)
        ensures
            config == (RelationshipDecayConfig {
                weak_relation_max: 5,
                weak_forget_years: 4,
                friendly_relation: 6,
                friendly_forget_years: 8,
                permanent_relation_min: 7,
            }),
    {
        RelationshipDecayConfig {
            weak_relation_max: 5,
            weak_forget_years: 4,
            friendly_relation: 6,
            friendly_forget_years: 8,
            permanent_relation_min: 7,
        }
    }
}

} // verus!
