//! Entity data returned by the map endpoint, modelled as plain values.
//!
//! The wire payloads are decoded outside this crate; the fields here
//! are what the client's own logic reads.

use vstd::prelude::*;

verus! {

/// The factions an entity can belong to.
#[derive(Copy, Clone, Debug, PartialEq, Eq, Hash, Structural)]
pub enum Faction {
    /// Neutral
    Neutral,
    /// Enlightened
    Enlightened,
    /// Resistance
    Resistance,
    /// Machina
    Machina,
}

impl Faction {
    /// The faction named by its one-letter wire code, if the code is
    /// known.
    pub fn from_code(code: &str) -> (r: Option<Faction>)
        ensures
            r == spec_faction_of(code@),
    {
        proof {
            reveal_strlit("N");
            reveal_strlit("E");
            reveal_strlit("R");
            reveal_strlit("M");
        }
        if code.unicode_len() != 1 {
            return None;
        }
        let c = code.get_char(0);
        proof {
            assert(code@ =~= seq![code@[0]]);
        }
        if c == 'N' {
            assert(code@ =~= "N"@);
            Some(Faction::Neutral)
        } else if c == 'E' {
            assert(code@ =~= "E"@);
            Some(Faction::Enlightened)
        } else if c == 'R' {
            assert(code@ =~= "R"@);
            Some(Faction::Resistance)
        } else if c == 'M' {
            assert(code@ =~= "M"@);
            Some(Faction::Machina)
        } else {
            None
        }
    }

    /// checks if neutral
    pub fn is_neutral(&self) -> (r: bool)
        ensures
            r == (*self is Neutral),
    {
        matches!(self, Faction::Neutral)
    }

    /// checks if enlightened
    pub fn is_enlightened(&self) -> (r: bool)
        ensures
            r == (*self is Enlightened),
    {
        matches!(self, Faction::Enlightened)
    }

    /// checks if resistance
    pub fn is_resistance(&self) -> (r: bool)
        ensures
            r == (*self is Resistance),
    {
        matches!(self, Faction::Resistance)
    }

    /// checks if machina
    pub fn is_machina(&self) -> (r: bool)
        ensures
            r == (*self is Machina),
    {
        matches!(self, Faction::Machina)
    }
}

/// The faction, if any, that a one-letter wire code names.
pub open spec fn spec_faction_of(s: Seq<char>) -> Option<Faction> {
    if s == "N"@ {
        Some(Faction::Neutral)
    } else if s == "E"@ {
        Some(Faction::Enlightened)
    } else if s == "R"@ {
        Some(Faction::Resistance)
    } else if s == "M"@ {
        Some(Faction::Machina)
    } else {
        None
    }
}

/// An application-level error reported for one tile of an otherwise
/// successful batch response.
pub struct IntelError {
    /// The error text the endpoint reported.
    pub error: String,
}

/// One game entity of a tile's payload, reduced to the plain fields
/// this client reads.
pub struct IntelEntity {
    /// The entity's identifier.
    pub id: String,
    /// The entity's timestamp.
    pub timestamp: i64,
    /// The entity's faction, when the payload names a known one.
    pub faction: Option<Faction>,
}

/// The entity payload of one successfully fetched tile.
pub struct IntelEntities {
    /// The entities of the tile.
    pub entities: Vec<IntelEntity>,
}

/// The per-tile outcome inside a batch response: a payload, or an
/// application-level error for that tile alone.
pub enum IntelResult {
    /// error entity
    Error(IntelError),
    /// ok entity
    Entities(IntelEntities),
}

} // verus!
