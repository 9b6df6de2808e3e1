//! Equality and order of cards, and the order of levels.
//!
//! Cards are equal and ordered by the rank alone: the suit takes no part
//! in either. Here the ranks stand in their plain order, the ace lowest.
//! Levels are ordered by strength, the royal flush greatest.

use crate::card::Card;
use crate::level::HandLevel;
use core::cmp::Ordering;
use vstd::prelude::*;
use vstd::std_specs::cmp::PartialEqSpecImpl;
use vstd::std_specs::cmp::PartialOrdSpecImpl;

verus! {

impl PartialEq for Card {
    fn eq(&self, other: &Card) -> (r: bool) {
        self.value == other.value
    }
}

impl PartialEqSpecImpl for Card {
    open spec fn obeys_eq_spec() -> bool {
        true
    }

    open spec fn eq_spec(&self, other: &Card) -> bool {
        self.value == other.value
    }
}

impl Eq for Card {

}

impl PartialOrd for Card {
    fn partial_cmp(&self, other: &Card) -> (r: Option<Ordering>) {
        if self.value < other.value {
            Some(Ordering::Less)
        } else if self.value > other.value {
            Some(Ordering::Greater)
        } else {
            Some(Ordering::Equal)
        }
    }
}

impl PartialOrdSpecImpl for Card {
    open spec fn obeys_partial_cmp_spec() -> bool {
        true
    }

    open spec fn partial_cmp_spec(&self, other: &Card) -> Option<Ordering> {
        if self.value < other.value {
            Some(Ordering::Less)
        } else if self.value > other.value {
            Some(Ordering::Greater)
        } else {
            Some(Ordering::Equal)
        }
    }
}

impl Card {
    /// Orders two cards by rank.
    pub fn cmp(&self, other: &Card) -> (r: Ordering)
        ensures
            r == Ordering::Less <==> self.value < other.value,
            r == Ordering::Greater <==> self.value > other.value,
            r == Ordering::Equal <==> self.value == other.value,
    {
        if self.value > other.value {
            Ordering::Greater
        } else if self.value < other.value {
            Ordering::Less
        } else {
            Ordering::Equal
        }
    }
}

impl PartialOrd for HandLevel {
    fn partial_cmp(&self, other: &HandLevel) -> (r: Option<Ordering>) {
        let mine: u32 = self.rating();
        let theirs: u32 = other.rating();
        if mine < theirs {
            Some(Ordering::Less)
        } else if mine > theirs {
            Some(Ordering::Greater)
        } else {
            Some(Ordering::Equal)
        }
    }
}

impl PartialOrdSpecImpl for HandLevel {
    open spec fn obeys_partial_cmp_spec() -> bool {
        true
    }

    open spec fn partial_cmp_spec(&self, other: &HandLevel) -> Option<Ordering> {
        if self.strength() < other.strength() {
            Some(Ordering::Less)
        } else if self.strength() > other.strength() {
            Some(Ordering::Greater)
        } else {
            Some(Ordering::Equal)
        }
    }
}

} // verus!
