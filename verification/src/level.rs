//! The categories of hands and their strengths.

use vstd::prelude::*;

verus! {

/// The category of a ranked hand, from the strongest down. `Unranked` is
/// the level of a hand that has not been ranked yet.
#[derive(Clone, Copy, Debug, PartialEq, Eq, Structural)]
pub enum HandLevel {
    RoyalFlush,
    StraightFlush,
    FourKind,
    FullHouse,
    Flush,
    Straight,
    ThreeKind,
    TwoPair,
    Pair,
    HighCard,
    Unranked,
}

/// Who holds the better hand.
#[derive(Clone, Copy, Debug, PartialEq, Eq, Structural)]
pub enum Winner {
    First,
    Second,
    Tie,
}

impl HandLevel {
    /// The strength of a level: 10 for a royal flush down to 1 for a high
    /// card, and 0 for a hand that is not ranked.
    pub open spec fn strength(self) -> int {
        match self {
            HandLevel::RoyalFlush => 10,
            HandLevel::StraightFlush => 9,
            HandLevel::FourKind => 8,
            HandLevel::FullHouse => 7,
            HandLevel::Flush => 6,
            HandLevel::Straight => 5,
            HandLevel::ThreeKind => 4,
            HandLevel::TwoPair => 3,
            HandLevel::Pair => 2,
            HandLevel::HighCard => 1,
            HandLevel::Unranked => 0,
        }
    }

    /// How many cards realise a hand of this level.
    pub open spec fn size(self) -> int {
        match self {
            HandLevel::RoyalFlush => 5,
            HandLevel::StraightFlush => 5,
            HandLevel::FourKind => 4,
            HandLevel::FullHouse => 5,
            HandLevel::Flush => 5,
            HandLevel::Straight => 5,
            HandLevel::ThreeKind => 3,
            HandLevel::TwoPair => 4,
            HandLevel::Pair => 2,
            HandLevel::HighCard => 1,
            HandLevel::Unranked => 0,
        }
    }

    /// The strength of this level as a number.
    pub fn rating(&self) -> (r: u32)
        ensures
            r == self.strength(),
    {
        match self {
            HandLevel::RoyalFlush => 10,
            HandLevel::StraightFlush => 9,
            HandLevel::FourKind => 8,
            HandLevel::FullHouse => 7,
            HandLevel::Flush => 6,
            HandLevel::Straight => 5,
            HandLevel::ThreeKind => 4,
            HandLevel::TwoPair => 3,
            HandLevel::Pair => 2,
            HandLevel::HighCard => 1,
            HandLevel::Unranked => 0,
        }
    }
}

/// Two levels of the same strength are the same level.
pub proof fn lemma_strength_tells_level(a: HandLevel, b: HandLevel)
    requires
        a.strength() == b.strength(),
    ensures
        a == b,
{
}

} // verus!
