//! Cards and their numbering.

use vstd::prelude::*;

verus! {

/// The four suits, in the order of their blocks in the numbering.
#[derive(Clone, Copy, Debug, PartialEq, Eq, Structural)]
pub enum Suit {
    Clubs,
    Diamonds,
    Hearts,
    Spades,
}

/// Why a card or a hand was refused.
#[derive(Clone, Copy, Debug, PartialEq, Eq, Structural)]
pub enum HandError {
    /// A card number lies outside 1..=52.
    OutOfRangeCard,
    /// A hand holds the same card twice.
    DuplicateCard,
    /// A hand does not hold seven cards, or one of them has no rank.
    MalformedHand,
}

/// A playing card: a rank from 1 (the ace) to 13 (the king), and a suit.
#[derive(Clone, Copy, Debug)]
pub struct Card {
    pub value: u32,
    pub suit: Suit,
}

/// Position of a suit's block in the numbering: clubs 0, spades 3.
pub open spec fn suit_index(suit: Suit) -> int {
    match suit {
        Suit::Clubs => 0,
        Suit::Diamonds => 1,
        Suit::Hearts => 2,
        Suit::Spades => 3,
    }
}

/// The card that the number `n` stands for, for `n` in 1..=52: four blocks
/// of thirteen, each running from the ace to the king.
pub open spec fn card_of_code(n: int) -> Card {
    Card {
        value: (((n - 1) % 13) + 1) as u32,
        suit: if n <= 13 {
            Suit::Clubs
        } else if n <= 26 {
            Suit::Diamonds
        } else if n <= 39 {
            Suit::Hearts
        } else {
            Suit::Spades
        },
    }
}

/// What a rank counts for when ranks are compared: the ace counts 14,
/// every other rank its own number.
pub open spec fn rank_power(value: int) -> int {
    if value == 1 {
        14
    } else {
        value
    }
}

/// The rank that counts for `power`: the inverse of `rank_power` on 2..=14.
pub open spec fn power_rank(power: int) -> int {
    if power == 14 {
        1
    } else {
        power
    }
}

impl Card {
    /// The rank lies in 1..=13.
    pub open spec fn well_formed(self) -> bool {
        1 <= self.value <= 13
    }

    /// The number of this card in 1..=52.
    pub open spec fn code(self) -> int {
        13 * suit_index(self.suit) + self.value
    }

    /// Decodes a card number. Numbers outside 1..=52 are refused.
    pub fn new(crd: u32) -> (r: Result<Card, HandError>)
        ensures
            1 <= crd <= 52 ==> r == Ok::<Card, HandError>(card_of_code(crd as int)),
            !(1 <= crd <= 52) ==> r == Err::<Card, HandError>(HandError::OutOfRangeCard),
            r is Ok ==> r->Ok_0.well_formed() && r->Ok_0.code() == crd,
    {
        if crd < 1 || crd > 52 {
            Err(HandError::OutOfRangeCard)
        } else if crd >= 40 {
            Ok(Card { value: crd - 39, suit: Suit::Spades })
        } else if crd >= 27 {
            Ok(Card { value: crd - 26, suit: Suit::Hearts })
        } else if crd >= 14 {
            Ok(Card { value: crd - 13, suit: Suit::Diamonds })
        } else {
            Ok(Card { value: crd, suit: Suit::Clubs })
        }
    }

    /// The number that `new` decodes to this card.
    pub fn number(&self) -> (n: u32)
        requires
            self.well_formed(),
        ensures
            n == self.code(),
            1 <= n <= 52,
            card_of_code(n as int) == *self,
    {
        let base: u32 = match self.suit {
            Suit::Clubs => 0,
            Suit::Diamonds => 13,
            Suit::Hearts => 26,
            Suit::Spades => 39,
        };
        base + self.value
    }

    /// What this card counts for in a comparison: 14 for the ace.
    pub fn power(&self) -> (p: u32)
        ensures
            p == rank_power(self.value as int),
    {
        if self.value == 1 {
            14
        } else {
            self.value
        }
    }
}

} // verus!
