//! Ranking a hand of seven cards.

use crate::card::{Card, HandError};
use crate::counting::copy_cards;
use crate::hand::Hand;
use crate::laws::{lemma_hand_value_size, lemma_realised_from_hand};
use crate::level::HandLevel;
use crate::ranking::{hand_value, valid_hand, HandValue};
use vstd::prelude::*;

verus! {

/// A ranked hand: its level, and the cards that realise the level, the
/// card that weighs most first.
#[derive(Clone, Debug)]
pub struct EvaluatedHand {
    pub level: HandLevel,
    pub cards: Vec<Card>,
}

impl View for EvaluatedHand {
    type V = HandValue;

    open spec fn view(&self) -> HandValue {
        HandValue { level: self.level, cards: self.cards@ }
    }
}

/// The cards are not seven, or one of them has a rank outside 1..=13.
pub open spec fn malformed(s: Seq<Card>) -> bool {
    s.len() != 7 || exists|i: int| 0 <= i < s.len() && !(#[trigger] s[i]).well_formed()
}

impl Card {
    /// Whether the two are the same card: the same rank and the same suit.
    pub fn same_card(&self, other: &Card) -> (r: bool)
        ensures
            r == (*self == *other),
    {
        self.value == other.value && self.suit == other.suit
    }

    /// Whether the rank lies in 1..=13.
    pub fn has_rank(&self) -> (r: bool)
        ensures
            r == self.well_formed(),
    {
        1 <= self.value && self.value <= 13
    }
}

/// Tells whether the cards make a hand, and if not, why not.
pub fn check_hand(cards: &Vec<Card>) -> (r: Result<(), HandError>)
    ensures
        valid_hand(cards@) <==> r is Ok,
        malformed(cards@) <==> r == Err::<(), HandError>(HandError::MalformedHand),
        !malformed(cards@) && !cards@.no_duplicates() <==> r == Err::<(), HandError>(
            HandError::DuplicateCard,
        ),
{
    if cards.len() != 7 {
        return Err(HandError::MalformedHand);
    }
    let mut i: usize = 0;
    while i < 7
        invariant
            i <= 7,
            cards@.len() == 7,
            forall|j: int| 0 <= j < i ==> (#[trigger] cards@[j]).well_formed(),
        decreases 7 - i,
    {
        if !cards[i].has_rank() {
            return Err(HandError::MalformedHand);
        }
        i = i + 1;
    }
    let mut a: usize = 0;
    while a < 7
        invariant
            a <= 7,
            cards@.len() == 7,
            !malformed(cards@),
            forall|x: int, y: int| 0 <= x < a && x < y < 7 ==> cards@[x] != cards@[y],
        decreases 7 - a,
    {
        let mut b: usize = a + 1;
        while b < 7
            invariant
                a < b <= 7,
                cards@.len() == 7,
                !malformed(cards@),
                forall|y: int| a < y < b ==> cards@[a as int] != cards@[y],
            decreases 7 - b,
        {
            if cards[a].same_card(&cards[b]) {
                assert(cards@[a as int] == cards@[b as int]);
                return Err(HandError::DuplicateCard);
            }
            b = b + 1;
        }
        a = a + 1;
    }
    assert forall|x: int, y: int|
        0 <= x < cards@.len() && 0 <= y < cards@.len() && x != y implies cards@[x]
        != cards@[y] by {
        if x < y {
            assert(cards@[x] != cards@[y]);
        } else {
            assert(cards@[y] != cards@[x]);
        }
    }
    Ok(())
}

/// Ranks a hand of seven cards: finds the strongest level that the cards
/// reach and the cards that realise it. Cards that do not make a hand are
/// refused.
pub fn evaluate(cards: &Vec<Card>) -> (r: Result<EvaluatedHand, HandError>)
    ensures
        valid_hand(cards@) ==> r is Ok && r->Ok_0@ == hand_value(cards@),
        r is Ok ==> r->Ok_0.cards@.len() == r->Ok_0.level.size() && 1
            <= r->Ok_0.level.strength() <= 10,
        r is Ok ==> forall|i: int|
            0 <= i < r->Ok_0.cards@.len() ==> cards@.contains(#[trigger] r->Ok_0.cards@[i]),
        malformed(cards@) ==> r is Err && r->Err_0 == HandError::MalformedHand,
        !malformed(cards@) && !cards@.no_duplicates() ==> r is Err && r->Err_0
            == HandError::DuplicateCard,
{
    match check_hand(cards) {
        Err(e) => Err(e),
        Ok(_) => {
            let mut hand = Hand { cards: copy_cards(cards), strength: HandLevel::Unranked };
            let layout = hand.sort_cards();
            let realised = hand.determine_strength(&layout);
            proof {
                lemma_hand_value_size(cards@);
                lemma_realised_from_hand(cards@);
            }
            Ok(EvaluatedHand { level: hand.strength, cards: realised })
        },
    }
}

} // verus!
