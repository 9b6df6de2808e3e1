//! One deal between two players who share five cards.

use crate::card::{Card, HandError};
use crate::counting::copy_cards;
use crate::compare::{compare, decide};
use crate::evaluate::{evaluate, EvaluatedHand};
use crate::hand::{all_in_range, decoded, numbers_distinct, numbers_in_range, Hand};
use crate::level::Winner;
use crate::ranking::hand_value;
use vstd::prelude::*;

verus! {

/// How a deal ended: both hands as they were ranked, and who won.
#[derive(Clone, Debug)]
pub struct Outcome {
    pub first: EvaluatedHand,
    pub second: EvaluatedHand,
    pub winner: Winner,
}

/// The numbers of the first player's cards: the first and the third of
/// the nine are private, the last five are shared.
pub open spec fn first_seven(perm: Seq<u32>) -> Seq<u32> {
    seq![perm[0], perm[2], perm[4], perm[5], perm[6], perm[7], perm[8]]
}

/// The numbers of the second player's cards: the second and the fourth
/// of the nine are private, the last five are shared.
pub open spec fn second_seven(perm: Seq<u32>) -> Seq<u32> {
    seq![perm[1], perm[3], perm[4], perm[5], perm[6], perm[7], perm[8]]
}

/// The numbers of either player's seven cards: the private cards go to
/// the players in turn, the last five are shared.
pub fn hands_of(perm: [u32; 9]) -> (r: ([u32; 7], [u32; 7]))
    ensures
        r.0@ == first_seven(perm@),
        r.1@ == second_seven(perm@),
{
    let one: [u32; 7] = [perm[0], perm[2], perm[4], perm[5], perm[6], perm[7], perm[8]];
    let two: [u32; 7] = [perm[1], perm[3], perm[4], perm[5], perm[6], perm[7], perm[8]];
    assert(one@ =~= first_seven(perm@));
    assert(two@ =~= second_seven(perm@));
    (one, two)
}

impl Outcome {
    /// The cards that realise the winner's level; none where the deal is a
    /// tie.
    pub fn winning_cards(&self) -> (r: Option<Vec<Card>>)
        ensures
            self.winner == Winner::First ==> r is Some && r->Some_0@ == self.first.cards@,
            self.winner == Winner::Second ==> r is Some && r->Some_0@ == self.second.cards@,
            self.winner == Winner::Tie ==> r is None,
    {
        match self.winner {
            Winner::First => Some(copy_cards(&self.first.cards)),
            Winner::Second => Some(copy_cards(&self.second.cards)),
            Winner::Tie => None,
        }
    }
}

/// Deals nine cards by their numbers, ranks the hand of either player
/// and decides between them. A number outside 1..=52 is refused, and so
/// is a number that occurs twice among the nine.
pub fn deal(perm: [u32; 9]) -> (r: Result<Outcome, HandError>)
    ensures
        !all_in_range(perm@) ==> r is Err && r->Err_0 == HandError::OutOfRangeCard,
        all_in_range(perm@) && !perm@.no_duplicates() ==> r is Err && r->Err_0
            == HandError::DuplicateCard,
        all_in_range(perm@) && perm@.no_duplicates() ==> r is Ok && r->Ok_0.first@ == hand_value(
            decoded(first_seven(perm@)),
        ) && r->Ok_0.second@ == hand_value(decoded(second_seven(perm@))) && r->Ok_0.winner
            == decide(r->Ok_0.first@, r->Ok_0.second@),
{
    if !numbers_in_range(&perm) {
        return Err(HandError::OutOfRangeCard);
    }
    if !numbers_distinct(&perm) {
        return Err(HandError::DuplicateCard);
    }
    let (one, two) = hands_of(perm);
    let first_hand = Hand::new(one)?;
    let second_hand = Hand::new(two)?;
    let first = evaluate(&first_hand.cards)?;
    let second = evaluate(&second_hand.cards)?;
    let winner = compare(&first, &second);
    Ok(Outcome { first, second, winner })
}

} // verus!
