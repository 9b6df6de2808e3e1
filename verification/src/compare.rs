//! Deciding between two ranked hands.

use crate::card::{rank_power, Card};
use crate::evaluate::EvaluatedHand;
use crate::level::Winner;
use crate::ranking::HandValue;
use vstd::prelude::*;

verus! {

/// Who wins on the cards alone, from place `from` on: the cards are
/// compared place by place, the ace above the king, and the first place
/// where they differ decides. Where one side runs out of cards first, or
/// no place differs, it is a tie.
pub open spec fn by_cards(a: Seq<Card>, b: Seq<Card>, from: int) -> Winner
    decreases a.len() - from,
{
    if from < 0 || from >= a.len() || from >= b.len() {
        Winner::Tie
    } else if rank_power(a[from].value as int) > rank_power(b[from].value as int) {
        Winner::First
    } else if rank_power(a[from].value as int) < rank_power(b[from].value as int) {
        Winner::Second
    } else {
        by_cards(a, b, from + 1)
    }
}

/// Who wins: the hand of the stronger level, and between hands of one
/// level the one that wins on the cards.
pub open spec fn decide(a: HandValue, b: HandValue) -> Winner {
    if a.level.strength() > b.level.strength() {
        Winner::First
    } else if a.level.strength() < b.level.strength() {
        Winner::Second
    } else {
        by_cards(a.cards, b.cards, 0)
    }
}

/// The places that both hands have.
pub open spec fn shared_places(a: Seq<Card>, b: Seq<Card>) -> int {
    if a.len() <= b.len() {
        a.len() as int
    } else {
        b.len() as int
    }
}

/// The cards at place `i` count the same.
pub open spec fn level_at(a: Seq<Card>, b: Seq<Card>, i: int) -> bool {
    rank_power(a[i].value as int) == rank_power(b[i].value as int)
}

/// Every place from `from` up to `i` is level.
pub open spec fn level_between(a: Seq<Card>, b: Seq<Card>, from: int, i: int) -> bool {
    forall|j: int| from <= j < i ==> #[trigger] level_at(a, b, j)
}

/// Place `i` is the first from `from` on that is not level, and there the
/// card of `a` counts more.
pub open spec fn leads_at(a: Seq<Card>, b: Seq<Card>, from: int, i: int) -> bool {
    &&& from <= i < shared_places(a, b)
    &&& rank_power(a[i].value as int) > rank_power(b[i].value as int)
    &&& level_between(a, b, from, i)
}

/// What `by_cards` says, told without recursion: it is a tie where every
/// shared place is level, and else the side wins whose card counts more
/// at the first place that is not.
pub proof fn lemma_by_cards(a: Seq<Card>, b: Seq<Card>, from: int)
    requires
        0 <= from,
    ensures
        by_cards(a, b, from) == Winner::Tie <==> level_between(a, b, from, shared_places(a, b)),
        by_cards(a, b, from) == Winner::First <==> exists|i: int| leads_at(a, b, from, i),
        by_cards(a, b, from) == Winner::Second <==> exists|i: int| leads_at(b, a, from, i),
    decreases a.len() - from,
{
    let n = shared_places(a, b);
    assert(forall|j: int| level_at(a, b, j) <==> level_at(b, a, j));
    if from >= n {
    } else if !level_at(a, b, from) {
        if rank_power(a[from].value as int) > rank_power(b[from].value as int) {
            assert(leads_at(a, b, from, from));
        } else {
            assert(leads_at(b, a, from, from));
        }
        assert forall|i: int| #[trigger] leads_at(a, b, from, i) implies i == from by {
            if i > from {
                assert(level_at(a, b, from));
            }
        }
        assert forall|i: int| #[trigger] leads_at(b, a, from, i) implies i == from by {
            if i > from {
                assert(level_at(b, a, from));
            }
        }
    } else {
        lemma_by_cards(a, b, from + 1);
        assert forall|i: int|
            #![trigger leads_at(a, b, from, i)]
            #![trigger leads_at(a, b, from + 1, i)]
            leads_at(a, b, from, i) <==> leads_at(a, b, from + 1, i) by {
            if leads_at(a, b, from + 1, i) {
                assert forall|j: int| from <= j < i implies level_at(a, b, j) by {
                    if j > from {
                        assert(level_at(a, b, j));
                    }
                }
            }
        }
        assert forall|i: int|
            #![trigger leads_at(b, a, from, i)]
            #![trigger leads_at(b, a, from + 1, i)]
            leads_at(b, a, from, i) <==> leads_at(b, a, from + 1, i) by {
            if leads_at(b, a, from + 1, i) {
                assert forall|j: int| from <= j < i implies level_at(b, a, j) by {
                    if j > from {
                        assert(level_at(b, a, j));
                    }
                }
            }
        }
        if level_between(a, b, from + 1, n) {
            assert forall|j: int| from <= j < n implies level_at(a, b, j) by {
                if j > from {
                    assert(level_at(a, b, j));
                }
            }
        }
    }
}

/// A hand of a stronger level wins, whatever the cards of either hand.
pub proof fn lemma_stronger_level_wins(a: HandValue, b: HandValue)
    requires
        a.level.strength() > b.level.strength(),
    ensures
        decide(a, b) == Winner::First,
        decide(b, a) == Winner::Second,
{
}

/// Hands of one level whose cards count the same place by place tie: so
/// does a hand with itself.
pub proof fn lemma_level_hands_tie(a: HandValue, b: HandValue)
    requires
        a.level == b.level,
        a.cards.len() == b.cards.len(),
        level_between(a.cards, b.cards, 0, a.cards.len() as int),
    ensures
        decide(a, b) == Winner::Tie,
        decide(a, a) == Winner::Tie,
{
    lemma_by_cards(a.cards, b.cards, 0);
    lemma_by_cards(a.cards, a.cards, 0);
}

/// Changing the sides changes the winner's side, and a tie stays a tie.
pub proof fn lemma_decide_mirrored(a: HandValue, b: HandValue)
    ensures
        decide(a, b) == Winner::First <==> decide(b, a) == Winner::Second,
        decide(a, b) == Winner::Second <==> decide(b, a) == Winner::First,
        decide(a, b) == Winner::Tie <==> decide(b, a) == Winner::Tie,
{
    lemma_cards_mirrored(a.cards, b.cards, 0);
}

/// Changing the sides changes who wins on the cards.
pub proof fn lemma_cards_mirrored(a: Seq<Card>, b: Seq<Card>, from: int)
    requires
        0 <= from,
    ensures
        by_cards(a, b, from) == Winner::First <==> by_cards(b, a, from) == Winner::Second,
        by_cards(a, b, from) == Winner::Second <==> by_cards(b, a, from) == Winner::First,
        by_cards(a, b, from) == Winner::Tie <==> by_cards(b, a, from) == Winner::Tie,
    decreases a.len() - from,
{
    if from < a.len() && from < b.len() && level_at(a, b, from) {
        lemma_cards_mirrored(a, b, from + 1);
    }
}

/// Decides between two ranked hands: the stronger level wins; between
/// hands of one level the cards are compared place by place, and the
/// first place where they differ decides. Hands that differ nowhere tie.
pub fn compare(a: &EvaluatedHand, b: &EvaluatedHand) -> (winner: Winner)
    ensures
        winner == decide(a@, b@),
{
    let left: u32 = a.level.rating();
    let right: u32 = b.level.rating();
    if left > right {
        return Winner::First;
    }
    if left < right {
        return Winner::Second;
    }
    let mut i: usize = 0;
    while i < a.cards.len() && i < b.cards.len()
        invariant
            a.level.strength() == b.level.strength(),
            by_cards(a.cards@, b.cards@, 0) == by_cards(a.cards@, b.cards@, i as int),
        decreases a.cards@.len() - i,
    {
        let mine: u32 = a.cards[i].power();
        let theirs: u32 = b.cards[i].power();
        if mine > theirs {
            return Winner::First;
        }
        if mine < theirs {
            return Winner::Second;
        }
        i = i + 1;
    }
    Winner::Tie
}

} // verus!
