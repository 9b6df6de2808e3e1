//! Picking and counting the cards of a rank or of a suit.

use crate::card::{Card, Suit};
use crate::ranking::{is_rank, is_suit, is_tally, of_rank, of_suit, rank_count};
use vstd::prelude::*;

verus! {

/// What one more card adds to the cards of a rank.
pub proof fn lemma_of_rank_push(h: Seq<Card>, card: Card, value: int)
    ensures
        of_rank(h.push(card), value) == if card.value == value {
            of_rank(h, value).push(card)
        } else {
            of_rank(h, value)
        },
        rank_count(h, value) <= h.len(),
{
    h.lemma_filter_push(card, is_rank(value));
    h.lemma_filter_len(is_rank(value));
}

/// What one more card adds to the cards of a suit.
pub proof fn lemma_of_suit_push(h: Seq<Card>, card: Card, suit: Suit)
    ensures
        of_suit(h.push(card), suit) == if card.suit == suit {
            of_suit(h, suit).push(card)
        } else {
            of_suit(h, suit)
        },
{
    h.lemma_filter_push(card, is_suit(suit));
}

/// In no cards there are none of any rank or suit.
pub proof fn lemma_of_nothing(value: int, suit: Suit)
    ensures
        of_rank(Seq::<Card>::empty(), value) == Seq::<Card>::empty(),
        of_suit(Seq::<Card>::empty(), suit) == Seq::<Card>::empty(),
{
    Seq::<Card>::empty().lemma_filter_len(is_rank(value));
    Seq::<Card>::empty().lemma_filter_len(is_suit(suit));
    assert(of_rank(Seq::<Card>::empty(), value) =~= Seq::<Card>::empty());
    assert(of_suit(Seq::<Card>::empty(), suit) =~= Seq::<Card>::empty());
}

/// The first card of a rank is the card at the first place where that rank
/// stands.
pub proof fn lemma_first_of_rank(h: Seq<Card>, value: int, i: int)
    requires
        0 <= i < h.len(),
        h[i].value == value,
        forall|j: int| 0 <= j < i ==> (#[trigger] h[j]).value != value,
    ensures
        rank_count(h, value) > 0,
        of_rank(h, value)[0] == h[i],
    decreases h.len(),
{
    let front = h.drop_last();
    assert(h == front.push(h.last()));
    lemma_of_rank_push(front, h.last(), value);
    if i == h.len() - 1 {
        lemma_rank_absent(front, value);
    } else {
        lemma_first_of_rank(front, value, i);
    }
}

/// Where no card has the rank, none is picked.
pub proof fn lemma_rank_absent(h: Seq<Card>, value: int)
    requires
        forall|j: int| 0 <= j < h.len() ==> (#[trigger] h[j]).value != value,
    ensures
        rank_count(h, value) == 0,
    decreases h.len(),
{
    if h.len() == 0 {
        lemma_of_nothing(value, Suit::Clubs);
    } else {
        let front = h.drop_last();
        assert(h == front.push(h.last()));
        lemma_of_rank_push(front, h.last(), value);
        lemma_rank_absent(front, value);
    }
}

/// A copy of the cards.
pub fn copy_cards(cards: &Vec<Card>) -> (copy: Vec<Card>)
    ensures
        copy@ == cards@,
{
    let mut copy: Vec<Card> = Vec::new();
    let mut i: usize = 0;
    while i < cards.len()
        invariant
            i <= cards@.len(),
            copy@ == cards@.take(i as int),
        decreases cards@.len() - i,
    {
        copy.push(cards[i]);
        assert(cards@.take(i + 1) =~= cards@.take(i as int).push(cards@[i as int]));
        i = i + 1;
    }
    assert(cards@.take(i as int) =~= cards@);
    copy
}

/// Counts the cards rank by rank. A card whose rank is 14 or more is not
/// counted.
pub fn count_ranks(cards: &Vec<Card>) -> (counts: Vec<usize>)
    ensures
        is_tally(counts@, cards@),
{
    let mut counts: Vec<usize> = Vec::new();
    let mut v: usize = 0;
    while v < 14
        invariant
            v <= 14,
            counts@.len() == v,
            forall|k: int| 0 <= k < v ==> #[trigger] counts@[k] == 0,
        decreases 14 - v,
    {
        counts.push(0);
        v = v + 1;
    }
    let mut i: usize = 0;
    proof {
        assert(cards@.take(0) =~= Seq::<Card>::empty());
        assert forall|k: int| 0 <= k < 14 implies #[trigger] counts@[k] == rank_count(
            cards@.take(0),
            k,
        ) by {
            lemma_of_nothing(k, Suit::Clubs);
        }
    }
    while i < cards.len()
        invariant
            i <= cards@.len(),
            is_tally(counts@, cards@.take(i as int)),
        decreases cards@.len() - i,
    {
        let card = cards[i];
        let ghost before = counts@;
        proof {
            assert(cards@.take(i + 1) =~= cards@.take(i as int).push(card));
            assert forall|k: int| 0 <= k < 14 implies rank_count(cards@.take(i + 1), k) == before[k]
                + (if card.value == k {
                1int
            } else {
                0int
            }) && before[k] <= i by {
                lemma_of_rank_push(cards@.take(i as int), card, k);
            }
        }
        if card.value < 14 {
            let slot: usize = card.value as usize;
            let seen: usize = counts[slot];
            counts.set(slot, seen + 1);
        }
        i = i + 1;
    }
    assert(cards@.take(i as int) =~= cards@);
    counts
}

/// The cards of rank `val`, in their order.
pub fn cards_of_rank(val: u32, vec: &Vec<Card>) -> (output: Vec<Card>)
    ensures
        output@ == of_rank(vec@, val as int),
{
    let mut output: Vec<Card> = Vec::new();
    let mut i: usize = 0;
    proof {
        assert(vec@.take(0) =~= Seq::<Card>::empty());
        lemma_of_nothing(val as int, Suit::Clubs);
    }
    while i < vec.len()
        invariant
            i <= vec@.len(),
            output@ == of_rank(vec@.take(i as int), val as int),
        decreases vec@.len() - i,
    {
        proof {
            assert(vec@.take(i + 1) =~= vec@.take(i as int).push(vec@[i as int]));
            lemma_of_rank_push(vec@.take(i as int), vec@[i as int], val as int);
        }
        if vec[i].value == val {
            output.push(vec[i]);
        }
        i = i + 1;
    }
    assert(vec@.take(i as int) =~= vec@);
    output
}

/// The cards of suit `suit`, in their order.
pub fn cards_of_suit(suit: Suit, vec: &Vec<Card>) -> (output: Vec<Card>)
    ensures
        output@ == of_suit(vec@, suit),
{
    let mut output: Vec<Card> = Vec::new();
    let mut i: usize = 0;
    proof {
        assert(vec@.take(0) =~= Seq::<Card>::empty());
        lemma_of_nothing(0, suit);
    }
    while i < vec.len()
        invariant
            i <= vec@.len(),
            output@ == of_suit(vec@.take(i as int), suit),
        decreases vec@.len() - i,
    {
        proof {
            assert(vec@.take(i + 1) =~= vec@.take(i as int).push(vec@[i as int]));
            lemma_of_suit_push(vec@.take(i as int), vec@[i as int], suit);
        }
        if vec[i].suit == suit {
            output.push(vec[i]);
        }
        i = i + 1;
    }
    assert(vec@.take(i as int) =~= vec@);
    output
}

/// The first card of rank `val`, where there is one.
pub fn first_of_rank(val: u32, vec: &Vec<Card>) -> (card: Option<Card>)
    ensures
        card is Some <==> rank_count(vec@, val as int) > 0,
        card is Some ==> card->Some_0 == of_rank(vec@, val as int)[0],
{
    let mut i: usize = 0;
    while i < vec.len()
        invariant
            i <= vec@.len(),
            forall|j: int| 0 <= j < i ==> (#[trigger] vec@[j]).value != val,
        decreases vec@.len() - i,
    {
        if vec[i].value == val {
            proof {
                lemma_first_of_rank(vec@, val as int, i as int);
            }
            return Some(vec[i]);
        }
        i = i + 1;
    }
    proof {
        lemma_rank_absent(vec@, val as int);
    }
    None
}

} // verus!
