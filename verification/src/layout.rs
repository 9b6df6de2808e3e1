//! What holds of the layout of a hand, and of the cards picked from it.

use crate::card::{rank_power, Card, Suit};
use crate::counting::{lemma_of_nothing, lemma_of_suit_push};
use crate::laws::lemma_of_suit_cards;
use crate::ranking::{flush_cards, is_suit, of_suit, top_five, valid_hand};
use crate::sorting::{lemma_sorted_cards, sorted_cards};
use vstd::prelude::*;
use vstd::relations::sorted_by;
use vstd::seq_lib::to_multiset_contains;

verus! {

/// `a` ranks no higher than `b` and is another card.
pub open spec fn strictly_before(a: Card, b: Card) -> bool {
    a.value <= b.value && a != b
}

/// `strictly_before` as a relation.
pub open spec fn strict_order() -> spec_fn(Card, Card) -> bool {
    |a: Card, b: Card| strictly_before(a, b)
}

/// Picking from a sorted sequence leaves it sorted.
pub proof fn lemma_filter_sorted<A>(
    h: Seq<A>,
    pick: spec_fn(A) -> bool,
    before: spec_fn(A, A) -> bool,
)
    requires
        sorted_by(h, before),
    ensures
        sorted_by(h.filter(pick), before),
    decreases h.len(),
{
    reveal(Seq::filter);
    if h.len() > 0 {
        let front = h.drop_last();
        let picked = front.filter(pick);
        assert forall|i: int, j: int| 0 <= i < j < front.len() implies before(
            #[trigger] front[i],
            #[trigger] front[j],
        ) by {
            assert(before(h[i], h[j]));
        }
        lemma_filter_sorted(front, pick, before);
        if pick(h.last()) {
            let all = h.filter(pick);
            assert(all == picked.push(h.last()));
            assert forall|i: int, j: int| 0 <= i < j < all.len() implies before(
                #[trigger] all[i],
                #[trigger] all[j],
            ) by {
                if j < picked.len() {
                    assert(before(picked[i], picked[j]));
                } else {
                    assert(picked.contains(picked[i]));
                    front.lemma_filter_contains_rev(pick, picked[i]);
                    let k = choose|k: int| 0 <= k < front.len() && front[k] == picked[i];
                    assert(before(h[k], h[h.len() - 1]));
                }
            }
        }
    }
}

/// In the layout of a hand no card stands twice.
pub proof fn lemma_layout_strict(s: Seq<Card>)
    requires
        s.no_duplicates(),
    ensures
        sorted_cards(s).no_duplicates(),
        sorted_by(sorted_cards(s), strict_order()),
{
    let h = sorted_cards(s);
    lemma_sorted_cards(s, h);
    s.lemma_multiset_has_no_duplicates();
    h.lemma_multiset_has_no_duplicates_conv();
    assert forall|i: int, j: int| 0 <= i < j < h.len() implies strict_order()(
        #[trigger] h[i],
        #[trigger] h[j],
    ) by {
        assert(h[i].value <= h[j].value);
    }
}

/// The four suits share the cards between them.
pub proof fn lemma_suits_share(h: Seq<Card>)
    ensures
        of_suit(h, Suit::Clubs).len() + of_suit(h, Suit::Diamonds).len() + of_suit(
            h,
            Suit::Hearts,
        ).len() + of_suit(h, Suit::Spades).len() == h.len(),
    decreases h.len(),
{
    if h.len() == 0 {
        assert(h =~= Seq::<Card>::empty());
        lemma_of_nothing(0, Suit::Clubs);
        lemma_of_nothing(0, Suit::Diamonds);
        lemma_of_nothing(0, Suit::Hearts);
        lemma_of_nothing(0, Suit::Spades);
    } else {
        let front = h.drop_last();
        assert(h == front.push(h.last()));
        lemma_suits_share(front);
        lemma_of_suit_push(front, h.last(), Suit::Clubs);
        lemma_of_suit_push(front, h.last(), Suit::Diamonds);
        lemma_of_suit_push(front, h.last(), Suit::Hearts);
        lemma_of_suit_push(front, h.last(), Suit::Spades);
    }
}

/// Among nine cards or fewer at most one suit has five, and the flush
/// cards are the cards of that suit: there are none exactly where no suit
/// has five.
pub proof fn lemma_one_flush_suit(h: Seq<Card>, suit: Suit)
    requires
        h.len() <= 9,
    ensures
        of_suit(h, suit).len() >= 5 ==> flush_cards(h) == of_suit(h, suit),
        flush_cards(h).len() == 0 || flush_cards(h).len() >= 5,
        flush_cards(h).len() == 0 <==> forall|other: Suit|
            (#[trigger] of_suit(h, other)).len() < 5,
{
    lemma_suits_share(h);
    if flush_cards(h).len() == 0 {
        assert forall|other: Suit| (#[trigger] of_suit(h, other)).len() < 5 by {
            match other {
                Suit::Clubs => {},
                Suit::Diamonds => {},
                Suit::Hearts => {},
                Suit::Spades => {},
            }
        }
    } else {
        assert(of_suit(h, Suit::Clubs).len() >= 5 || of_suit(h, Suit::Diamonds).len() >= 5
            || of_suit(h, Suit::Hearts).len() >= 5 || of_suit(h, Suit::Spades).len() >= 5);
    }
    match suit {
        Suit::Clubs => {},
        Suit::Diamonds => {},
        Suit::Hearts => {},
        Suit::Spades => {},
    }
}

/// The cards of a flush are of one suit, and in the layout of a hand their
/// ranks ascend strictly.
pub proof fn lemma_flush_ascends(s: Seq<Card>)
    requires
        valid_hand(s),
    ensures
        forall|i: int, j: int|
            0 <= i < j < flush_cards(sorted_cards(s)).len() ==> (#[trigger] flush_cards(
                sorted_cards(s),
            )[i]).value < (#[trigger] flush_cards(sorted_cards(s))[j]).value,
        forall|i: int|
            0 <= i < flush_cards(sorted_cards(s)).len() ==> (#[trigger] flush_cards(
                sorted_cards(s),
            )[i]).well_formed() && flush_cards(sorted_cards(s))[i].suit == flush_cards(
                sorted_cards(s),
            )[0].suit,
{
    let h = sorted_cards(s);
    let f = flush_cards(h);
    lemma_layout_strict(s);
    lemma_sorted_cards(s, h);
    if f.len() > 0 {
        let suit = f[0].suit;
        lemma_of_suit_cards(h, Suit::Clubs);
        lemma_of_suit_cards(h, Suit::Diamonds);
        lemma_of_suit_cards(h, Suit::Hearts);
        lemma_of_suit_cards(h, Suit::Spades);
        lemma_filter_sorted(h, is_suit(Suit::Clubs), strict_order());
        lemma_filter_sorted(h, is_suit(Suit::Diamonds), strict_order());
        lemma_filter_sorted(h, is_suit(Suit::Hearts), strict_order());
        lemma_filter_sorted(h, is_suit(Suit::Spades), strict_order());
        assert(sorted_by(f, strict_order()));
        assert forall|i: int| 0 <= i < f.len() implies (#[trigger] f[i]).well_formed() && f[i].suit
            == suit by {
            assert(h.contains(f[i]));
            to_multiset_contains(h, f[i]);
            to_multiset_contains(s, f[i]);
            let k = choose|k: int| 0 <= k < s.len() && s[k] == f[i];
            assert(s[k].well_formed());
        }
        assert forall|i: int, j: int| 0 <= i < j < f.len() implies (#[trigger] f[i]).value < (
        #[trigger] f[j]).value by {
            assert(strict_order()(f[i], f[j]));
            assert(f[i].suit == suit && f[j].suit == suit);
        }
    }
}

/// A flush is realised by the five strongest cards of its suit, the
/// strongest first: each counts more than the next, and a card of the suit
/// that is left out counts less than all five.
pub proof fn lemma_flush_takes_strongest(s: Seq<Card>)
    requires
        valid_hand(s),
        flush_cards(sorted_cards(s)).len() >= 1,
    ensures
        forall|i: int, j: int|
            0 <= i < j < 5 ==> rank_power(
                (#[trigger] top_five(flush_cards(sorted_cards(s)))[i]).value as int,
            ) > rank_power((#[trigger] top_five(flush_cards(sorted_cards(s)))[j]).value as int),
        forall|k: int|
            0 <= k < flush_cards(sorted_cards(s)).len() ==> top_five(
                flush_cards(sorted_cards(s)),
            ).contains(#[trigger] flush_cards(sorted_cards(s))[k]) || rank_power(
                flush_cards(sorted_cards(s))[k].value as int,
            ) < rank_power(top_five(flush_cards(sorted_cards(s)))[4].value as int),
{
    let h = sorted_cards(s);
    let f = flush_cards(h);
    let t = top_five(f);
    let n = f.len() as int;
    lemma_sorted_cards(s, h);
    lemma_one_flush_suit(h, Suit::Clubs);
    lemma_flush_ascends(s);
    assert(n >= 5);
    assert(f[0].well_formed() && f[n - 1].well_formed() && f[n - 2].well_formed() && f[n
        - 3].well_formed() && f[n - 4].well_formed() && f[n - 5].well_formed());
    assert(f[n - 5].value < f[n - 4].value < f[n - 3].value < f[n - 2].value < f[n - 1].value);
    if f[0].value == 1 {
        assert(n - 4 >= 1 ==> f[0].value < f[n - 4].value);
    } else {
        assert(n - 5 >= 1 ==> f[0].value < f[n - 5].value);
    }
    assert forall|k: int| 0 <= k < n implies t.contains(#[trigger] f[k]) || rank_power(
        f[k].value as int,
    ) < rank_power(t[4].value as int) by {
        assert(f[k].well_formed());
        if f[0].value == 1 {
            if k == 0 {
                assert(t[0] == f[k]);
            } else if k >= n - 4 {
                assert(t[n - k] == f[k]);
            } else {
                assert(f[0].value < f[k].value < f[n - 4].value);
            }
        } else {
            if k >= n - 5 {
                assert(t[n - 1 - k] == f[k]);
            } else {
                if k > 0 {
                    assert(f[0].value < f[k].value);
                }
                assert(f[k].value < f[n - 5].value);
            }
        }
    }
}

} // verus!
