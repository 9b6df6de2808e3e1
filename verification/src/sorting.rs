//! The order in which a hand is laid out before it is ranked: by ascending
//! rank, the ace lowest, cards of one rank in the order in which they were
//! given.

use crate::card::{Card, Suit};
use crate::counting::{lemma_of_nothing, lemma_of_rank_push, lemma_rank_absent};
use crate::ranking::{is_rank, of_rank};
use vstd::prelude::*;
use vstd::seq_lib::{to_multiset_build, to_multiset_len};

verus! {

/// The ranks of `h` never fall from one card to the next.
pub open spec fn ascending(h: Seq<Card>) -> bool {
    forall|i: int, j: int| 0 <= i < j < h.len() ==> (#[trigger] h[i]).value <= (#[trigger] h[j]).value
}

/// For every rank, `h` and `s` hold the same cards of that rank in the
/// same order.
pub open spec fn same_ranks(h: Seq<Card>, s: Seq<Card>) -> bool {
    forall|v: int| #[trigger] of_rank(h, v) == of_rank(s, v)
}

/// `h` is a layout of `s`: it ascends, and the cards of each rank stand in
/// it as they stand in `s`.
pub open spec fn is_layout(h: Seq<Card>, s: Seq<Card>) -> bool {
    ascending(h) && same_ranks(h, s)
}

/// The cards of `s` whose rank is below `bound`: those of rank 0, then
/// those of rank 1, and so on, each rank in the order of `s`.
pub open spec fn ranks_below(s: Seq<Card>, bound: int) -> Seq<Card>
    decreases bound,
{
    if bound <= 0 {
        Seq::empty()
    } else {
        ranks_below(s, bound - 1) + of_rank(s, bound - 1)
    }
}

/// The cards of `s` by ascending rank, cards of one rank in the order in
/// which `s` holds them.
pub open spec fn sorted_cards(s: Seq<Card>) -> Seq<Card> {
    ranks_below(s, 0x1_0000_0000)
}

/// Cards that all have one rank are the cards of that rank among them.
pub proof fn lemma_one_rank(x: Seq<Card>, value: int)
    requires
        forall|i: int| 0 <= i < x.len() ==> (#[trigger] x[i]).value == value,
    ensures
        of_rank(x, value) == x,
    decreases x.len(),
{
    if x.len() == 0 {
        lemma_of_nothing(value, Suit::Clubs);
        assert(x =~= Seq::<Card>::empty());
    } else {
        let front = x.drop_last();
        assert(x == front.push(x.last()));
        lemma_of_rank_push(front, x.last(), value);
        lemma_one_rank(front, value);
    }
}

/// The cards of a rank are cards of that rank.
proof fn lemma_rank_of_picked(s: Seq<Card>, value: int)
    ensures
        forall|i: int| 0 <= i < of_rank(s, value).len() ==> (#[trigger] of_rank(s, value)[i]).value
            == value,
{
    assert forall|i: int| 0 <= i < of_rank(s, value).len() implies (#[trigger] of_rank(
        s,
        value,
    )[i]).value == value by {
        s.lemma_filter_pred(is_rank(value), i);
    }
}

/// `ranks_below` ascends, holds ranks below the bound only, and holds of
/// each such rank the cards that `s` holds, in the order of `s`.
pub proof fn lemma_ranks_below(s: Seq<Card>, bound: int)
    requires
        0 <= bound,
    ensures
        ascending(ranks_below(s, bound)),
        forall|i: int|
            0 <= i < ranks_below(s, bound).len() ==> (#[trigger] ranks_below(s, bound)[i]).value
                < bound,
        forall|v: int|
            0 <= v < bound ==> #[trigger] of_rank(ranks_below(s, bound), v) == of_rank(s, v),
        forall|v: int|
            !(0 <= v < bound) ==> (#[trigger] of_rank(ranks_below(s, bound), v)).len() == 0,
    decreases bound,
{
    let all = ranks_below(s, bound);
    if bound == 0 {
        assert forall|v: int| (#[trigger] of_rank(all, v)).len() == 0 by {
            lemma_rank_absent(all, v);
        }
    } else {
        let rank = bound - 1;
        let lower = ranks_below(s, rank);
        let new = of_rank(s, rank);
        lemma_ranks_below(s, rank);
        lemma_rank_of_picked(s, rank);
        assert forall|i: int| 0 <= i < all.len() implies (#[trigger] all[i]).value < bound by {
            if i < lower.len() {
                assert(all[i] == lower[i]);
            } else {
                assert(all[i] == new[i - lower.len()]);
            }
        }
        assert forall|i: int, j: int| 0 <= i < j < all.len() implies (#[trigger] all[i]).value <= (
        #[trigger] all[j]).value by {
            if j < lower.len() {
                assert(all[i] == lower[i] && all[j] == lower[j]);
            } else if i < lower.len() {
                assert(all[i] == lower[i] && all[j] == new[j - lower.len()]);
            } else {
                assert(all[i] == new[i - lower.len()] && all[j] == new[j - lower.len()]);
            }
        }
        assert forall|v: int| 0 <= v < bound implies #[trigger] of_rank(all, v) == of_rank(
            s,
            v,
        ) by {
            Seq::filter_distributes_over_add(lower, new, is_rank(v));
            if v == rank {
                lemma_one_rank(new, rank);
                assert(of_rank(lower, v).len() == 0);
                assert(of_rank(lower, v) + new =~= new);
            } else {
                lemma_rank_absent(new, v);
                assert(of_rank(lower, v) + of_rank(new, v) =~= of_rank(lower, v));
            }
        }
        assert forall|v: int| !(0 <= v < bound) implies (#[trigger] of_rank(all, v)).len()
            == 0 by {
            lemma_rank_absent(all, v);
        }
    }
}

/// Sequences that hold the same cards of every rank hold the same cards.
pub proof fn lemma_same_ranks_same_cards(a: Seq<Card>, b: Seq<Card>)
    requires
        same_ranks(a, b),
    ensures
        a.to_multiset() == b.to_multiset(),
        a.len() == b.len(),
{
    assert forall|c: Card| a.to_multiset().count(c) == b.to_multiset().count(c) by {
        lemma_count_of_picked(a, c);
        lemma_count_of_picked(b, c);
        assert(of_rank(a, c.value as int) == of_rank(b, c.value as int));
    }
    assert(a.to_multiset() =~= b.to_multiset());
    to_multiset_len(a);
    to_multiset_len(b);
}

/// A card occurs among the cards of its rank as often as among all.
proof fn lemma_count_of_picked(h: Seq<Card>, c: Card)
    ensures
        of_rank(h, c.value as int).to_multiset().count(c) == h.to_multiset().count(c),
    decreases h.len(),
{
    broadcast use vstd::multiset::group_multiset_axioms;

    if h.len() == 0 {
        lemma_of_nothing(c.value as int, Suit::Clubs);
        assert(h =~= Seq::<Card>::empty());
    } else {
        let front = h.drop_last();
        assert(h == front.push(h.last()));
        lemma_count_of_picked(front, c);
        lemma_of_rank_push(front, h.last(), c.value as int);
        to_multiset_build(front, h.last());
        to_multiset_build(of_rank(front, c.value as int), h.last());
    }
}

/// A sequence has one layout only.
pub proof fn lemma_layout_unique(a: Seq<Card>, b: Seq<Card>)
    requires
        ascending(a),
        ascending(b),
        same_ranks(a, b),
    ensures
        a == b,
    decreases a.len(),
{
    lemma_same_ranks_same_cards(a, b);
    if a.len() == 0 {
        assert(a =~= b);
    } else {
        let last_a = a.last();
        let last_b = b.last();
        let high = last_a.value as int;
        let front_a = a.drop_last();
        let front_b = b.drop_last();
        assert(a == front_a.push(last_a));
        assert(b == front_b.push(last_b));
        lemma_of_rank_push(front_a, last_a, high);
        lemma_of_rank_push(front_b, last_b, last_b.value as int);
        // the last card of either has the highest rank, so both have one rank
        lemma_rank_of_picked(b, high);
        lemma_rank_of_picked(a, last_b.value as int);
        assert(of_rank(b, high).len() > 0);
        b.lemma_filter_contains_rev(is_rank(high), of_rank(b, high)[0]);
        let k = choose|k: int| 0 <= k < b.len() && b[k] == of_rank(b, high)[0];
        assert(b[k].value <= b[b.len() - 1].value);
        assert(of_rank(a, last_b.value as int).len() > 0);
        a.lemma_filter_contains_rev(
            is_rank(last_b.value as int),
            of_rank(a, last_b.value as int)[0],
        );
        let m = choose|m: int|
            0 <= m < a.len() && a[m] == of_rank(a, last_b.value as int)[0];
        assert(a[m].value <= a[a.len() - 1].value);
        assert(last_b.value == high);
        assert(of_rank(a, high).last() == last_a);
        assert(of_rank(b, high).last() == last_b);
        assert(last_a == last_b);
        assert forall|v: int| #[trigger] of_rank(front_a, v) == of_rank(front_b, v) by {
            lemma_of_rank_push(front_a, last_a, v);
            lemma_of_rank_push(front_b, last_b, v);
            assert(of_rank(a, v) == of_rank(b, v));
            if v == high {
                assert(of_rank(front_a, v) =~= of_rank(a, v).drop_last());
                assert(of_rank(front_b, v) =~= of_rank(b, v).drop_last());
            }
        }
        assert forall|i: int, j: int| 0 <= i < j < front_a.len() implies (
        #[trigger] front_a[i]).value <= (#[trigger] front_a[j]).value by {
            assert(a[i].value <= a[j].value);
        }
        assert forall|i: int, j: int| 0 <= i < j < front_b.len() implies (
        #[trigger] front_b[i]).value <= (#[trigger] front_b[j]).value by {
            assert(b[i].value <= b[j].value);
        }
        lemma_layout_unique(front_a, front_b);
    }
}

/// `sorted_cards(s)` is a layout of `s` and holds the same cards, and
/// every layout of `s` is `sorted_cards(s)`.
pub proof fn lemma_sorted_cards(s: Seq<Card>, h: Seq<Card>)
    ensures
        is_layout(sorted_cards(s), s),
        sorted_cards(s).to_multiset() == s.to_multiset(),
        sorted_cards(s).len() == s.len(),
        is_layout(h, s) ==> h == sorted_cards(s),
{
    let sorted = sorted_cards(s);
    lemma_ranks_below(s, 0x1_0000_0000);
    assert forall|v: int| #[trigger] of_rank(sorted, v) == of_rank(s, v) by {
        if !(0 <= v < 0x1_0000_0000) {
            lemma_rank_absent(s, v);
            assert(of_rank(sorted, v) =~= of_rank(s, v));
        }
    }
    lemma_same_ranks_same_cards(sorted, s);
    if is_layout(h, s) {
        lemma_layout_unique(h, sorted);
    }
}

/// Laying out a layout changes nothing.
pub proof fn lemma_layout_settled(s: Seq<Card>)
    ensures
        sorted_cards(sorted_cards(s)) == sorted_cards(s),
{
    lemma_sorted_cards(s, s);
    lemma_sorted_cards(sorted_cards(s), sorted_cards(s));
}

/// What a card put into an ascending sequence, behind the cards that rank
/// no higher and before those that rank higher, changes: the sequence
/// still ascends, and the card is the last of its rank.
pub proof fn lemma_place_card(h: Seq<Card>, place: int, card: Card)
    requires
        ascending(h),
        0 <= place <= h.len(),
        forall|j: int| 0 <= j < place ==> (#[trigger] h[j]).value <= card.value,
        forall|j: int| place <= j < h.len() ==> (#[trigger] h[j]).value > card.value,
    ensures
        ascending(h.insert(place, card)),
        same_ranks(h.insert(place, card), h.push(card)),
{
    let next = h.insert(place, card);
    let front = h.subrange(0, place);
    let back = h.subrange(place, h.len() as int);
    assert(next == front.push(card) + back);
    assert(h =~= front + back);
    assert forall|i: int, j: int| 0 <= i < j < next.len() implies (#[trigger] next[i]).value <= (
    #[trigger] next[j]).value by {
        let i0 = if i < place { i } else { i - 1 };
        let j0 = if j < place { j } else { j - 1 };
        if i != place {
            assert(next[i] == h[i0]);
        }
        if j != place {
            assert(next[j] == h[j0]);
        }
        if i != place && j != place {
            assert(h[i0].value <= h[j0].value);
        }
    }
    assert forall|v: int| #[trigger] of_rank(next, v) == of_rank(h.push(card), v) by {
        Seq::filter_distributes_over_add(front.push(card), back, is_rank(v));
        Seq::filter_distributes_over_add(front, back, is_rank(v));
        lemma_of_rank_push(front, card, v);
        lemma_of_rank_push(h, card, v);
        if v == card.value {
            assert forall|j: int| 0 <= j < back.len() implies (#[trigger] back[j]).value != v by {
                assert(back[j] == h[place + j]);
            }
            lemma_rank_absent(back, v);
            assert(of_rank(next, v) =~= of_rank(front, v).push(card));
            assert(of_rank(h, v) =~= of_rank(front, v));
        }
    }
}

/// Lays the cards out by ascending rank, cards of one rank in the order in
/// which they were given.
pub fn sort_by_rank(cards: &Vec<Card>) -> (sorted: Vec<Card>)
    ensures
        sorted@ == sorted_cards(cards@),
        sorted@.len() == cards@.len(),
        sorted@.to_multiset() == cards@.to_multiset(),
        forall|i: int, j: int|
            0 <= i < j < sorted@.len() ==> (#[trigger] sorted@[i]).value <= (
            #[trigger] sorted@[j]).value,
        forall|v: int| #[trigger] of_rank(sorted@, v) == of_rank(cards@, v),
{
    let mut sorted: Vec<Card> = Vec::new();
    let mut i: usize = 0;
    assert(cards@.take(0) =~= sorted@);
    while i < cards.len()
        invariant
            i <= cards@.len(),
            sorted@.len() == i,
            is_layout(sorted@, cards@.take(i as int)),
        decreases cards@.len() - i,
    {
        let card = cards[i];
        let mut place: usize = 0;
        while place < sorted.len() && sorted[place].value <= card.value
            invariant
                place <= sorted@.len(),
                forall|j: int| 0 <= j < place ==> (#[trigger] sorted@[j]).value <= card.value,
            decreases sorted@.len() - place,
        {
            place = place + 1;
        }
        let ghost before = sorted@;
        proof {
            assert forall|j: int| place <= j < before.len() implies (#[trigger] before[j]).value
                > card.value by {
                if j > place {
                    assert(before[place as int].value <= before[j].value);
                }
            }
            lemma_place_card(before, place as int, card);
            assert(cards@.take(i + 1) =~= cards@.take(i as int).push(card));
            assert forall|v: int| #[trigger] of_rank(before.insert(place as int, card), v)
                == of_rank(cards@.take(i + 1), v) by {
                assert(of_rank(before.insert(place as int, card), v) == of_rank(
                    before.push(card),
                    v,
                ));
                assert(of_rank(before, v) == of_rank(cards@.take(i as int), v));
                lemma_of_rank_push(before, card, v);
                lemma_of_rank_push(cards@.take(i as int), card, v);
            }
        }
        sorted.insert(place, card);
        i = i + 1;
    }
    proof {
        assert(cards@.take(i as int) =~= cards@);
        lemma_sorted_cards(cards@, sorted@);
    }
    sorted
}

} // verus!
