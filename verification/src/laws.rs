//! What holds of every ranked hand.

use crate::card::{power_rank, rank_power, Card, Suit};
use crate::hand::{lemma_group_sizes, lemma_run_lengths};
use crate::level::HandLevel;
use crate::ranking::{
    all_runs, flush_cards, full_house_pair, groups, groups_down_to, hand_value, has_run, is_rank,
    is_suit, of_rank, of_suit, rank_count, rank_hand, run_cards, runs_up_to, strongest, top_first,
};
use crate::sorting::{lemma_layout_settled, lemma_sorted_cards, sorted_cards};
use vstd::prelude::*;
use vstd::seq_lib::to_multiset_contains;

verus! {

/// The cards picked for a rank are cards of `h`, and they have that rank.
pub proof fn lemma_of_rank_cards(h: Seq<Card>, value: int)
    ensures
        forall|i: int|
            0 <= i < of_rank(h, value).len() ==> h.contains(#[trigger] of_rank(h, value)[i])
                && of_rank(h, value)[i].value == value,
{
    let picked = of_rank(h, value);
    assert forall|i: int| 0 <= i < picked.len() implies h.contains(#[trigger] picked[i])
        && picked[i].value == value by {
        assert(picked.contains(picked[i]));
        h.lemma_filter_contains_rev(is_rank(value), picked[i]);
        h.lemma_filter_pred(is_rank(value), i);
    }
}

/// The cards picked for a suit are cards of `h`, and they have that suit.
pub proof fn lemma_of_suit_cards(h: Seq<Card>, suit: Suit)
    ensures
        forall|i: int|
            0 <= i < of_suit(h, suit).len() ==> h.contains(#[trigger] of_suit(h, suit)[i])
                && of_suit(h, suit)[i].suit == suit,
{
    let picked = of_suit(h, suit);
    assert forall|i: int| 0 <= i < picked.len() implies h.contains(#[trigger] picked[i])
        && picked[i].suit == suit by {
        assert(picked.contains(picked[i]));
        h.lemma_filter_contains_rev(is_suit(suit), picked[i]);
        h.lemma_filter_pred(is_suit(suit), i);
    }
}

/// What a group counts for: all its cards have one rank.
pub open spec fn group_power(group: Seq<Card>) -> int {
    rank_power(group[0].value as int)
}

/// `group` holds the cards of a rank of which `h` has exactly `n`.
pub open spec fn is_group(h: Seq<Card>, n: nat, group: Seq<Card>) -> bool {
    &&& 1 <= group[0].value <= 13
    &&& group == of_rank(h, group[0].value as int)
    &&& group.len() == n
}

/// `groups_down_to` lists groups only, each once, from the highest rank
/// down, and it leaves out no rank that counts `power` or more.
pub proof fn lemma_groups_down_to(h: Seq<Card>, n: nat, power: int)
    requires
        n >= 1,
        2 <= power,
    ensures
        forall|i: int|
            0 <= i < groups_down_to(h, n, power).len() ==> is_group(
                h,
                n,
                #[trigger] groups_down_to(h, n, power)[i],
            ) && power <= group_power(groups_down_to(h, n, power)[i]),
        forall|i: int, j: int|
            0 <= i < j < groups_down_to(h, n, power).len() ==> group_power(
                #[trigger] groups_down_to(h, n, power)[i],
            ) > group_power(#[trigger] groups_down_to(h, n, power)[j]),
        forall|v: int|
            1 <= v <= 13 && power <= rank_power(v) && #[trigger] rank_count(h, v) == n
                ==> groups_down_to(h, n, power).contains(of_rank(h, v)),
    decreases 15 - power,
{
    let gs = groups_down_to(h, n, power);
    if power > 14 {
        assert forall|v: int| 1 <= v <= 13 && power <= rank_power(v) implies false by {}
    } else {
        lemma_groups_down_to(h, n, power + 1);
        let rest = groups_down_to(h, n, power + 1);
        let rank = power_rank(power);
        let new = of_rank(h, rank);
        lemma_of_rank_cards(h, rank);
        assert forall|i: int| 0 <= i < gs.len() implies is_group(h, n, #[trigger] gs[i]) && power
            <= group_power(gs[i]) by {
            if i < rest.len() {
                assert(gs[i] == rest[i]);
            } else {
                assert(gs[i] == new);
                assert(new[0].value == rank);
            }
        }
        assert forall|i: int, j: int| 0 <= i < j < gs.len() implies group_power(#[trigger] gs[i])
            > group_power(#[trigger] gs[j]) by {
            assert(gs[i] == rest[i]);
            if j < rest.len() {
                assert(gs[j] == rest[j]);
            } else {
                assert(gs[j] == new);
                assert(new[0].value == rank);
            }
        }
        assert forall|v: int|
            1 <= v <= 13 && power <= rank_power(v) && #[trigger] rank_count(h, v)
                == n implies gs.contains(of_rank(h, v)) by {
            if rank_power(v) == power {
                assert(v == rank);
                assert(gs[gs.len() - 1] == new);
            } else {
                assert(rest.contains(of_rank(h, v)));
                let i = choose|i: int| 0 <= i < rest.len() && rest[i] == of_rank(h, v);
                assert(gs[i] == rest[i]);
            }
        }
    }
}

/// The groups of `n` cards are listed from the highest rank down, each
/// once, and every rank of which `h` holds exactly `n` cards is among
/// them: so the first group is that of the highest such rank.
pub proof fn lemma_groups(h: Seq<Card>, n: nat)
    requires
        n >= 1,
    ensures
        forall|i: int|
            0 <= i < groups(h, n).len() ==> is_group(h, n, #[trigger] groups(h, n)[i]),
        forall|i: int, j: int|
            0 <= i < j < groups(h, n).len() ==> group_power(#[trigger] groups(h, n)[i])
                > group_power(#[trigger] groups(h, n)[j]),
        forall|v: int|
            1 <= v <= 13 && #[trigger] rank_count(h, v) == n ==> groups(h, n).contains(
                of_rank(h, v),
            ),
{
    lemma_groups_down_to(h, n, 2);
}

/// The name of a run: the rank of its first card, 1 for the wheel, which
/// begins with the ace, and 10 for broadway.
pub open spec fn run_low(run: Seq<Card>) -> int {
    run[0].value as int
}

/// `run` holds the cards of a run of `h`.
pub open spec fn is_run(h: Seq<Card>, run: Seq<Card>) -> bool {
    &&& has_run(h, run_low(run))
    &&& run == run_cards(h, run_low(run))
}

/// The cards of a run belong to `h`, and their ranks step up by one from
/// its first card: the wheel runs ace, two, three, four, five, and
/// broadway ten, jack, queen, king, ace. No run goes round the corner.
/// With its top card first the same run steps down.
pub proof fn lemma_run_cards(h: Seq<Card>, low: int)
    requires
        has_run(h, low),
    ensures
        run_cards(h, low).len() == 5,
        run_low(run_cards(h, low)) == low,
        forall|k: int|
            0 <= k < 5 ==> h.contains(#[trigger] run_cards(h, low)[k]) && run_cards(
                h,
                low,
            )[k].value == power_rank(low + k),
        top_first(run_cards(h, low)).len() == 5,
        forall|k: int|
            0 <= k < 5 ==> (#[trigger] top_first(run_cards(h, low))[k]).value == power_rank(
                low + 4 - k,
            ),
{
    let run = run_cards(h, low);
    assert forall|k: int| 0 <= k < 5 implies h.contains(#[trigger] run[k]) && run[k].value
        == power_rank(low + k) by {
        lemma_of_rank_cards(h, power_rank(low + k));
    }
    assert(run[0].value == power_rank(low));
    assert forall|k: int| 0 <= k < 5 implies (#[trigger] top_first(run)[k]).value == power_rank(
        low + 4 - k,
    ) by {
        assert(top_first(run)[k] == run[4 - k]);
    }
}

/// `runs_up_to` lists runs only, each once, from the lowest up, and it
/// leaves out no run that is named `low` or lower.
pub proof fn lemma_runs_up_to(h: Seq<Card>, low: int)
    requires
        low <= 10,
    ensures
        forall|i: int|
            0 <= i < runs_up_to(h, low).len() ==> is_run(h, #[trigger] runs_up_to(h, low)[i])
                && run_low(runs_up_to(h, low)[i]) <= low,
        forall|i: int, j: int|
            0 <= i < j < runs_up_to(h, low).len() ==> run_low(#[trigger] runs_up_to(h, low)[i])
                < run_low(#[trigger] runs_up_to(h, low)[j]),
        forall|l: int|
            l <= low && #[trigger] has_run(h, l) ==> runs_up_to(h, low).contains(run_cards(h, l)),
    decreases low,
{
    let rs = runs_up_to(h, low);
    if low >= 1 {
        lemma_runs_up_to(h, low - 1);
        let rest = runs_up_to(h, low - 1);
        let new = run_cards(h, low);
        if has_run(h, low) {
            lemma_run_cards(h, low);
        }
        assert forall|i: int| 0 <= i < rs.len() implies is_run(h, #[trigger] rs[i]) && run_low(
            rs[i],
        ) <= low by {
            if i < rest.len() {
                assert(rs[i] == rest[i]);
            } else {
                assert(rs[i] == new);
            }
        }
        assert forall|i: int, j: int| 0 <= i < j < rs.len() implies run_low(#[trigger] rs[i])
            < run_low(#[trigger] rs[j]) by {
            assert(rs[i] == rest[i]);
            if j < rest.len() {
                assert(rs[j] == rest[j]);
            } else {
                assert(rs[j] == new);
            }
        }
        assert forall|l: int| l <= low && #[trigger] has_run(h, l) implies rs.contains(
            run_cards(h, l),
        ) by {
            if l == low {
                assert(rs[rs.len() - 1] == new);
            } else {
                assert(rest.contains(run_cards(h, l)));
                let i = choose|i: int| 0 <= i < rest.len() && rest[i] == run_cards(h, l);
                assert(rs[i] == rest[i]);
            }
        }
    }
}

/// The runs of `h` are listed from the lowest up, each once, and every
/// run that `h` holds is among them: so the last is the highest run.
pub proof fn lemma_all_runs(h: Seq<Card>)
    ensures
        forall|i: int| 0 <= i < all_runs(h).len() ==> is_run(h, #[trigger] all_runs(h)[i]),
        forall|i: int, j: int|
            0 <= i < j < all_runs(h).len() ==> run_low(#[trigger] all_runs(h)[i]) < run_low(
                #[trigger] all_runs(h)[j],
            ),
        forall|l: int| #[trigger] has_run(h, l) ==> all_runs(h).contains(run_cards(h, l)),
{
    lemma_runs_up_to(h, 10);
}

/// The strongest card is a card of `h`, and none of `h` counts more.
pub proof fn lemma_strongest(h: Seq<Card>)
    requires
        h.len() >= 1,
    ensures
        h.contains(strongest(h)),
        forall|i: int|
            0 <= i < h.len() ==> rank_power((#[trigger] h[i]).value as int) <= rank_power(
                strongest(h).value as int,
            ),
    decreases h.len(),
{
    if h.len() <= 1 {
        assert(h[0] == strongest(h));
    } else {
        let front = h.drop_last();
        lemma_strongest(front);
        let i = choose|i: int| 0 <= i < front.len() && front[i] == strongest(front);
        assert(h[i] == strongest(front));
        assert(h[h.len() - 1] == h.last());
        assert forall|i: int| 0 <= i < h.len() implies rank_power((#[trigger] h[i]).value as int)
            <= rank_power(strongest(h).value as int) by {
            if i < front.len() {
                assert(h[i] == front[i]);
            }
        }
    }
}

/// The cards that realise a level are as many as the level takes: five
/// for the flushes, the straight and the full house, four for four of a
/// kind and for two pairs, three, two and one for three of a kind, a pair
/// and a high card. Every hand reaches a level.
pub proof fn lemma_realising_size(h: Seq<Card>)
    ensures
        rank_hand(h).cards.len() == rank_hand(h).level.size(),
        rank_hand(h).cards.len() >= 1,
        rank_hand(h).level != HandLevel::Unranked,
{
    lemma_run_lengths(flush_cards(h), 10);
    lemma_run_lengths(h, 10);
    lemma_group_sizes(h, 4, 2);
    lemma_group_sizes(h, 3, 2);
    lemma_group_sizes(h, 2, 2);
}

/// The cards that realise the level of a hand are as many as the level
/// takes, and the hand reaches one of the ten levels.
pub proof fn lemma_hand_value_size(s: Seq<Card>)
    ensures
        hand_value(s).cards.len() == hand_value(s).level.size(),
        1 <= hand_value(s).level.strength() <= 10,
{
    lemma_realising_size(sorted_cards(s));
}

/// The cards that realise the level of a layout are cards of the layout.
pub proof fn lemma_realised_from_layout(h: Seq<Card>)
    requires
        h.len() >= 1,
    ensures
        forall|i: int|
            0 <= i < rank_hand(h).cards.len() ==> h.contains(#[trigger] rank_hand(h).cards[i]),
{
    let flush = flush_cards(h);
    let flush_runs = all_runs(flush);
    let fours = groups(h, 4);
    let threes = groups(h, 3);
    let twos = groups(h, 2);
    let runs = all_runs(h);
    let cards = rank_hand(h).cards;
    lemma_of_suit_cards(h, Suit::Clubs);
    lemma_of_suit_cards(h, Suit::Diamonds);
    lemma_of_suit_cards(h, Suit::Hearts);
    lemma_of_suit_cards(h, Suit::Spades);
    lemma_all_runs(flush);
    lemma_all_runs(h);
    lemma_groups(h, 4);
    lemma_groups(h, 3);
    lemma_groups(h, 2);
    lemma_strongest(h);
    assert forall|i: int| 0 <= i < cards.len() implies h.contains(#[trigger] cards[i]) by {
        if flush_runs.len() >= 1 {
            let run = flush_runs.last();
            assert(is_run(flush, run));
            lemma_run_cards(flush, run_low(run));
            assert(cards[i] == run[4 - i]);
            assert(flush.contains(run[4 - i]));
            let k = choose|k: int| 0 <= k < flush.len() && flush[k] == run[4 - i];
            assert(h.contains(flush[k]));
        } else if fours.len() >= 1 {
            assert(is_group(h, 4, fours[0]));
            lemma_of_rank_cards(h, fours[0][0].value as int);
        } else if threes.len() >= 1 && (threes.len() >= 2 || twos.len() >= 1) {
            assert(is_group(h, 3, threes[0]));
            lemma_of_rank_cards(h, threes[0][0].value as int);
            if i >= 3 {
                let pair = full_house_pair(threes, twos);
                assert(cards[i] == pair[i - 3]);
                if threes.len() >= 2 && (twos.len() == 0 || rank_power(threes[1][0].value as int)
                    > rank_power(twos[0][0].value as int)) {
                    assert(is_group(h, 3, threes[1]));
                    lemma_of_rank_cards(h, threes[1][0].value as int);
                    assert(pair[i - 3] == threes[1][i - 3]);
                } else {
                    assert(is_group(h, 2, twos[0]));
                    lemma_of_rank_cards(h, twos[0][0].value as int);
                }
            }
        } else if flush.len() >= 1 {
            let n = flush.len() as int;
            let k = if flush[0].value == 1 {
                if i == 0 {
                    0
                } else {
                    n - i
                }
            } else {
                n - 1 - i
            };
            assert(cards[i] == flush[k]);
            assert(h.contains(flush[k]));
        } else if runs.len() >= 1 {
            let run = runs.last();
            assert(is_run(h, run));
            lemma_run_cards(h, run_low(run));
            assert(cards[i] == run[4 - i]);
        } else if threes.len() >= 1 {
            assert(is_group(h, 3, threes[0]));
            lemma_of_rank_cards(h, threes[0][0].value as int);
        } else if twos.len() >= 2 {
            assert(is_group(h, 2, twos[0]));
            assert(is_group(h, 2, twos[1]));
            lemma_of_rank_cards(h, twos[0][0].value as int);
            lemma_of_rank_cards(h, twos[1][0].value as int);
            if i >= 2 {
                assert(cards[i] == twos[1][i - 2]);
            }
        } else if twos.len() >= 1 {
            assert(is_group(h, 2, twos[0]));
            lemma_of_rank_cards(h, twos[0][0].value as int);
        } else {
        }
    }
}

/// The cards that realise the level of a hand are cards of the hand.
pub proof fn lemma_realised_from_hand(s: Seq<Card>)
    requires
        s.len() >= 1,
    ensures
        forall|i: int|
            0 <= i < hand_value(s).cards.len() ==> s.contains(#[trigger] hand_value(s).cards[i]),
{
    let h = sorted_cards(s);
    lemma_sorted_cards(s, h);
    lemma_realised_from_layout(h);
    assert forall|i: int| 0 <= i < hand_value(s).cards.len() implies s.contains(
        #[trigger] hand_value(s).cards[i],
    ) by {
        let card = hand_value(s).cards[i];
        assert(h.contains(card));
        to_multiset_contains(h, card);
        to_multiset_contains(s, card);
    }
}

/// Ranking the same cards again gives the same level and the same
/// realising cards, and so does ranking the layout of a hand in place of
/// the hand.
pub proof fn lemma_value_repeats(a: Seq<Card>, b: Seq<Card>)
    requires
        a == b,
    ensures
        hand_value(a) == hand_value(b),
        hand_value(sorted_cards(a)) == hand_value(a),
{
    lemma_layout_settled(a);
}

} // verus!
