//! What the rank of a hand is: the mathematical model.
//!
//! Everything here is defined on a sequence of cards. A hand is ranked in
//! its layout: by ascending rank, cards of one rank in the order in which
//! they were given.

use crate::card::{power_rank, rank_power, Card, Suit};
use crate::level::HandLevel;
use crate::sorting::sorted_cards;
use vstd::prelude::*;

verus! {

/// The test for a card of rank `value`.
pub open spec fn is_rank(value: int) -> spec_fn(Card) -> bool {
    |c: Card| c.value == value
}

/// The test for a card of suit `suit`.
pub open spec fn is_suit(suit: Suit) -> spec_fn(Card) -> bool {
    |c: Card| c.suit == suit
}

/// The cards of rank `value`, in the order of `h`.
pub open spec fn of_rank(h: Seq<Card>, value: int) -> Seq<Card> {
    h.filter(is_rank(value))
}

/// The cards of suit `suit`, in the order of `h`.
pub open spec fn of_suit(h: Seq<Card>, suit: Suit) -> Seq<Card> {
    h.filter(is_suit(suit))
}

/// How many cards of `h` have rank `value`.
pub open spec fn rank_count(h: Seq<Card>, value: int) -> nat {
    of_rank(h, value).len()
}

/// `t` counts the cards of `h` rank by rank: entry `v` is the number of
/// cards of rank `v`, for `v` below 14. Entry 0 is there so that a rank is
/// its own index.
pub open spec fn is_tally(t: Seq<usize>, h: Seq<Card>) -> bool {
    &&& t.len() == 14
    &&& forall|v: int| 0 <= v < 14 ==> #[trigger] t[v] == rank_count(h, v)
}

/// Seven cards, each with a rank in 1..=13, no card twice.
pub open spec fn valid_hand(s: Seq<Card>) -> bool {
    &&& s.len() == 7
    &&& forall|i: int| 0 <= i < s.len() ==> (#[trigger] s[i]).well_formed()
    &&& s.no_duplicates()
}

/// The cards of the first suit, in the order clubs, diamonds, hearts,
/// spades, of which `h` holds five or more; empty where there is none.
/// Among seven cards at most one suit can have five.
pub open spec fn flush_cards(h: Seq<Card>) -> Seq<Card> {
    if of_suit(h, Suit::Clubs).len() >= 5 {
        of_suit(h, Suit::Clubs)
    } else if of_suit(h, Suit::Diamonds).len() >= 5 {
        of_suit(h, Suit::Diamonds)
    } else if of_suit(h, Suit::Hearts).len() >= 5 {
        of_suit(h, Suit::Hearts)
    } else if of_suit(h, Suit::Spades).len() >= 5 {
        of_suit(h, Suit::Spades)
    } else {
        Seq::empty()
    }
}

/// `h` holds five ranks in a row, the lowest of them `low`. A run is named
/// by its lowest card, counted as in a run: 1 names the wheel, ace to five,
/// and 10 names broadway, ten to ace.
pub open spec fn has_run(h: Seq<Card>, low: int) -> bool {
    &&& 1 <= low <= 10
    &&& rank_count(h, power_rank(low)) > 0
    &&& rank_count(h, power_rank(low + 1)) > 0
    &&& rank_count(h, power_rank(low + 2)) > 0
    &&& rank_count(h, power_rank(low + 3)) > 0
    &&& rank_count(h, power_rank(low + 4)) > 0
}

/// The five cards of the run named `low`, from its lowest card up: the
/// wheel begins with the ace, broadway ends with it. Where `h` holds a
/// rank more than once, the first card of that rank stands in.
pub open spec fn run_cards(h: Seq<Card>, low: int) -> Seq<Card> {
    Seq::new(5, |k: int| of_rank(h, power_rank(low + k))[0])
}

/// The cards of `run` from the last to the first: a run with its top card
/// first.
pub open spec fn top_first(run: Seq<Card>) -> Seq<Card> {
    Seq::new(run.len(), |k: int| run[run.len() - 1 - k])
}

/// The runs of `h` that are named `low` or lower, the lowest first.
pub open spec fn runs_up_to(h: Seq<Card>, low: int) -> Seq<Seq<Card>>
    decreases low,
{
    if low < 1 {
        Seq::empty()
    } else if has_run(h, low) {
        runs_up_to(h, low - 1).push(run_cards(h, low))
    } else {
        runs_up_to(h, low - 1)
    }
}

/// Every run of `h`, from the wheel up to broadway.
pub open spec fn all_runs(h: Seq<Card>) -> Seq<Seq<Card>> {
    runs_up_to(h, 10)
}

/// For each rank that counts `power` or more and of which `h` holds
/// exactly `n` cards, those cards; the highest such rank first.
pub open spec fn groups_down_to(h: Seq<Card>, n: nat, power: int) -> Seq<Seq<Card>>
    decreases 15 - power,
{
    if power > 14 {
        Seq::empty()
    } else if rank_count(h, power_rank(power)) == n {
        groups_down_to(h, n, power + 1).push(of_rank(h, power_rank(power)))
    } else {
        groups_down_to(h, n, power + 1)
    }
}

/// For each rank of which `h` holds exactly `n` cards, those cards; the
/// ace first, then from the king down.
pub open spec fn groups(h: Seq<Card>, n: nat) -> Seq<Seq<Card>> {
    groups_down_to(h, n, 2)
}

/// The five strongest cards of `f`, strongest first, where `f` ascends by
/// rank and holds no rank twice: an ace, which stands first in `f`, leads.
pub open spec fn top_five(f: Seq<Card>) -> Seq<Card> {
    let n = f.len() as int;
    if f[0].value == 1 {
        seq![f[0], f[n - 1], f[n - 2], f[n - 3], f[n - 4]]
    } else {
        seq![f[n - 1], f[n - 2], f[n - 3], f[n - 4], f[n - 5]]
    }
}

/// The strongest card of `h`, the first of them where several are equally
/// strong.
pub open spec fn strongest(h: Seq<Card>) -> Card
    decreases h.len(),
{
    if h.len() <= 1 {
        h[0]
    } else {
        let before = strongest(h.drop_last());
        if rank_power(h.last().value as int) > rank_power(before.value as int) {
            h.last()
        } else {
            before
        }
    }
}

/// The pair of a full house, given the triples and the pairs of the hand,
/// each from the highest rank down: two cards of the second triple where
/// there is one and no pair outranks it, else the highest pair.
pub open spec fn full_house_pair(threes: Seq<Seq<Card>>, twos: Seq<Seq<Card>>) -> Seq<Card> {
    if threes.len() >= 2 && (twos.len() == 0 || rank_power(threes[1][0].value as int)
        > rank_power(twos[0][0].value as int)) {
        threes[1].take(2)
    } else {
        twos[0]
    }
}

/// A level and the cards that realise it, the card that weighs most first.
pub struct HandValue {
    pub level: HandLevel,
    pub cards: Seq<Card>,
}

/// The rank of a laid-out hand: the first of the levels, from the royal
/// flush down, that the hand reaches. Of the runs the highest is taken,
/// and it is royal where it is the run from the ten.
pub open spec fn rank_hand(h: Seq<Card>) -> HandValue {
    let flush = flush_cards(h);
    let flush_runs = all_runs(flush);
    let fours = groups(h, 4);
    let threes = groups(h, 3);
    let twos = groups(h, 2);
    let runs = all_runs(h);
    if flush_runs.len() >= 1 {
        HandValue {
            level: if has_run(flush, 10) {
                HandLevel::RoyalFlush
            } else {
                HandLevel::StraightFlush
            },
            cards: top_first(flush_runs.last()),
        }
    } else if fours.len() >= 1 {
        HandValue { level: HandLevel::FourKind, cards: fours[0] }
    } else if threes.len() >= 1 && (threes.len() >= 2 || twos.len() >= 1) {
        HandValue { level: HandLevel::FullHouse, cards: threes[0] + full_house_pair(threes, twos) }
    } else if flush.len() >= 1 {
        HandValue { level: HandLevel::Flush, cards: top_five(flush) }
    } else if runs.len() >= 1 {
        HandValue { level: HandLevel::Straight, cards: top_first(runs.last()) }
    } else if threes.len() >= 1 {
        HandValue { level: HandLevel::ThreeKind, cards: threes[0] }
    } else if twos.len() >= 2 {
        HandValue { level: HandLevel::TwoPair, cards: twos[0] + twos[1] }
    } else if twos.len() >= 1 {
        HandValue { level: HandLevel::Pair, cards: twos[0] }
    } else {
        HandValue { level: HandLevel::HighCard, cards: seq![strongest(h)] }
    }
}

/// The rank of a hand: that of its layout.
pub open spec fn hand_value(s: Seq<Card>) -> HandValue {
    rank_hand(sorted_cards(s))
}

} // verus!
