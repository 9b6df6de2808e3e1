//! A hand of seven cards and the steps by which it is ranked.

use crate::card::{card_of_code, power_rank, rank_power, Card, HandError, Suit};
use crate::counting::{cards_of_rank, cards_of_suit, copy_cards, count_ranks, first_of_rank};
use crate::level::HandLevel;
use crate::ranking::{
    all_runs, flush_cards, full_house_pair, groups, groups_down_to, has_run, is_tally, of_rank,
    rank_hand, run_cards, runs_up_to, strongest, top_first, top_five, valid_hand,
};
use crate::sorting::{sort_by_rank, sorted_cards};
use vstd::prelude::*;

verus! {

/// Seven cards and the level they were found to reach, `Unranked` until
/// `determine_strength` has run.
#[derive(Clone, Debug, PartialEq, Eq)]
pub struct Hand {
    pub cards: Vec<Card>,
    pub strength: HandLevel,
}

/// What the lists of cards hold.
pub open spec fn card_lists(lists: Seq<Vec<Card>>) -> Seq<Seq<Card>> {
    Seq::new(lists.len(), |i: int| lists[i]@)
}

/// The cards that the seven numbers stand for, in their order.
pub open spec fn decoded(codes: Seq<u32>) -> Seq<Card> {
    Seq::new(codes.len(), |i: int| card_of_code(codes[i] as int))
}

/// Every number is the number of a card.
pub open spec fn all_in_range(codes: Seq<u32>) -> bool {
    forall|i: int| 0 <= i < codes.len() ==> 1 <= #[trigger] codes[i] <= 52
}

/// Each group that `groups_down_to` lists has `n` cards.
pub proof fn lemma_group_sizes(h: Seq<Card>, n: nat, power: int)
    ensures
        forall|i: int|
            0 <= i < groups_down_to(h, n, power).len() ==> (#[trigger] groups_down_to(
                h,
                n,
                power,
            )[i]).len() == n,
    decreases 15 - power,
{
    if power <= 14 {
        lemma_group_sizes(h, n, power + 1);
        let rest = groups_down_to(h, n, power + 1);
        assert forall|i: int| 0 <= i < groups_down_to(h, n, power).len() implies (
        #[trigger] groups_down_to(h, n, power)[i]).len() == n by {
            if i < rest.len() {
                assert(groups_down_to(h, n, power)[i] == rest[i]);
            }
        }
    }
}

/// Each run that `runs_up_to` lists has five cards.
pub proof fn lemma_run_lengths(h: Seq<Card>, low: int)
    ensures
        forall|i: int|
            0 <= i < runs_up_to(h, low).len() ==> (#[trigger] runs_up_to(h, low)[i]).len() == 5,
    decreases low,
{
    if low >= 1 {
        lemma_run_lengths(h, low - 1);
        let rest = runs_up_to(h, low - 1);
        assert forall|i: int| 0 <= i < runs_up_to(h, low).len() implies (#[trigger] runs_up_to(
            h,
            low,
        )[i]).len() == 5 by {
            if i < rest.len() {
                assert(runs_up_to(h, low)[i] == rest[i]);
            }
        }
    }
}

/// Whether every number is the number of a card.
pub fn numbers_in_range<const N: usize>(codes: &[u32; N]) -> (r: bool)
    ensures
        r == all_in_range(codes@),
{
    let mut i: usize = 0;
    while i < N
        invariant
            i <= N,
            codes@.len() == N,
            forall|j: int| 0 <= j < i ==> 1 <= #[trigger] codes@[j] <= 52,
        decreases N - i,
    {
        if codes[i] < 1 || codes[i] > 52 {
            return false;
        }
        i = i + 1;
    }
    true
}

/// Whether no number occurs twice.
pub fn numbers_distinct<const N: usize>(codes: &[u32; N]) -> (r: bool)
    ensures
        r == codes@.no_duplicates(),
{
    let mut a: usize = 0;
    while a < N
        invariant
            a <= N,
            codes@.len() == N,
            forall|x: int, y: int| 0 <= x < a && x < y < N ==> codes@[x] != codes@[y],
        decreases N - a,
    {
        let mut b: usize = a + 1;
        while b < N
            invariant
                a < b <= N,
                codes@.len() == N,
                forall|y: int| a < y < b ==> codes@[a as int] != codes@[y],
            decreases N - b,
        {
            if codes[a] == codes[b] {
                assert(codes@[a as int] == codes@[b as int]);
                return false;
            }
            b = b + 1;
        }
        a = a + 1;
    }
    assert forall|x: int, y: int|
        0 <= x < codes@.len() && 0 <= y < codes@.len() && x != y implies codes@[x]
        != codes@[y] by {
        if x < y {
            assert(codes@[x] != codes@[y]);
        } else {
            assert(codes@[y] != codes@[x]);
        }
    }
    true
}

/// The cards from the last to the first.
pub fn reversed(cards: &Vec<Card>) -> (turned: Vec<Card>)
    ensures
        turned@ == top_first(cards@),
{
    let mut turned: Vec<Card> = Vec::new();
    let n: usize = cards.len();
    let mut k: usize = 0;
    while k < n
        invariant
            k <= n,
            n == cards@.len(),
            turned@.len() == k,
            forall|j: int| 0 <= j < k ==> #[trigger] turned@[j] == cards@[n - 1 - j],
        decreases n - k,
    {
        turned.push(cards[n - 1 - k]);
        k = k + 1;
    }
    assert(turned@ =~= top_first(cards@));
    turned
}

/// Whether the cards hold the run named `low`.
pub fn holds_run(low: u32, vec: &Vec<Card>) -> (r: bool)
    ensures
        r == has_run(vec@, low as int),
{
    if low < 1 || low > 10 {
        return false;
    }
    let top: u32 = if low == 10 {
        1
    } else {
        low + 4
    };
    first_of_rank(low, vec).is_some() && first_of_rank(low + 1, vec).is_some() && first_of_rank(
        low + 2,
        vec,
    ).is_some() && first_of_rank(low + 3, vec).is_some() && first_of_rank(top, vec).is_some()
}

/// The cards of the run named `low`, from its lowest card up.
pub fn run_from(low: u32, vec: &Vec<Card>) -> (run: Vec<Card>)
    requires
        has_run(vec@, low as int),
    ensures
        run@ == run_cards(vec@, low as int),
{
    let mut run: Vec<Card> = Vec::new();
    let mut k: u32 = 0;
    while k < 5
        invariant
            k <= 5,
            has_run(vec@, low as int),
            run@.len() == k,
            forall|j: int|
                0 <= j < k ==> #[trigger] run@[j] == of_rank(vec@, power_rank(low + j))[0],
        decreases 5 - k,
    {
        let place: u32 = low + k;
        let rank: u32 = if place == 14 {
            1
        } else {
            place
        };
        let found = first_of_rank(rank, vec);
        run.push(found.unwrap());
        k = k + 1;
    }
    assert(run@ =~= run_cards(vec@, low as int));
    run
}

/// For each rank of which `vec` holds exactly `n` cards, those cards; the
/// highest rank first, the ace above the king.
pub fn groups_of(n: usize, vec: &Vec<Card>, counts: &Vec<usize>) -> (output: Vec<Vec<Card>>)
    requires
        is_tally(counts@, vec@),
    ensures
        card_lists(output@) == groups(vec@, n as nat),
{
    let mut output: Vec<Vec<Card>> = Vec::new();
    let mut power: u32 = 14;
    assert(card_lists(output@) =~= groups_down_to(vec@, n as nat, 15));
    while power >= 2
        invariant
            1 <= power <= 14,
            is_tally(counts@, vec@),
            card_lists(output@) == groups_down_to(vec@, n as nat, power + 1),
        decreases power,
    {
        let rank: u32 = if power == 14 {
            1
        } else {
            power
        };
        assert(rank == power_rank(power as int));
        if counts[rank as usize] == n {
            let ghost before = output@;
            let group = cards_of_rank(rank, vec);
            output.push(group);
            assert(card_lists(output@) =~= card_lists(before).push(group@));
        }
        power = power - 1;
    }
    output
}

impl Hand {
    /// The hand holds seven cards with ranks in 1..=13, none twice.
    pub open spec fn well_formed(&self) -> bool {
        valid_hand(self.cards@)
    }

    /// A hand of the seven cards with the given numbers, not yet ranked. A
    /// number outside 1..=52 is refused, and so is a number that occurs
    /// twice.
    pub fn new(cards: [u32; 7]) -> (r: Result<Hand, HandError>)
        ensures
            !all_in_range(cards@) ==> r is Err && r->Err_0 == HandError::OutOfRangeCard,
            all_in_range(cards@) && !cards@.no_duplicates() ==> r is Err && r->Err_0
                == HandError::DuplicateCard,
            all_in_range(cards@) && cards@.no_duplicates() ==> r is Ok && r->Ok_0.cards@
                == decoded(cards@) && r->Ok_0.strength == HandLevel::Unranked
                && r->Ok_0.well_formed(),
    {
        if !numbers_in_range(&cards) {
            return Err(HandError::OutOfRangeCard);
        }
        if !numbers_distinct(&cards) {
            return Err(HandError::DuplicateCard);
        }
        let mut hand: Vec<Card> = Vec::new();
        let mut i: usize = 0;
        while i < 7
            invariant
                i <= 7,
                cards@.len() == 7,
                all_in_range(cards@),
                hand@.len() == i,
                forall|j: int|
                    0 <= j < i ==> #[trigger] hand@[j] == card_of_code(cards@[j] as int)
                        && hand@[j].well_formed() && hand@[j].code() == cards@[j],
            decreases 7 - i,
        {
            match Card::new(cards[i]) {
                Ok(card) => {
                    hand.push(card);
                },
                Err(e) => {
                    return Err(e);
                },
            }
            i = i + 1;
        }
        assert(hand@ =~= decoded(cards@));
        assert forall|x: int, y: int| 0 <= x < 7 && 0 <= y < 7 && x != y implies hand@[x]
            != hand@[y] by {
            assert(cards@[x] != cards@[y]);
            assert(hand@[x].code() != hand@[y].code());
        }
        Ok(Hand { cards: hand, strength: HandLevel::Unranked })
    }

    /// The cards of the hand by ascending rank, the ace lowest; cards of one
    /// rank stay in the order in which the hand holds them. The hand is
    /// left as it is.
    pub fn sort_cards(&self) -> (temp: Vec<Card>)
        ensures
            temp@ == sorted_cards(self.cards@),
            temp@.len() == self.cards@.len(),
            temp@.to_multiset() == self.cards@.to_multiset(),
            forall|i: int, j: int|
                0 <= i < j < temp@.len() ==> (#[trigger] temp@[i]).value <= (
                #[trigger] temp@[j]).value,
            forall|v: int| #[trigger] of_rank(temp@, v) == of_rank(self.cards@, v),
    {
        sort_by_rank(&self.cards)
    }

    /// How many cards of the hand have each rank: entry `v` counts the
    /// cards of rank `v`.
    pub fn create_map(&self) -> (dict: Vec<usize>)
        ensures
            is_tally(dict@, self.cards@),
    {
        count_ranks(&self.cards)
    }

    /// The cards of the suit of which `vec` holds five or more, in their
    /// order; no cards where no suit has five.
    pub fn return_flushes(&self, vec: &Vec<Card>) -> (output: Vec<Card>)
        ensures
            output@ == flush_cards(vec@),
    {
        let output = cards_of_suit(Suit::Clubs, vec);
        if output.len() >= 5 {
            return output;
        }
        let output = cards_of_suit(Suit::Diamonds, vec);
        if output.len() >= 5 {
            return output;
        }
        let output = cards_of_suit(Suit::Hearts, vec);
        if output.len() >= 5 {
            return output;
        }
        let output = cards_of_suit(Suit::Spades, vec);
        if output.len() >= 5 {
            return output;
        }
        Vec::new()
    }

    /// Every run of five ranks in a row that `vec` holds, from the wheel up
    /// to broadway, each from its lowest card up.
    pub fn return_straights(&self, vec: &Vec<Card>) -> (output: Vec<Vec<Card>>)
        ensures
            card_lists(output@) == all_runs(vec@),
    {
        let mut output: Vec<Vec<Card>> = Vec::new();
        let mut low: u32 = 1;
        assert(card_lists(output@) =~= runs_up_to(vec@, 0));
        while low <= 10
            invariant
                1 <= low <= 11,
                card_lists(output@) == runs_up_to(vec@, low - 1),
            decreases 11 - low,
        {
            if holds_run(low, vec) {
                let ghost before = output@;
                let run = run_from(low, vec);
                output.push(run);
                assert(card_lists(output@) =~= card_lists(before).push(run@));
            }
            low = low + 1;
        }
        output
    }

    /// The cards of rank `val`, in their order.
    pub fn return_samevalue(&self, val: u32, vec: &Vec<Card>) -> (output: Vec<Card>)
        ensures
            output@ == of_rank(vec@, val as int),
    {
        cards_of_rank(val, vec)
    }

    /// The four cards of the highest rank that `vec` holds four times; no
    /// cards where there is no such rank.
    pub fn return_fourkind(&self, vec: &Vec<Card>, hash: &Vec<usize>) -> (output: Vec<Card>)
        requires
            is_tally(hash@, vec@),
        ensures
            groups(vec@, 4).len() >= 1 ==> output@ == groups(vec@, 4)[0] && output@.len() == 4,
            groups(vec@, 4).len() == 0 ==> output@.len() == 0,
    {
        let fours = groups_of(4, vec, hash);
        proof {
            lemma_group_sizes(vec@, 4, 2);
        }
        if fours.len() >= 1 {
            assert(card_lists(fours@)[0] == fours@[0]@);
            copy_cards(&fours[0])
        } else {
            Vec::new()
        }
    }

    /// For each rank that `vec` holds three times, its three cards; the
    /// highest rank first.
    pub fn return_threekind(&self, vec: &Vec<Card>, hash: &Vec<usize>) -> (output: Vec<Vec<Card>>)
        requires
            is_tally(hash@, vec@),
        ensures
            card_lists(output@) == groups(vec@, 3),
    {
        groups_of(3, vec, hash)
    }

    /// For each rank that `vec` holds twice, its two cards; the highest
    /// rank first.
    pub fn return_twokind(&self, vec: &Vec<Card>, hash: &Vec<usize>) -> (output: Vec<Vec<Card>>)
        requires
            is_tally(hash@, vec@),
        ensures
            card_lists(output@) == groups(vec@, 2),
    {
        groups_of(2, vec, hash)
    }

    /// The strongest card, the ace above the king; the first of them where
    /// several are equally strong.
    pub fn return_highcard(&self, vec: &Vec<Card>) -> (card: Card)
        requires
            vec@.len() >= 1,
        ensures
            card == strongest(vec@),
            vec@.contains(card),
            forall|i: int|
                0 <= i < vec@.len() ==> rank_power((#[trigger] vec@[i]).value as int) <= rank_power(
                    card.value as int,
                ),
    {
        let mut ind: usize = 0;
        let mut i: usize = 1;
        assert(vec@.take(1).len() == 1);
        while i < vec.len()
            invariant
                1 <= i <= vec@.len(),
                ind < i,
                vec@[ind as int] == strongest(vec@.take(i as int)),
                forall|j: int|
                    0 <= j < i ==> rank_power((#[trigger] vec@[j]).value as int) <= rank_power(
                        vec@[ind as int].value as int,
                    ),
            decreases vec@.len() - i,
        {
            assert(vec@.take(i + 1).drop_last() =~= vec@.take(i as int));
            if vec[i].power() > vec[ind].power() {
                ind = i;
            }
            i = i + 1;
        }
        assert(vec@.take(i as int) =~= vec@);
        vec[ind]
    }

    /// Ranks the laid-out cards `vec`, records the level in the hand and
    /// returns the cards that realise it. The levels are tried from the
    /// royal flush down, and the first that `vec` reaches is taken.
    pub fn determine_strength(&mut self, vec: &Vec<Card>) -> (output: Vec<Card>)
        requires
            vec@.len() >= 1,
        ensures
            final(self).cards == old(self).cards,
            final(self).strength == rank_hand(vec@).level,
            output@ == rank_hand(vec@).cards,
    {
        let flushes: Vec<Card> = self.return_flushes(vec);
        let straightflushes: Vec<Vec<Card>> = self.return_straights(&flushes);
        let map: Vec<usize> = count_ranks(vec);
        let fourkinds: Vec<Card> = self.return_fourkind(vec, &map);
        let threekinds: Vec<Vec<Card>> = self.return_threekind(vec, &map);
        let twokinds: Vec<Vec<Card>> = self.return_twokind(vec, &map);
        let straights: Vec<Vec<Card>> = self.return_straights(vec);
        let ghost threes = groups(vec@, 3);
        let ghost twos = groups(vec@, 2);
        proof {
            lemma_group_sizes(vec@, 3, 2);
            lemma_group_sizes(vec@, 2, 2);
            assert(card_lists(straightflushes@).len() == straightflushes@.len());
            assert(card_lists(threekinds@).len() == threekinds@.len());
            assert(card_lists(twokinds@).len() == twokinds@.len());
            assert(card_lists(straights@).len() == straights@.len());
        }

        // A run within the flush suit: the highest, royal where it is the run
        // from the ten.
        if straightflushes.len() >= 1 {
            let highest: usize = straightflushes.len() - 1;
            assert(straightflushes@[highest as int]@ == card_lists(straightflushes@).last());
            let best = reversed(&straightflushes[highest]);
            if holds_run(10, &flushes) {
                self.strength = HandLevel::RoyalFlush;
            } else {
                self.strength = HandLevel::StraightFlush;
            }
            return best;
        }

        // Four cards of one rank.
        if fourkinds.len() >= 1 {
            self.strength = HandLevel::FourKind;
            return fourkinds;
        }

        // Three cards of one rank and two of another: the highest triple, and
        // the better of the highest pair and a second triple.
        if threekinds.len() >= 1 && (threekinds.len() >= 2 || twokinds.len() >= 1) {
            assert(threekinds@[0]@ == card_lists(threekinds@)[0]);
            let mut output = copy_cards(&threekinds[0]);
            let second_triple: bool = if threekinds.len() >= 2 {
                assert(threekinds@[1]@ == card_lists(threekinds@)[1]);
                if twokinds.len() == 0 {
                    true
                } else {
                    assert(twokinds@[0]@ == card_lists(twokinds@)[0]);
                    threekinds[1][0].power() > twokinds[0][0].power()
                }
            } else {
                false
            };
            if second_triple {
                output.push(threekinds[1][0]);
                output.push(threekinds[1][1]);
                assert(threes[1].take(2) =~= seq![threes[1][0], threes[1][1]]);
            } else {
                assert(twokinds@[0]@ == card_lists(twokinds@)[0]);
                output.push(twokinds[0][0]);
                output.push(twokinds[0][1]);
                assert(twos[0] =~= seq![twos[0][0], twos[0][1]]);
            }
            assert(output@ =~= threes[0] + full_house_pair(threes, twos));
            self.strength = HandLevel::FullHouse;
            return output;
        }

        // Five cards of one suit: the five strongest.
        if flushes.len() >= 1 {
            let n: usize = flushes.len();
            let mut output: Vec<Card> = Vec::new();
            if flushes[0].value == 1 {
                output.push(flushes[0]);
                output.push(flushes[n - 1]);
                output.push(flushes[n - 2]);
                output.push(flushes[n - 3]);
                output.push(flushes[n - 4]);
            } else {
                output.push(flushes[n - 1]);
                output.push(flushes[n - 2]);
                output.push(flushes[n - 3]);
                output.push(flushes[n - 4]);
                output.push(flushes[n - 5]);
            }
            assert(output@ =~= top_five(flushes@));
            self.strength = HandLevel::Flush;
            return output;
        }

        // Five ranks in a row: the highest run.
        if straights.len() >= 1 {
            let highest: usize = straights.len() - 1;
            assert(straights@[highest as int]@ == card_lists(straights@).last());
            let best = reversed(&straights[highest]);
            self.strength = HandLevel::Straight;
            return best;
        }

        // Three cards of one rank.
        if threekinds.len() >= 1 {
            assert(threekinds@[0]@ == card_lists(threekinds@)[0]);
            self.strength = HandLevel::ThreeKind;
            return copy_cards(&threekinds[0]);
        }

        // Two pairs: the two highest, the higher first.
        if twokinds.len() >= 2 {
            assert(twokinds@[0]@ == card_lists(twokinds@)[0]);
            assert(twokinds@[1]@ == card_lists(twokinds@)[1]);
            let mut output = copy_cards(&twokinds[0]);
            output.push(twokinds[1][0]);
            output.push(twokinds[1][1]);
            assert(output@ =~= twos[0] + twos[1]);
            self.strength = HandLevel::TwoPair;
            return output;
        }

        // One pair.
        if twokinds.len() >= 1 {
            assert(twokinds@[0]@ == card_lists(twokinds@)[0]);
            self.strength = HandLevel::Pair;
            return copy_cards(&twokinds[0]);
        }

        // Nothing else: the strongest card.
        let mut output: Vec<Card> = Vec::new();
        output.push(self.return_highcard(vec));
        assert(output@ =~= seq![strongest(vec@)]);
        self.strength = HandLevel::HighCard;
        output
    }

    /// The strength of the level that the hand was found to reach: 10 for a
    /// royal flush down to 1 for a high card, 0 before it was ranked.
    pub fn hand_strength(&self) -> (r: u32)
        ensures
            r == self.strength.strength(),
    {
        self.strength.rating()
    }
}

} // verus!
