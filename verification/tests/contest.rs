use poker_hands::deal::hands_of;
use poker_hands::{cards_tostring, compare, deal, evaluate, Card, EvaluatedHand, HandError, HandLevel, Winner};

fn ranked(codes: [u32; 7]) -> EvaluatedHand {
    let cards: Vec<Card> = codes.iter().map(|n| Card::new(*n).unwrap()).collect();
    evaluate(&cards).unwrap()
}

fn held(level: HandLevel, codes: &[u32]) -> EvaluatedHand {
    EvaluatedHand { level, cards: codes.iter().map(|n| Card::new(*n).unwrap()).collect() }
}

fn strings(tokens: &[&str]) -> Vec<String> {
    tokens.iter().map(|t| t.to_string()).collect()
}

#[test]
fn king_high_flush_beats_queen_high_flush() {
    // hearts topped by the king against spades topped by the queen
    let kings = held(HandLevel::Flush, &[39, 37, 35, 33, 31]);
    let queens = held(HandLevel::Flush, &[51, 50, 48, 46, 44]);
    assert_eq!(compare(&kings, &queens), Winner::First);
    assert_eq!(compare(&queens, &kings), Winner::Second);
}

#[test]
fn evaluated_flushes_compare_by_their_top_card() {
    let kings = ranked([39, 37, 35, 33, 31, 2, 3]);
    let queens = ranked([51, 50, 48, 46, 43, 2, 3]);
    assert_eq!(kings.level, HandLevel::Flush);
    assert_eq!(queens.level, HandLevel::Flush);
    assert_eq!(compare(&kings, &queens), Winner::First);
}

#[test]
fn identical_realising_cards_tie() {
    let one = held(HandLevel::Straight, &[8, 20, 32, 44, 4]);
    let other = held(HandLevel::Straight, &[8, 20, 32, 44, 4]);
    assert_eq!(compare(&one, &other), Winner::Tie);
    assert_eq!(compare(&one, &one), Winner::Tie);
}

#[test]
fn equal_ranks_in_other_suits_tie() {
    let one = held(HandLevel::Pair, &[9, 22]);
    let other = held(HandLevel::Pair, &[35, 48]);
    assert_eq!(compare(&one, &other), Winner::Tie);
}

#[test]
fn a_stronger_level_wins_whatever_the_cards() {
    let pair_of_twos = held(HandLevel::Pair, &[2, 15]);
    let ace_high = held(HandLevel::HighCard, &[1]);
    assert_eq!(compare(&pair_of_twos, &ace_high), Winner::First);
    assert_eq!(compare(&ace_high, &pair_of_twos), Winner::Second);
    let levels = [
        HandLevel::Unranked,
        HandLevel::HighCard,
        HandLevel::Pair,
        HandLevel::TwoPair,
        HandLevel::ThreeKind,
        HandLevel::Straight,
        HandLevel::Flush,
        HandLevel::FullHouse,
        HandLevel::FourKind,
        HandLevel::StraightFlush,
        HandLevel::RoyalFlush,
    ];
    for weaker in 0..levels.len() {
        for stronger in (weaker + 1)..levels.len() {
            let low = held(levels[weaker], &[1, 14, 27, 40, 13]);
            let high = held(levels[stronger], &[2, 3, 4, 5, 7]);
            assert_eq!(compare(&high, &low), Winner::First);
            assert_eq!(compare(&low, &high), Winner::Second);
        }
    }
}

#[test]
fn the_first_place_that_differs_decides() {
    let one = held(HandLevel::Flush, &[13, 11, 9, 7, 3]);
    let other = held(HandLevel::Flush, &[26, 24, 22, 20, 15]);
    assert_eq!(compare(&one, &other), Winner::First);
    assert_eq!(compare(&other, &one), Winner::Second);
    let third = held(HandLevel::Flush, &[26, 25, 15, 16, 17]);
    assert_eq!(compare(&one, &third), Winner::Second);
}

#[test]
fn the_ace_outranks_the_king_in_a_comparison() {
    let aces = held(HandLevel::Pair, &[1, 14]);
    let kings = held(HandLevel::Pair, &[13, 26]);
    assert_eq!(compare(&aces, &kings), Winner::First);
    let ace = held(HandLevel::HighCard, &[27]);
    let king = held(HandLevel::HighCard, &[52]);
    assert_eq!(compare(&king, &ace), Winner::Second);
}

#[test]
fn a_full_house_is_compared_by_its_triple_first() {
    let nines_over_twos = held(HandLevel::FullHouse, &[9, 22, 35, 2, 15]);
    let eights_over_aces = held(HandLevel::FullHouse, &[8, 21, 34, 1, 14]);
    assert_eq!(compare(&nines_over_twos, &eights_over_aces), Winner::First);
}

#[test]
fn the_wheel_loses_to_a_six_high_straight() {
    let wheel = ranked([1, 15, 29, 43, 5, 22, 39]);
    let six_high = ranked([2, 16, 30, 44, 6, 18, 39]);
    assert_eq!(wheel.level, HandLevel::Straight);
    assert_eq!(six_high.level, HandLevel::Straight);
    assert_eq!(compare(&wheel, &six_high), Winner::Second);
}

#[test]
fn hands_without_cards_tie_at_equal_level() {
    let one = held(HandLevel::Unranked, &[]);
    let other = held(HandLevel::Unranked, &[]);
    assert_eq!(compare(&one, &other), Winner::Tie);
    let short = held(HandLevel::Pair, &[9]);
    let long = held(HandLevel::Pair, &[22, 35]);
    assert_eq!(compare(&short, &long), Winner::Tie);
}

#[test]
fn deal_of_the_first_nine_cards() {
    // first: AC 3C and 5C..9C; second: 2C 4C and 5C..9C
    let outcome = deal([1, 2, 3, 4, 5, 6, 7, 8, 9]).unwrap();
    assert_eq!(outcome.first.level, HandLevel::StraightFlush);
    assert_eq!(outcome.second.level, HandLevel::StraightFlush);
    assert_eq!(cards_tostring(outcome.first.cards.clone()), strings(&["9C", "8C", "7C", "6C", "5C"]));
    assert_eq!(cards_tostring(outcome.second.cards.clone()), strings(&["9C", "8C", "7C", "6C", "5C"]));
    assert_eq!(outcome.winner, Winner::Tie);
}

#[test]
fn deal_assigns_the_private_cards_in_turn() {
    // first holds 9C 9D, second holds 2H 7S; the board is KC 4D 5H 8S 10C
    let outcome = deal([9, 28, 22, 46, 13, 17, 31, 47, 10]).unwrap();
    assert_eq!(outcome.first.level, HandLevel::Pair);
    assert_eq!(cards_tostring(outcome.first.cards.clone()), strings(&["9C", "9D"]));
    assert_eq!(outcome.second.level, HandLevel::HighCard);
    assert_eq!(cards_tostring(outcome.second.cards.clone()), strings(&["13C"]));
    assert_eq!(outcome.winner, Winner::First);
}

#[test]
fn deal_can_go_to_the_second_player() {
    let outcome = deal([28, 9, 46, 22, 13, 17, 31, 47, 10]).unwrap();
    assert_eq!(outcome.winner, Winner::Second);
    assert_eq!(outcome.second.level, HandLevel::Pair);
}

#[test]
fn a_board_that_is_the_best_hand_of_both_ties() {
    // the board is the royal flush of spades
    let outcome = deal([1, 2, 14, 15, 40, 52, 51, 50, 49]).unwrap();
    assert_eq!(outcome.first.level, HandLevel::RoyalFlush);
    assert_eq!(outcome.second.level, HandLevel::RoyalFlush);
    assert_eq!(outcome.winner, Winner::Tie);
}

#[test]
fn deal_refuses_a_number_out_of_range() {
    assert_eq!(deal([1, 2, 3, 4, 5, 6, 7, 8, 0]).err(), Some(HandError::OutOfRangeCard));
    assert_eq!(deal([53, 2, 3, 4, 5, 6, 7, 8, 9]).err(), Some(HandError::OutOfRangeCard));
    assert_eq!(deal([53, 2, 2, 4, 5, 6, 7, 8, 9]).err(), Some(HandError::OutOfRangeCard));
}

#[test]
fn deal_refuses_a_card_twice() {
    assert_eq!(deal([1, 2, 3, 4, 5, 6, 7, 8, 8]).err(), Some(HandError::DuplicateCard));
    // the same private card for both players
    assert_eq!(deal([1, 1, 3, 4, 5, 6, 7, 8, 9]).err(), Some(HandError::DuplicateCard));
}

#[test]
fn hands_of_deals_the_private_cards_in_turn() {
    let (one, two) = hands_of([11, 12, 13, 14, 15, 16, 17, 18, 19]);
    assert_eq!(one, [11, 13, 15, 16, 17, 18, 19]);
    assert_eq!(two, [12, 14, 15, 16, 17, 18, 19]);
}

#[test]
fn winning_cards_are_those_of_the_winner() {
    let outcome = deal([9, 28, 22, 46, 13, 17, 31, 47, 10]).unwrap();
    assert_eq!(outcome.winner, Winner::First);
    assert_eq!(cards_tostring(outcome.winning_cards().unwrap()), strings(&["9C", "9D"]));
    let outcome = deal([28, 9, 46, 22, 13, 17, 31, 47, 10]).unwrap();
    assert_eq!(outcome.winner, Winner::Second);
    assert_eq!(cards_tostring(outcome.winning_cards().unwrap()), strings(&["9C", "9D"]));
}

#[test]
fn a_tie_has_no_winning_cards() {
    let outcome = deal([1, 2, 14, 15, 40, 52, 51, 50, 49]).unwrap();
    assert_eq!(outcome.winner, Winner::Tie);
    assert!(outcome.winning_cards().is_none());
}
