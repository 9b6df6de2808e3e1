use poker_hands::{cards_tostring, Card, Hand, HandError, HandLevel, Suit};
use std::cmp::Ordering;

#[test]
fn decodes_the_four_blocks() {
    let ace_of_clubs = Card::new(1).unwrap();
    assert_eq!(ace_of_clubs.value, 1);
    assert_eq!(ace_of_clubs.suit, Suit::Clubs);
    let king_of_clubs = Card::new(13).unwrap();
    assert_eq!(king_of_clubs.value, 13);
    assert_eq!(king_of_clubs.suit, Suit::Clubs);
    let ace_of_diamonds = Card::new(14).unwrap();
    assert_eq!(ace_of_diamonds.value, 1);
    assert_eq!(ace_of_diamonds.suit, Suit::Diamonds);
    let king_of_diamonds = Card::new(26).unwrap();
    assert_eq!(king_of_diamonds.value, 13);
    assert_eq!(king_of_diamonds.suit, Suit::Diamonds);
    let ace_of_hearts = Card::new(27).unwrap();
    assert_eq!(ace_of_hearts.value, 1);
    assert_eq!(ace_of_hearts.suit, Suit::Hearts);
    let king_of_hearts = Card::new(39).unwrap();
    assert_eq!(king_of_hearts.value, 13);
    assert_eq!(king_of_hearts.suit, Suit::Hearts);
    let ace_of_spades = Card::new(40).unwrap();
    assert_eq!(ace_of_spades.value, 1);
    assert_eq!(ace_of_spades.suit, Suit::Spades);
    let king_of_spades = Card::new(52).unwrap();
    assert_eq!(king_of_spades.value, 13);
    assert_eq!(king_of_spades.suit, Suit::Spades);
}

#[test]
fn refuses_numbers_out_of_range() {
    assert_eq!(Card::new(0).err(), Some(HandError::OutOfRangeCard));
    assert_eq!(Card::new(53).err(), Some(HandError::OutOfRangeCard));
    assert_eq!(Card::new(u32::MAX).err(), Some(HandError::OutOfRangeCard));
}

#[test]
fn number_undoes_decoding() {
    for n in 1..=52u32 {
        let card = Card::new(n).unwrap();
        assert!(1 <= card.value && card.value <= 13);
        assert_eq!(card.number(), n);
    }
}

#[test]
fn the_ace_counts_fourteen() {
    assert_eq!(Card::new(1).unwrap().power(), 14);
    assert_eq!(Card::new(2).unwrap().power(), 2);
    assert_eq!(Card::new(13).unwrap().power(), 13);
    assert_eq!(Card::new(40).unwrap().power(), 14);
}

#[test]
fn cards_are_equal_by_rank_alone() {
    let seven_of_clubs = Card::new(7).unwrap();
    let seven_of_spades = Card::new(46).unwrap();
    let eight_of_clubs = Card::new(8).unwrap();
    assert!(seven_of_clubs == seven_of_spades);
    assert!(seven_of_clubs != eight_of_clubs);
    assert!(!seven_of_clubs.same_card(&seven_of_spades));
    assert!(seven_of_clubs.same_card(&Card::new(7).unwrap()));
}

#[test]
fn cards_are_ordered_by_rank_alone() {
    let ace = Card::new(1).unwrap();
    let two_of_spades = Card::new(41).unwrap();
    let two_of_clubs = Card::new(2).unwrap();
    assert_eq!(ace.cmp(&two_of_spades), Ordering::Less);
    assert_eq!(two_of_spades.cmp(&ace), Ordering::Greater);
    assert_eq!(two_of_spades.cmp(&two_of_clubs), Ordering::Equal);
    assert_eq!(ace.partial_cmp(&two_of_spades), Some(Ordering::Less));
    assert_eq!(two_of_spades.partial_cmp(&two_of_clubs), Some(Ordering::Equal));
    assert!(ace < two_of_clubs);
    assert!(two_of_clubs > ace);
    assert!(two_of_clubs <= two_of_spades);
}

#[test]
fn card_text_is_rank_then_suit_letter() {
    assert_eq!(Card::new(49).unwrap().convert_string(), "10S");
    assert_eq!(Card::new(27).unwrap().convert_string(), "1H");
    assert_eq!(Card::new(13).unwrap().convert_string(), "13C");
    assert_eq!(Card::new(22).unwrap().convert_string(), "9D");
}

#[test]
fn card_text_of_any_rank_is_decimal() {
    assert_eq!(Card { value: 0, suit: Suit::Clubs }.convert_string(), "0C");
    assert_eq!(Card { value: 4294967295, suit: Suit::Hearts }.convert_string(), "4294967295H");
    assert_eq!(Card { value: 1000, suit: Suit::Diamonds }.convert_string(), "1000D");
    assert_eq!(poker_hands::text::decimal_string(907), "907");
}

#[test]
fn cards_tostring_keeps_the_order() {
    let cards = vec![Card::new(40).unwrap(), Card::new(2).unwrap(), Card::new(36).unwrap()];
    assert_eq!(cards_tostring(cards), vec!["1S".to_string(), "2C".to_string(), "10H".to_string()]);
    assert_eq!(cards_tostring(Vec::new()), Vec::<String>::new());
}

#[test]
fn strengths_run_from_ten_to_nought() {
    assert_eq!(HandLevel::RoyalFlush.rating(), 10);
    assert_eq!(HandLevel::StraightFlush.rating(), 9);
    assert_eq!(HandLevel::FourKind.rating(), 8);
    assert_eq!(HandLevel::FullHouse.rating(), 7);
    assert_eq!(HandLevel::Flush.rating(), 6);
    assert_eq!(HandLevel::Straight.rating(), 5);
    assert_eq!(HandLevel::ThreeKind.rating(), 4);
    assert_eq!(HandLevel::TwoPair.rating(), 3);
    assert_eq!(HandLevel::Pair.rating(), 2);
    assert_eq!(HandLevel::HighCard.rating(), 1);
    assert_eq!(HandLevel::Unranked.rating(), 0);
}

#[test]
fn a_new_hand_is_unranked() {
    let hand = Hand::new([1, 2, 3, 4, 5, 6, 7]).unwrap();
    assert_eq!(hand.strength, HandLevel::Unranked);
    assert_eq!(hand.hand_strength(), 0);
    assert_eq!(hand.cards.len(), 7);
    let numbers: Vec<u32> = hand.cards.iter().map(|c| c.number()).collect();
    assert_eq!(numbers, vec![1, 2, 3, 4, 5, 6, 7]);
}

#[test]
fn a_hand_refuses_a_number_out_of_range() {
    assert_eq!(Hand::new([1, 2, 3, 4, 5, 6, 53]).err(), Some(HandError::OutOfRangeCard));
    assert_eq!(Hand::new([0, 2, 3, 4, 5, 6, 7]).err(), Some(HandError::OutOfRangeCard));
    assert_eq!(Hand::new([0, 0, 3, 4, 5, 6, 7]).err(), Some(HandError::OutOfRangeCard));
}

#[test]
fn a_hand_refuses_a_card_twice() {
    assert_eq!(Hand::new([1, 2, 3, 4, 5, 6, 1]).err(), Some(HandError::DuplicateCard));
    assert_eq!(Hand::new([9, 9, 3, 4, 5, 6, 7]).err(), Some(HandError::DuplicateCard));
}

#[test]
fn levels_are_ordered_by_strength() {
    assert!(HandLevel::RoyalFlush > HandLevel::StraightFlush);
    assert!(HandLevel::StraightFlush > HandLevel::FourKind);
    assert!(HandLevel::FourKind > HandLevel::FullHouse);
    assert!(HandLevel::FullHouse > HandLevel::Flush);
    assert!(HandLevel::Flush > HandLevel::Straight);
    assert!(HandLevel::Straight > HandLevel::ThreeKind);
    assert!(HandLevel::ThreeKind > HandLevel::TwoPair);
    assert!(HandLevel::TwoPair > HandLevel::Pair);
    assert!(HandLevel::Pair > HandLevel::HighCard);
    assert!(HandLevel::HighCard > HandLevel::Unranked);
    assert_eq!(HandLevel::Pair.partial_cmp(&HandLevel::Pair), Some(Ordering::Equal));
    assert_eq!(HandLevel::Pair.partial_cmp(&HandLevel::Flush), Some(Ordering::Less));
}

#[test]
fn hands_are_equal_by_their_cards_and_level() {
    let one = Hand::new([1, 2, 3, 4, 5, 6, 7]).unwrap();
    let same = Hand::new([1, 2, 3, 4, 5, 6, 7]).unwrap();
    let other = Hand::new([1, 2, 3, 4, 5, 6, 8]).unwrap();
    assert!(one == same);
    assert!(one != other);
    let mut ranked = one.clone();
    let layout = ranked.sort_cards();
    ranked.determine_strength(&layout);
    assert!(ranked != one);
}
