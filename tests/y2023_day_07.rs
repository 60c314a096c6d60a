use std::cmp::Ordering;

use aoc::y2023_day_07::{
    cards_compare, get_card_value, get_card_value_with_joker, parse_cards,
    parse_cards_with_joker, parse_input, total_winnings, Day07, Hand, HandType,
};

const TEST_INPUT: &str = "32T3K 765
T55J5 684
KK677 28
KTJJT 220
QQQJA 483";

#[test]
fn test_hand_type_from_card() {
    let cards = ["AAAAA", "AA8AA", "23332", "TTT98", "23432", "A23A4", "23456"];
    let expected_results = [
        HandType::FiveOfKind,
        HandType::FourOfKind,
        HandType::FullHouse,
        HandType::ThreeOfKind,
        HandType::TwoPairs,
        HandType::OnePairs,
        HandType::HighCard,
    ];
    for index in 0..cards.len() {
        let input = parse_cards(cards[index]);
        assert_eq!(expected_results[index], HandType::from_cards(&input));
    }
}

#[test]
fn test_hand_type_from_card_with_j() {
    let cards = ["32T3K", "T55J5", "KK677", "KTJJT", "QQQJA", "JJJJJ"];
    let expected_results = [
        HandType::OnePairs,
        HandType::FourOfKind,
        HandType::TwoPairs,
        HandType::FourOfKind,
        HandType::FourOfKind,
        HandType::FiveOfKind,
    ];
    for index in 0..cards.len() {
        let input = parse_cards_with_joker(cards[index]);
        assert_eq!(expected_results[index], HandType::from_cards(&input));
    }
}

#[test]
fn test_compare_hand_type() {
    assert!(HandType::FiveOfKind > HandType::FourOfKind);
    assert!(HandType::FiveOfKind > HandType::HighCard);
    assert!(!(HandType::HighCard > HandType::FiveOfKind));

    let weak_hand = Hand::new(parse_cards("T55J5"), 0);
    let strong_hand = Hand::new(parse_cards("QQQJA"), 0);

    assert_eq!(weak_hand.partial_cmp(&strong_hand).unwrap(), Ordering::Less);
    assert_eq!(weak_hand.partial_cmp(&weak_hand.clone()).unwrap(), Ordering::Equal);
    assert_eq!(strong_hand.partial_cmp(&weak_hand).unwrap(), Ordering::Greater);
    assert_eq!(weak_hand.compare(&strong_hand), -1);
    assert_eq!(weak_hand.compare(&weak_hand.clone()), 0);
    assert_eq!(strong_hand.compare(&weak_hand), 1);
    let rich = Hand::new(parse_cards("T55J5"), 1000);
    assert_eq!(rich.compare(&weak_hand), 0);
}

#[test]
fn test_sort_hands() {
    let middle_hand = Hand::new(parse_cards("T55J5"), 0);
    let weak_hand = Hand::new(parse_cards("KK677"), 0);
    let strong_hand = Hand::new(parse_cards("QQQJA"), 0);

    let mut list = vec![strong_hand.clone(), weak_hand.clone(), middle_hand.clone()];
    list.sort();
    assert_eq!(list[0], weak_hand);
    assert_eq!(list[1], middle_hand);
    assert_eq!(list[2], strong_hand);
}

#[test]
fn card_values() {
    assert_eq!(get_card_value('J'), 11);
    assert_eq!(get_card_value_with_joker('J'), 0);
    assert_eq!(get_card_value('7'), 7);
    assert_eq!(get_card_value('x'), 0);
    assert_eq!(cards_compare(&vec![13, 13, 6], &vec![13, 10, 11]), 1);
    assert_eq!(cards_compare(&vec![2, 3], &vec![2, 3]), 0);
}

#[test]
fn equal_hands_rank_in_input_order() {
    let hands = vec![Hand::new(parse_cards("22345"), 10), Hand::new(parse_cards("22345"), 1)];
    assert_eq!(total_winnings(&hands), Some(10 + 2));
    assert!(parse_input(&vec!["32T3K"]).is_none());
}

#[test]
fn day_07_test_part_1() {
    let lines: Vec<&str> = TEST_INPUT.lines().collect();
    assert_eq!(Day07::part_01(&lines), Some(6440));
}

#[test]
fn day_07_test_part_2() {
    let lines: Vec<&str> = TEST_INPUT.lines().collect();
    assert_eq!(Day07::part_02(&lines), Some(5905));
}

#[test]
fn day_07_run() {
    let (label, one, two, _, _) = Day07::run(TEST_INPUT).unwrap();
    assert_eq!(label, "Day_07");
    assert_eq!(one, "6440");
    assert_eq!(two, "5905");
}
