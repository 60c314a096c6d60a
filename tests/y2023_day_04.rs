use std::collections::VecDeque;

use aoc::y2023_day_04::{
    calculate_winning_points, count_matching_numbers, get_copy_list, parsing_card,
    parsing_card_number, parsing_numbers, validate_card_winning, Day04,
};

const TEST_INPUT: &str = "Card 1: 41 48 83 86 17 | 83 86  6 31 17  9 48 53
Card 2: 13 32 20 16 61 | 61 30 68 82 17 32 24 19
Card 3:  1 21 53 59 44 | 69 82 63 72 16 21 14  1
Card 4: 41 92 73 84 69 | 59 84 76 51 58  5 54 83
Card 5: 87 83 26 28 32 | 88 30 70 12 93 22 82 36
Card 6: 31 18 13 56 72 | 74 77 10 23 35 67 36 11";

#[test]
fn test_card_number() {
    let input = "Card 1: 41 48 83 86 17 | 83 86  6 31 17  9 48 53";
    let (card_number, remain_input) = parsing_card_number(input).unwrap();
    assert_eq!(card_number, 1);
    let remain: String = remain_input.iter().collect();
    assert_eq!(remain, "41 48 83 86 17 | 83 86  6 31 17  9 48 53");
}

#[test]
fn card_number_refuses_other_lines() {
    assert!(parsing_card_number("Card 1 41 48").is_none());
    assert!(parsing_card_number("Game 1: 41 48").is_none());
    assert_eq!(parsing_card_number("Card  12: 5").unwrap().0, 12);
}

#[test]
fn test_parsing_numbers() {
    let result = parsing_numbers("41 48 83 86 17");
    assert_eq!(result.len(), 5);
    assert_eq!(result, vec![41, 48, 83, 86, 17]);

    let result = parsing_numbers("83 86  6 31 17  9 48 53");
    assert_eq!(result.len(), 8);
    assert_eq!(result, vec![83, 86, 6, 31, 17, 9, 48, 53]);
}

#[test]
fn test_validating_winning_card() {
    let input = "Card 1: 41 48 83 86 17 | 83 86  6 31 17  9 48 53";
    let (_card_number, winning_numbers, numbers) = parsing_card(input).unwrap();
    let points = validate_card_winning(&winning_numbers, &numbers);
    assert_eq!(points, 8);
}

#[test]
fn winning_points_double() {
    assert_eq!(calculate_winning_points(0), 0);
    assert_eq!(calculate_winning_points(1), 1);
    assert_eq!(calculate_winning_points(4), 8);
    assert_eq!(calculate_winning_points(128), 1u128 << 127);
    assert_eq!(count_matching_numbers(&vec![1, 2, 3], &vec![3, 3, 4, 1]), 3);
}

#[test]
fn test_get_copy_card_numbers() {
    let input = "Card 1: 41 48 83 86 17 | 83 86  6 31 17  9 48 53";
    let (card_number, winning_numbers, numbers) = parsing_card(input).unwrap();
    let result = get_copy_list(card_number, 6, &winning_numbers, &numbers);
    assert!(result.is_some());
    assert_eq!(result, Some(VecDeque::from([2, 3, 4, 5])));

    let result = get_copy_list(card_number, 3, &winning_numbers, &numbers);
    assert!(result.is_some());
    assert_eq!(result, Some(VecDeque::from([2, 3])));

    assert_eq!(get_copy_list(5, 6, &vec![1], &vec![2]), None);
}

#[test]
fn day_04_test_part_1() {
    let lines: Vec<&str> = TEST_INPUT.lines().collect();
    assert_eq!(Day04::part_01(&lines), Some(13));
}

#[test]
fn day_04_test_part_2() {
    let lines: Vec<&str> = TEST_INPUT.lines().collect();
    assert_eq!(Day04::part_02(&lines), Some(30));
}

#[test]
fn part_2_needs_cards_in_order() {
    let lines = vec!["Card 2: 1 | 1", "Card 1: 1 | 2"];
    assert_eq!(Day04::part_02(&lines), None);
}

#[test]
fn day_04_run() {
    let (label, one, two, _, _) = Day04::run(TEST_INPUT).unwrap();
    assert_eq!(label, "Day_04");
    assert_eq!(one, "13");
    assert_eq!(two, "30");
    assert!(Day04::run("Card 1 no colon").is_none());
}
