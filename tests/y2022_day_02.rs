use aoc::y2022_day_02::{Day02, RPS};

const TEST_INPUT: &str = "A Y
B X
C Z";

#[test]
fn day_02_strategy_part_1() {
    let lines: Vec<&str> = TEST_INPUT.lines().collect();
    assert_eq!(Day02::part_01(&lines), Some(15));
}

#[test]
fn day_02_strategy_part_2() {
    let lines: Vec<&str> = TEST_INPUT.lines().collect();
    assert_eq!(Day02::part_02(&lines), Some(12));
}

#[test]
fn shapes_and_outcomes() {
    assert_eq!(Day02::convert_input(&vec!['B']), RPS::Paper);
    assert_eq!(Day02::convert_input(&vec!['Q']), RPS::Scissor);
    assert_eq!(Day02::convert_expected(&vec!['X']), -1);
    assert_eq!(Day02::choose_shape(&RPS::Rock, 1), RPS::Paper);
    assert_eq!(Day02::choose_shape(&RPS::Rock, -1), RPS::Scissor);
    assert_eq!(Day02::comparing(&RPS::Rock, &RPS::Scissor), 6);
    assert_eq!(Day02::command_score(&RPS::Scissor), 3);
    assert_eq!(Day02::part_01(&vec!["A"]), None);
}

#[test]
fn strategy_run() {
    let (label, one, two, _, _) = Day02::run(TEST_INPUT).unwrap();
    assert_eq!((label.as_str(), one.as_str(), two.as_str()), ("Day_02", "15", "12"));
}
