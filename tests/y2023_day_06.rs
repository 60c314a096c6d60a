use aoc::y2023_day_06::{find_win_solutions, parsing_input, parsing_input_2, parsing_values, Day06};

const TEST_INPUT: &str = "Time:      7  15   30
Distance:  9  40  200";

#[test]
fn day_06_test_parsing_input() {
    let lines: Vec<&str> = TEST_INPUT.lines().collect();
    let (times, distances) = parsing_input(&lines);
    assert_eq!(times, vec![7, 15, 30]);
    assert_eq!(distances, vec![9, 40, 200]);
}

#[test]
fn test_find_win_solutions() {
    assert_eq!(find_win_solutions(7, 9), 4);
    assert_eq!(find_win_solutions(15, 40), 8);
    assert_eq!(find_win_solutions(30, 200), 9);
    assert_eq!(find_win_solutions(0, 0), 0);
}

#[test]
fn test_parsing_input_2() {
    let lines: Vec<&str> = TEST_INPUT.lines().collect();
    let (times, distances) = parsing_input_2(&lines).unwrap();
    assert_eq!(times, 71530);
    assert_eq!(distances, 940200);
}

#[test]
fn values_after_prefix() {
    assert_eq!(parsing_values("Time: 1 Time: 2", "Time: "), vec![1, 2]);
    assert_eq!(parsing_values("x 12 y", "q"), vec![12]);
}

#[test]
fn day_06_test_part_1() {
    let lines: Vec<&str> = TEST_INPUT.lines().collect();
    assert_eq!(Day06::part_01(&lines), Some(288));
}

#[test]
fn day_06_test_part_2() {
    let lines: Vec<&str> = TEST_INPUT.lines().collect();
    assert_eq!(Day06::part_02(&lines), Some(71503));
}

#[test]
fn races_run() {
    let (label, one, two, _, _) = Day06::run(TEST_INPUT).unwrap();
    assert_eq!((label.as_str(), one.as_str(), two.as_str()), ("Day_06", "288", "71503"));
}
