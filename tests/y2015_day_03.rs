use aoc::y2015_day_03::{delivery, parsing, Day03, Direction};

const TEST_INPUT: &str = "^>v<";

#[test]
fn houses_part_1() {
    let lines: Vec<&str> = TEST_INPUT.lines().collect();
    assert_eq!(Day03::part_01(&lines), 4);
    assert_eq!(Day03::part_01(&vec![">"]), 2);
    assert_eq!(Day03::part_01(&vec!["^v^v^v^v^v"]), 2);
}

#[test]
fn houses_part_2() {
    let lines: Vec<&str> = TEST_INPUT.lines().collect();
    assert_eq!(Day03::part_02(&lines), 3);
    assert_eq!(Day03::part_02(&vec!["^v^v^v^v^v"]), 11);
}

#[test]
fn visits_counted() {
    let moves = parsing(&vec!["^v?"]);
    assert_eq!(moves, vec![Direction::Up, Direction::Down, Direction::Stay]);
    let (count, table) = delivery(&moves);
    assert_eq!(count, 2);
    assert_eq!(table, vec![((0, 0), 3), ((0, -1), 1)]);
}

#[test]
fn houses_run() {
    let (label, one, two, _, _) = Day03::run(TEST_INPUT).unwrap();
    assert_eq!((label.as_str(), one.as_str(), two.as_str()), ("Day_03", "4", "3"));
    assert!(Day03::run("").is_none());
}
