use aoc::y2015_day_01::{parsing, processing, Day01, Direction};

const TEST_INPUT: &str = "))(((((";

#[test]
fn lisp_part_1() {
    let lines: Vec<&str> = TEST_INPUT.lines().collect();
    assert_eq!(Day01::part_01(&lines), 3);
}

#[test]
fn lisp_part_2() {
    let lines: Vec<&str> = "()())".lines().collect();
    assert_eq!(Day01::part_02(&lines), Some(5));
}

#[test]
fn moves_and_basement() {
    let (up, down, moves) = parsing(&vec!["(x))"]);
    assert_eq!((up, down), (1, 2));
    assert_eq!(moves, vec![Direction::UP, Direction::DOWN, Direction::DOWN]);
    assert_eq!(processing(&moves), Some(3));
    assert_eq!(processing(&vec![Direction::UP]), None);
}

#[test]
fn lisp_run() {
    let (label, one, two, _, _) = Day01::run("()())\n").unwrap();
    assert_eq!((label.as_str(), one.as_str(), two.as_str()), ("Day_01", "-1", "5"));
    assert!(Day01::run("((").is_none());
}
