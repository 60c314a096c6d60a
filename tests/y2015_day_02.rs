use aoc::y2015_day_02::{parsing, ribbon_length, surface_area, Day02};

const TEST_INPUT: &str = "2x3x4";

#[test]
fn boxes_part_1() {
    let lines: Vec<&str> = TEST_INPUT.lines().collect();
    assert_eq!(Day02::part_01(&lines), Some(58));
}

#[test]
fn boxes_part_2() {
    let lines: Vec<&str> = TEST_INPUT.lines().collect();
    assert_eq!(Day02::part_02(&lines), Some(34));
}

#[test]
fn paper_and_ribbon() {
    assert_eq!(surface_area(1, 1, 10), 43);
    assert_eq!(ribbon_length(1, 1, 10), 14);
    assert_eq!(parsing(&vec!["1x2x3", "4x5x6"]), Some(vec![(1, 2, 3), (4, 5, 6)]));
    assert_eq!(parsing(&vec!["1x2"]), None);
}

#[test]
fn boxes_run() {
    let (label, one, two, _, _) = Day02::run("2x3x4\n1x1x10\n").unwrap();
    assert_eq!((label.as_str(), one.as_str(), two.as_str()), ("Day_02", "101", "48"));
}
