use aoc::y2024_day_02::{is_safe_adjacent, make_report, remove_level, safety_check, Day02};

const TEST_INPUT: &str = "7 6 4 2 1
1 2 7 8 9
9 7 6 2 1
1 3 2 4 5
8 6 4 4 1
1 3 6 7 9";

#[test]
fn reports_part_1() {
    let lines: Vec<&str> = TEST_INPUT.lines().collect();
    assert_eq!(Day02::part_01(&lines), Some(2));
}

#[test]
fn reports_part_2() {
    let lines: Vec<&str> = TEST_INPUT.lines().collect();
    assert_eq!(Day02::part_02(&lines), Some(4));
}

#[test]
fn safety_rules() {
    assert!(safety_check(&vec![7, 6, 4, 2, 1]));
    assert!(!safety_check(&vec![1, 2, 7, 8, 9]));
    assert!(!safety_check(&vec![1, 3, 2, 4, 5]));
    assert!(safety_check(&vec![5]));
    assert!(is_safe_adjacent(-3));
    assert!(!is_safe_adjacent(0));
    assert_eq!(remove_level(&vec![1, 3, 2, 4, 5], 1), vec![1, 2, 4, 5]);
    assert_eq!(make_report("1  2 -3"), Some(vec![1, 2, -3]));
    assert_eq!(make_report("1 x"), None);
}

#[test]
fn reports_run() {
    let (label, one, two, _, _) = Day02::run(TEST_INPUT).unwrap();
    assert_eq!((label.as_str(), one.as_str(), two.as_str()), ("Day_02", "2", "4"));
}
