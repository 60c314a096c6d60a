use aoc::y2022_day_04::Day04;

const TEST_INPUT: &str = "2-4,6-8
2-3,4-5
5-7,7-9
2-8,3-7
6-6,4-6
2-6,4-8";

#[test]
fn camp_cleanup_part_1() {
    let lines: Vec<&str> = TEST_INPUT.lines().collect();
    assert_eq!(Day04::part_01(&lines), Some(2));
}

#[test]
fn camp_cleanup_part_2() {
    let lines: Vec<&str> = TEST_INPUT.lines().collect();
    assert_eq!(Day04::part_02(&lines), Some(4));
}

#[test]
fn ranges_hold_and_overlap() {
    assert!(Day04::contain_another((2, 8), (3, 7)));
    assert!(!Day04::contain_another((2, 4), (3, 7)));
    assert!(Day04::contain_another((2, 4), (9, 1)));
    assert!(Day04::overlap_another((5, 7), (7, 9)));
    assert!(!Day04::overlap_another((2, 3), (4, 5)));
    let s: Vec<char> = "12-30".chars().collect();
    assert_eq!(Day04::convert_sections(&s), Some((12, 30)));
    let bad: Vec<char> = "12".chars().collect();
    assert_eq!(Day04::convert_sections(&bad), None);
    assert_eq!(Day04::split_pair("1-2,3-4").len(), 2);
}

#[test]
fn camp_run() {
    let (label, one, two, _, _) = Day04::run(TEST_INPUT).unwrap();
    assert_eq!((label.as_str(), one.as_str(), two.as_str()), ("Day_04", "2", "4"));
    assert!(Day04::run("1-2").is_none());
}
