use aoc::y2022_day_01::{elf_calories, Day01};

const TEST_INPUT: &str = "1000
2000
3000

4000

5000
6000

7000
8000
9000

10000";

#[test]
fn day_01_test_part_1() {
    let lines: Vec<&str> = TEST_INPUT.lines().collect();
    assert_eq!(Day01::part_01(&lines), Some(24000));
}

#[test]
fn day_01_test_part_2() {
    let lines: Vec<&str> = TEST_INPUT.lines().collect();
    assert_eq!(Day01::part_02(&lines), Some(45000));
}

#[test]
fn totals_per_elf() {
    let lines: Vec<&str> = TEST_INPUT.lines().collect();
    assert_eq!(elf_calories(&lines), Some(vec![6000, 4000, 11000, 24000, 10000]));
    assert_eq!(elf_calories(&vec!["x", "5"]), Some(vec![5]));
    assert_eq!(elf_calories(&vec!["2147483647", "1"]), None);
}

#[test]
fn last_elf_counts_in_part_1() {
    let lines = vec!["1", "", "50"];
    assert_eq!(Day01::part_01(&lines), Some(50));
    assert_eq!(Day01::part_02(&lines), Some(51));
    let (_, one, _, _, _) = Day01::run("1\n\n50\n").unwrap();
    assert_eq!(one, "50");
}

#[test]
fn calories_run() {
    let (label, one, two, _, _) = Day01::run(TEST_INPUT).unwrap();
    assert_eq!((label.as_str(), one.as_str(), two.as_str()), ("Day_01", "24000", "45000"));
}
