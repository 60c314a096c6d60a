use aoc::y2023_day_03::{get_numbers, get_numbers_ex, parsing_input, Day03};

const TEST_INPUT: &str = "467..114..
...*......
..35..633.
......#...
617*......
.....+.58.
..592.....
......755.
...$.*....
.664.598..
..........
.....114..
.....114..
.....114..";

#[test]
fn test_get_number() {
    let result = get_numbers_ex(&vec!["467..114..", "...467..114.5"]);
    assert_eq!(result.len(), 3);
    println!("{:?}", result);
    assert_eq!(result[0].0, 467);
    assert_eq!(result[0].1, vec![(0, 0), (1, 0), (2, 0), (3, 1), (4, 1), (5, 1)]);
    assert_eq!(result[2], (5, vec![(12, 1)]));
}

#[test]
fn day_03_test_parsing() {
    let lines: Vec<&str> = TEST_INPUT.lines().collect();
    let (grids, numbers) = parsing_input(&lines);
    assert_eq!(grids.len(), 14);
    assert_eq!(grids[1][3], '*');
    assert_eq!(numbers.len(), 10);
}

#[test]
fn runs_of_one_row() {
    let line: Vec<char> = "12..3.45".chars().collect();
    assert_eq!(get_numbers(&line, 2), vec![(12, 2, 0, 2), (3, 2, 4, 5), (45, 2, 6, 8)]);
}

#[test]
fn day_03_test_part_1() {
    let lines: Vec<&str> = TEST_INPUT.lines().collect();
    assert_eq!(Day03::part_01(&lines), Some(4361));
}

#[test]
fn day_03_test_part_2() {
    let lines: Vec<&str> = TEST_INPUT.lines().collect();
    assert_eq!(Day03::part_02(&lines), Some(467835));
}

#[test]
fn day_03_run() {
    let (label, one, two, _, _) = Day03::run(TEST_INPUT).unwrap();
    assert_eq!(label, "Day_03");
    assert_eq!(one, "4361");
    assert_eq!(two, "467835");
}
