use aoc::y2023_day_12::{
    filling_ex, get_minimum_length_of_conditions, look_for_filling_index_ex, parse_hint,
    parse_line, unfold, ConditionType, Day12,
};

const TEST_INPUT: &str = "???.### 1,1,3
.??..??...?##. 1,1,3
?#?#?#?#?#?#?#? 1,3,1,6
????.#...#... 4,1,1
????.######..#####. 1,6,5
?###???????? 3,2,1";

fn hint(s: &str) -> Vec<usize> {
    parse_hint(&s.chars().collect()).unwrap()
}

fn count(line: &str) -> Option<u64> {
    let (conditions, hints) = parse_line(line).unwrap();
    let n = conditions.len();
    filling_ex(conditions, &hints, 0, 0, n)
}

#[test]
fn test_get_minimum_length() {
    assert_eq!(get_minimum_length_of_conditions(&hint("1,1,3"), 0), 7);
    assert_eq!(get_minimum_length_of_conditions(&hint("1"), 0), 1);
    assert_eq!(get_minimum_length_of_conditions(&hint("1,3"), 0), 5);
    assert_eq!(get_minimum_length_of_conditions(&hint("1,3,1,6"), 0), 14);
    assert_eq!(get_minimum_length_of_conditions(&hint("3,2,1"), 3), 0);
}

#[test]
fn test_look_for_filling_index_ex() {
    let (conditions, _) = parse_line("???.### 1,1,3").unwrap();
    let n = conditions.len();
    assert_eq!(look_for_filling_index_ex(1, &conditions, 0, n), Some(0));
    assert_eq!(look_for_filling_index_ex(1, &conditions, 1, n), Some(1));
    assert_eq!(look_for_filling_index_ex(1, &conditions, 2, n), Some(2));
    assert_eq!(look_for_filling_index_ex(1, &conditions, 3, n), None);

    let (conditions, _) = parse_line(".??..??...?##. 1,1,3").unwrap();
    let n = conditions.len();
    assert_eq!(look_for_filling_index_ex(1, &conditions, 0, n), Some(1));
    assert_eq!(look_for_filling_index_ex(1, &conditions, 1, n), Some(1));
    assert_eq!(look_for_filling_index_ex(1, &conditions, 2, n), Some(2));
    assert_eq!(look_for_filling_index_ex(1, &conditions, 3, n), Some(5));

    let (conditions, _) = parse_line("?###???????? 3,2,1").unwrap();
    let n = conditions.len();
    assert_eq!(look_for_filling_index_ex(2, &conditions, 0, n), Some(5));
    assert_eq!(look_for_filling_index_ex(2, &conditions, 6, n), Some(6));
    assert_eq!(look_for_filling_index_ex(2, &conditions, 7, n), Some(7));
}

#[test]
fn test_filling_example() {
    assert_eq!(count("???.### 1,1,3"), Some(1));
    assert_eq!(count(".??..??...?##. 1,1,3"), Some(4));
    assert_eq!(count("?#?#?#?#?#?#?#? 1,3,1,6"), Some(1));
    assert_eq!(count("????.#...#... 4,1,1"), Some(1));
    assert_eq!(count("????.######..#####. 1,6,5"), Some(4));
    assert_eq!(count("?###???????? 3,2,1"), Some(10));
}

#[test]
fn test_part_2_example() {
    assert_eq!(
        count("???.###????.###????.###????.###????.### 1,1,3,1,1,3,1,1,3,1,1,3,1,1,3"),
        Some(1)
    );
}

#[test]
fn test_filling() {
    assert_eq!(count("?##?##??#?.#?#?? 8,3"), Some(1));
    assert_eq!(count("??#?.#??.?? 2,1,1"), Some(6));
}

#[test]
fn springs_parsing_and_unfold() {
    let (c, h) = parse_line("#.? 2").unwrap();
    assert_eq!(c, vec![ConditionType::Damaged, ConditionType::Operational, ConditionType::Unknown]);
    assert_eq!(h, vec![2]);
    let (uc, uh) = unfold(&c, &h);
    assert_eq!(uc.len(), 19);
    assert_eq!(uh, vec![2, 2, 2, 2, 2]);
    assert!(parse_line("#x 1").is_none());
    assert!(parse_line("# 0").is_none());
}

#[test]
fn day_12_test_part_1() {
    let lines: Vec<&str> = TEST_INPUT.lines().collect();
    assert_eq!(Day12::part_01(&lines), Some(21));
}

#[test]
fn springs_part_2_first_row() {
    assert_eq!(Day12::part_02(&vec!["???.### 1,1,3"]), Some(1));
}
