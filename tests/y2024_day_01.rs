use aoc::y2024_day_01::{
    calculate_similarity_score, find_distance, sort_values, split_list_and_sorted, Day01,
};

const TEST_INPUT: &str = "3   4
4   3
2   5
1   3
3   9
3   3";

#[test]
fn hysteria_part_1() {
    let lines: Vec<&str> = TEST_INPUT.lines().collect();
    assert_eq!(Day01::part_01(&lines), Some(11));
}

#[test]
fn hysteria_part_2() {
    let lines: Vec<&str> = TEST_INPUT.lines().collect();
    assert_eq!(Day01::part_02(&lines), Some(31));
}

#[test]
fn lists_sorted_and_scored() {
    let lines: Vec<&str> = TEST_INPUT.lines().collect();
    let (left, right) = split_list_and_sorted(&lines).unwrap();
    assert_eq!(left, vec![1, 2, 3, 3, 3, 4]);
    assert_eq!(right, vec![3, 3, 3, 4, 5, 9]);
    assert_eq!(find_distance(4, -2), 6);
    assert_eq!(calculate_similarity_score(3, &right), 9);
    let mut v = vec![5, -1, 5, 0];
    sort_values(&mut v);
    assert_eq!(v, vec![-1, 0, 5, 5]);
    assert!(split_list_and_sorted(&vec!["1 x"]).is_none());
}

#[test]
fn hysteria_run() {
    let (label, one, two, _, _) = Day01::run(TEST_INPUT).unwrap();
    assert_eq!((label.as_str(), one.as_str(), two.as_str()), ("Day_01", "11", "31"));
}
