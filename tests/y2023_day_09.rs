use aoc::y2023_day_09::{
    find_different_step, find_extrapolated, find_extrapolated_backward, parse_line,
    process_extrapolated, process_extrapolated_backward, extrapolate_checked, Day09,
};

const TEST_INPUT: &str = "0 3 6 9 12 15
1 3 6 10 15 21
10 13 16 21 30 45";

#[test]
fn test_find_prediction() {
    let prev = None;
    let mut current = vec![0, 0, 0, 0];
    find_extrapolated(prev, &mut current);
    assert_eq!(current.len(), 5);
    assert_eq!(current, vec![0, 0, 0, 0, 0]);

    let prev = Some(current.clone());
    let mut current = vec![3, 3, 3, 3, 3];
    find_extrapolated(prev, &mut current);
    assert_eq!(current.len(), 6);
    assert_eq!(current, vec![3, 3, 3, 3, 3, 3]);

    let prev = Some(current.clone());
    let mut current = vec![0, 3, 6, 9, 12, 15];
    find_extrapolated(prev, &mut current);
    assert_eq!(current.len(), 7);
    assert_eq!(current, vec![0, 3, 6, 9, 12, 15, 18]);
}

#[test]
fn find_prediction_backward() {
    let mut current = vec![2, 2];
    find_extrapolated_backward(None, &mut current);
    assert_eq!(current, vec![0, 2, 2]);
    let mut upper = vec![10, 13, 16];
    find_extrapolated_backward(Some(vec![3, 3, 3]), &mut upper);
    assert_eq!(upper, vec![7, 10, 13, 16]);
}

#[test]
fn test_parser() {
    let result = parse_line("0 3 6 9 12 15");
    assert_eq!(result, vec![0, 3, 6, 9, 12, 15]);
}

#[test]
fn parser_reads_signs_and_skips_other_pieces() {
    assert_eq!(parse_line("-4 x +7  12"), vec![-4, 7, 12]);
    assert_eq!(parse_line(""), Vec::<i128>::new());
}

#[test]
fn test_different_steps() {
    let input = parse_line("0 3 6 9 12 15");
    assert_eq!(find_different_step(&input), vec![3, 3, 3, 3, 3]);

    let input = parse_line("1 3 6 10 15 21");
    assert_eq!(find_different_step(&input), vec![2, 3, 4, 5, 6]);

    let input = parse_line("10 13 16 21 30 45");
    assert_eq!(find_different_step(&input), vec![3, 3, 5, 9, 15]);
}

#[test]
fn extrapolates_single_report() {
    assert_eq!(process_extrapolated(&vec![10, 13, 16, 21, 30, 45]), 68);
    assert_eq!(process_extrapolated_backward(&vec![10, 13, 16, 21, 30, 45]), 5);
    assert_eq!(process_extrapolated(&vec![7]), 7);
    assert_eq!(process_extrapolated_backward(&vec![7]), 7);
}

#[test]
fn day_09_test_part_1() {
    let lines: Vec<&str> = TEST_INPUT.lines().collect();
    assert_eq!(Day09::part_01(&lines), Some(114));
}

#[test]
fn day_09_test_part_2() {
    let lines: Vec<&str> = TEST_INPUT.lines().collect();
    assert_eq!(Day09::part_02(&lines), Some(2));
}

#[test]
fn day_09_run() {
    let (label, one, two, _, _) = Day09::run(TEST_INPUT).unwrap();
    assert_eq!(label, "Day_09");
    assert_eq!(one, "114");
    assert_eq!(two, "2");
    assert!(Day09::run("1 2\n\n3 4").is_none());
}

#[test]
fn backward_is_reversed_forward() {
    for report in [vec![10, 13, 16, 21, 30, 45], vec![0, 3, 6, 9, 12, 15], vec![1, 3, 6, 10, 15, 21]] {
        let mut reversed = report.clone();
        reversed.reverse();
        assert_eq!(process_extrapolated_backward(&report), process_extrapolated(&reversed));
    }
}

#[test]
fn long_reports_and_overflow() {
    let zeros = vec![0i128; 41];
    assert_eq!(extrapolate_checked(&zeros), Some((0, 0)));
    assert_eq!(process_extrapolated(&zeros), 0);
    assert_eq!(extrapolate_checked(&vec![i128::MIN, i128::MAX]), None);
    assert_eq!(extrapolate_checked(&vec![]), None);
}
