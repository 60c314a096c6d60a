use aoc::y2023_day_01::Day01;

const TEST_INPUT: &str = "1abc2
pqr3stu8vwx
a1b2c3d4e5f
treb7uchet";

const TEST_INPUT_2: &str = "two1nine
eightwothree
abcone2threexyz
xtwone3four
4nineeightseven2
zoneight234
7pqrstsixteen";

#[test]
fn test_get_input() {
    let input = ["1abc2", "pqr3stu8vwx", "a1b2c3d4e5f", "treb7uchet"];
    let expected_result = [12, 38, 15, 77];
    for index in 0..input.len() {
        assert_eq!(expected_result[index], Day01::get_digit_input(input[index]).0);
    }
    assert_eq!(Day01::get_digit_input("ab").1, [i32::MAX, 0, -1, 0]);
}

#[test]
fn trebuchet_part_1() {
    let lines: Vec<&str> = TEST_INPUT.lines().collect();
    assert_eq!(Day01::part_01(&lines), Some(142));
}

#[test]
fn test_digit_and_letter() {
    let input = [
        "two1nine",
        "eightwothree",
        "abcone2threexyz",
        "xtwone3four",
        "4nineeightseven2",
        "zoneight234",
        "7pqrstsixteen",
        "oneight",
    ];
    let expected_output = [29, 83, 13, 24, 42, 14, 76, 18];
    for index in 0..input.len() {
        assert_eq!(expected_output[index], Day01::get_digit_and_letter(input[index]));
    }
}

#[test]
fn trebuchet_part_2() {
    let lines: Vec<&str> = TEST_INPUT_2.lines().collect();
    assert_eq!(Day01::part_02(&lines), Some(281));
}

#[test]
fn trebuchet_run() {
    let (label, one, _two, _, _) = Day01::run(TEST_INPUT).unwrap();
    assert_eq!((label.as_str(), one.as_str()), ("Day_01", "142"));
}
