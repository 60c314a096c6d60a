use aoc::y2022_day_10::{
    get_render_value, increase_cycle, is_cycle_registered, parsing_input, process, rendering,
    Day10, Instructions,
};

const TEST_PROCESS: &str = "noop
addx 3
addx -5";

const TEST_INPUT: &str = "addx 15
addx -11
addx 6
addx -3
addx 5
addx -1
addx -8
addx 13
addx 4
noop
addx -1
addx 5
addx -1
addx 5
addx -1
addx 5
addx -1
addx 5
addx -1
addx -35
addx 1
addx 24
addx -19
addx 1
addx 16
addx -11
noop
noop
addx 21
addx -15
noop
noop
addx -3
addx 9
addx 1
addx -3
addx 8
addx 1
addx 5
noop
noop
noop
noop
noop
addx -36
noop
addx 1
addx 7
noop
noop
noop
addx 2
addx 6
noop
noop
noop
noop
noop
addx 1
noop
noop
addx 7
addx 1
noop
addx -13
addx 13
addx 7
noop
addx 1
addx -33
noop
noop
noop
addx 2
noop
noop
noop
addx 8
noop
addx -1
addx 2
addx 1
noop
addx 17
addx -9
addx 1
addx 1
addx -3
addx 11
noop
noop
addx 1
noop
addx 1
noop
noop
addx -13
addx -19
addx 1
addx 3
addx 26
addx -30
addx 12
addx -1
addx 3
addx 1
noop
noop
noop
addx -9
addx 18
addx 1
addx 2
noop
noop
addx 9
noop
noop
noop
addx -1
addx 2
addx -37
addx 1
addx 3
noop
addx 15
addx -21
addx 22
addx -6
addx 1
noop
addx 2
addx 1
noop
addx -10
noop
noop
addx 20
addx 1
addx 2
addx 2
addx -6
addx -11
noop
noop
noop";

#[test]
fn test_processing() {
    let lines: Vec<&str> = TEST_PROCESS.lines().collect();
    let instructions = parsing_input(&lines).unwrap();
    let (result, _) = process(&instructions).unwrap();
    assert_eq!(result, -1);
}

#[test]
fn day_10_test_part_1() {
    let lines: Vec<&str> = TEST_INPUT.lines().collect();
    assert_eq!(Day10::part_01(&lines), Some(13140));
}

#[test]
fn day_10_test_part_2() {
    let lines: Vec<&str> = TEST_INPUT.lines().collect();
    let instructions = parsing_input(&lines).unwrap();
    let expected_result = "##..##..##..##..##..##..##..##..##..##..\n###...###...###...###...###...###...###.\n####....####....####....####....####....\n#####.....#####.....#####.....#####.....\n######......######......######......####\n#######.......#######.......#######.....\n";
    let result = rendering(&instructions).unwrap();
    println!("Canvas:\n{}\nexpected:\n{}\n\n", result, expected_result);
    assert_eq!(result.as_str(), expected_result);
}

#[test]
fn parsing_refuses_unknown_instruction() {
    assert!(parsing_input(&vec!["noop", "jump 3"]).is_none());
    assert_eq!(parsing_input(&vec!["addx -7"]).unwrap(), vec![Instructions::ADDX(-7, 2)]);
}

#[test]
fn crt_helpers() {
    assert!(is_cycle_registered(20));
    assert!(!is_cycle_registered(21));
    assert_eq!(get_render_value(0, 1), '#');
    assert_eq!(get_render_value(5, 1), '.');
    let mut canvas = vec!['#'];
    let mut cycle = 40;
    increase_cycle(&mut canvas, &mut cycle);
    assert_eq!(cycle, 41);
    assert_eq!(canvas, vec!['#', '\n']);
}

#[test]
fn day_10_run() {
    let (label, one, two, _, _) = Day10::run(TEST_INPUT).unwrap();
    assert_eq!(label, "Day_10");
    assert_eq!(one, "13140");
    assert!(two.starts_with("##..##"));
}
