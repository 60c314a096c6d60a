use aoc::y2022_day_06::Day06;

const TEST_INPUT: [(&str, i32); 5] = [
    ("mjqjpqmgbljsphdztnvjfqwrcgsmlb", 7),
    ("bvwbjplbgvbhsrlpgdmjqwftvncz", 5),
    ("nppdvjthqldpwncqszvftbrmjlhg", 6),
    ("nznrnfrfntjfmvfwmzdfjlvtqnbhcprsg", 10),
    ("zcfzfwzzqfrljwzlrfnpqdbhtmscgvjw", 11),
];

const TEST_INPUT_2: [(&str, i32); 5] = [
    ("mjqjpqmgbljsphdztnvjfqwrcgsmlb", 19),
    ("bvwbjplbgvbhsrlpgdmjqwftvncz", 23),
    ("nppdvjthqldpwncqszvftbrmjlhg", 23),
    ("nznrnfrfntjfmvfwmzdfjlvtqnbhcprsg", 29),
    ("zcfzfwzzqfrljwzlrfnpqdbhtmscgvjw", 26),
];

#[test]
fn tuning_part_1() {
    for (line, expected_result) in TEST_INPUT.iter() {
        let lines: Vec<&str> = line.lines().collect();
        assert_eq!(Day06::part_01(&lines), *expected_result);
    }
}

#[test]
fn tuning_part_2() {
    for (line, expected_result) in TEST_INPUT_2.iter() {
        let lines: Vec<&str> = line.lines().collect();
        assert_eq!(Day06::part_02(&lines), *expected_result);
    }
}

#[test]
fn buffer_helpers() {
    let mut buffer = vec!['a', 'b', 'c'];
    assert_eq!(Day06::check_common_character_on_buffer(&buffer, &'b'), Some(1));
    assert_eq!(Day06::check_common_character_on_buffer(&buffer, &'z'), None);
    Day06::remove_incorrect_buffer(&mut buffer, 1);
    assert_eq!(buffer, vec!['c']);
    Day06::add_to_buffer(&mut buffer, 'd');
    assert_eq!(buffer, vec!['c', 'd']);
    let stream: Vec<char> = "aaaa".chars().collect();
    assert_eq!(Day06::find_marker(&stream, 2), 4);
}

#[test]
fn tuning_run() {
    let (label, one, two, _, _) = Day06::run("mjqjpqmgbljsphdztnvjfqwrcgsmlb\n").unwrap();
    assert_eq!((label.as_str(), one.as_str(), two.as_str()), ("Day_06", "7", "19"));
}
