use aoc::y2023_day_08::{
    find_all_end_values, find_all_start_values, find_node, find_total_steps, parse_commands,
    parse_input, parse_references, Day08, LEFT, RIGHT,
};

const TEST_INPUT: &str = "RL

AAA = (BBB, CCC)
BBB = (DDD, EEE)
CCC = (ZZZ, GGG)
DDD = (DDD, DDD)
EEE = (EEE, EEE)
GGG = (GGG, GGG)
ZZZ = (ZZZ, ZZZ)";

const TEST_INPUT_2: &str = "LR

11A = (11B, XXX)
11B = (XXX, 11Z)
11Z = (11B, XXX)
22A = (22B, XXX)
22B = (22C, 22C)
22C = (22Z, 22Z)
22Z = (22B, 22B)
XXX = (XXX, XXX)";

fn text(v: &[char]) -> String {
    v.iter().collect()
}

#[test]
fn test_find_start_values() {
    let lines: Vec<&str> = TEST_INPUT_2.lines().collect();
    let (_, references) = parse_input(&lines).unwrap();
    let result: Vec<String> = find_all_start_values(&references).iter().map(|k| text(k)).collect();
    println!("{:?}", result);
    assert!(result.contains(&"11A".to_string()));
    assert!(result.contains(&"22A".to_string()));
    let ends: Vec<String> = find_all_end_values(&references).iter().map(|k| text(k)).collect();
    assert_eq!(ends, vec!["11Z".to_string(), "22Z".to_string()]);
}

#[test]
fn test_parse_commands() {
    let result = parse_commands("RL");
    assert_eq!(result, vec![RIGHT, LEFT]);
    assert_eq!(parse_commands("LxR"), vec![LEFT, 0, RIGHT]);
}

#[test]
fn test_parse_references() {
    let lines: Vec<&str> = TEST_INPUT.lines().collect();
    let references: Vec<&str> = lines
        .iter()
        .enumerate()
        .filter_map(|(index, value)| if index < 2 { None } else { Some(*value) })
        .collect();

    let result = parse_references(&references).unwrap();
    let key: Vec<char> = "AAA".chars().collect();
    let i = find_node(&result, &key).unwrap();
    assert_eq!((text(&result[i].1), text(&result[i].2)), (String::from("BBB"), String::from("CCC")));
    assert!(parse_references(&vec!["AAA (BBB, CCC)"]).is_none());
}

#[test]
fn walk_gives_up_when_no_end() {
    let lines = vec!["L", "", "AAA = (BBB, BBB)", "BBB = (AAA, AAA)"];
    let (commands, references) = parse_input(&lines).unwrap();
    let start: Vec<char> = "AAA".chars().collect();
    assert_eq!(find_total_steps(&commands, &references, &start), None);
    assert_eq!(Day08::part_01(&lines), None);
}

#[test]
fn day_08_test_part_1() {
    let lines: Vec<&str> = TEST_INPUT.lines().collect();
    assert_eq!(Day08::part_01(&lines), Some(2));
}

#[test]
fn day_08_test_part_2() {
    let lines: Vec<&str> = TEST_INPUT_2.lines().collect();
    assert_eq!(Day08::part_02(&lines), Some(6));
}

#[test]
fn day_08_run() {
    let text = "LLR\n\nAAA = (BBB, BBB)\nBBB = (AAA, ZZZ)\nZZZ = (ZZZ, ZZZ)\n";
    let (label, one, two, _, _) = Day08::run(text).unwrap();
    assert_eq!(label, "Day_08");
    assert_eq!(one, "6");
    assert_eq!(two, "6");
}
