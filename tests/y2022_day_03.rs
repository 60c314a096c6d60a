use aoc::y2022_day_03::Day03;

const TEST_INPUT: &str = "vJrwpWtwJgWrhcsFMMfFFhFp
jqHRNqRjqzjGDLGLrsFMfFZSrLrFZsSL
PmmdzqPrVvPwwTWBwg
wMqvLMZHhHMvwLHjbvcjnnSBnvTQFn
ttgJtRGJQctTZtZT
CrZsJsPPZsGzwwsLwLmpwMDw";

#[test]
fn rucksack_part_1() {
    let lines: Vec<&str> = TEST_INPUT.lines().collect();
    assert_eq!(Day03::part_01(&lines), Some(157));
}

#[test]
fn rucksack_part_2() {
    let lines: Vec<&str> = TEST_INPUT.lines().collect();
    assert_eq!(Day03::part_02(&lines), Some(70));
}

#[test]
fn item_tables() {
    let table = Day03::item_inspect(&"ab".chars().collect());
    assert_eq!(table.len(), 125);
    assert_eq!((table[97], table[98], table[99]), (1, 1, 0));
    let mut first = table.clone();
    Day03::merge_container(&mut first, &table);
    assert_eq!(first[97], 2);
    assert_eq!(Day03::calculate_value('p' as usize), 16);
    assert_eq!(Day03::calculate_value('L' as usize), 38);
    assert_eq!(Day03::calculate_value('1' as usize), 0);
}

#[test]
fn rucksack_run() {
    let (label, one, two, _, _) = Day03::run(TEST_INPUT).unwrap();
    assert_eq!((label.as_str(), one.as_str(), two.as_str()), ("Day_03", "157", "70"));
    assert!(Day03::run("ab~").is_none());
}
