use aoc::y2023_day_02::{
    cube_from_lowered, get_game_power, parsing_input, parsing_set, validate_game, CubeSet,
    CubeType, Day02,
};

const TEST_INPUT: &str = "Game 1: 3 blue, 4 red; 1 red, 2 green, 6 blue; 2 green
Game 2: 1 blue, 2 green; 3 green, 4 blue, 1 red; 1 green, 1 blue
Game 3: 8 green, 6 blue, 20 red; 5 blue, 4 red, 13 green; 5 green, 1 red
Game 4: 1 green, 3 red, 6 blue; 3 green, 6 red; 3 green, 15 blue, 14 red
Game 5: 6 red, 1 blue, 3 green; 2 blue, 1 red, 2 green";

#[test]
fn day_02_test_parsing() {
    let (game_id, game_sets) =
        parsing_input("Game 1: 3 blue, 4 red; 1 red, 2 green, 6 blue; 2 green").unwrap();
    assert_eq!(game_id, 1);
    assert_eq!(game_sets[0].count(CubeType::Blue), Some(3));
    assert_eq!(game_sets[0].count(CubeType::Red), Some(4));
    assert_eq!(game_sets[1].count(CubeType::Blue), Some(6));
    assert_eq!(game_sets[1].count(CubeType::Red), Some(1));
    assert_eq!(game_sets[1].count(CubeType::Green), Some(2));
    assert_eq!(game_sets[2].count(CubeType::Green), Some(2));
    assert_eq!(game_sets[2].count(CubeType::Blue), None);
}

#[test]
fn test_get_game_power() {
    let (_game_id, game_sets) =
        parsing_input("Game 1: 3 blue, 4 red; 1 red, 2 green, 6 blue; 2 green").unwrap();
    let power = get_game_power(&game_sets);
    assert_eq!(power, Some(48));
}

#[test]
fn power_skips_colours_never_drawn() {
    let (_, sets) = parsing_input("Game 7: 3 blue; 5 red").unwrap();
    assert_eq!(get_game_power(&sets), Some(15));
}

#[test]
fn sets_add_up_and_refuse_unknown_colours() {
    let text: Vec<char> = "2 blue, 3 Blue, 1 red".chars().collect();
    let set = parsing_set(&text).unwrap();
    assert_eq!(set, CubeSet { blue: Some(5), red: Some(1), green: None });
    let bad: Vec<char> = "2 purple".chars().collect();
    assert_eq!(parsing_set(&bad), None);
    assert_eq!(CubeType::from_str("GREEN"), Some(CubeType::Green));
    assert_eq!(cube_from_lowered(&"red".chars().collect()), Some(CubeType::Red));
    assert_eq!(cube_from_lowered(&"Red".chars().collect()), None);
}

#[test]
fn validate_against_bag() {
    let bag = CubeSet { blue: Some(14), red: Some(12), green: Some(13) };
    assert!(validate_game(&bag, &CubeSet { blue: Some(14), red: None, green: Some(1) }));
    assert!(!validate_game(&bag, &CubeSet { blue: None, red: Some(20), green: None }));
}

#[test]
fn day_02_test_part_1() {
    let lines: Vec<&str> = TEST_INPUT.lines().collect();
    assert_eq!(Day02::part_01(&lines), Some(8));
}

#[test]
fn day_02_test_part_2() {
    let lines: Vec<&str> = TEST_INPUT.lines().collect();
    assert_eq!(Day02::part_02(&lines), Some(2286));
}

#[test]
fn day_02_run() {
    let (label, one, two, _, _) = Day02::run(TEST_INPUT).unwrap();
    assert_eq!(label, "Day_02");
    assert_eq!(one, "8");
    assert_eq!(two, "2286");
    assert!(Day02::run("Game x: 1 red").is_none());
}
