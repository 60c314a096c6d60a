use aoc::y2023_day_11::{find_shortest_path, parse_input, Day11, Universe};

const TEST_INPUT: &str = "...#......
.......#..
#.........
..........
......#...
.#........
.........#
..........
.......#..
#...#.....";

fn sum_of_pairs(universe: &Universe) -> i128 {
    let pairs = universe.get_galaxy_pairs();
    pairs
        .iter()
        .map(|(s, t)| {
            if let Some(source) = universe.get_galaxy_coordinate(*s) {
                if let Some(target) = universe.get_galaxy_coordinate(*t) {
                    return find_shortest_path(source, target);
                }
            }
            0
        })
        .sum()
}

#[test]
fn test_expand_2_times() {
    let lines: Vec<&str> = TEST_INPUT.lines().collect();
    let mut universe = Universe::new(&lines);
    universe.update_galaxies();
    for (number, coord) in universe.galaxies.iter().enumerate() {
        println!("{}| {},{}", number + 1, coord.0, coord.1);
    }
    universe.expand_in_name(2);
    println!("---");
    for (number, coord) in universe.galaxies.iter().enumerate() {
        println!("{}| {},{}", number + 1, coord.0, coord.1);
    }
    assert_eq!(sum_of_pairs(&universe), 374);
}

#[test]
fn test_expand_10_times() {
    let lines: Vec<&str> = TEST_INPUT.lines().collect();
    let mut universe = Universe::new(&lines);
    universe.update_galaxies();
    universe.expand_in_name(10);
    assert_eq!(sum_of_pairs(&universe), 1030);
}

#[test]
fn test_expand_100_times() {
    let lines: Vec<&str> = TEST_INPUT.lines().collect();
    let mut universe = Universe::new(&lines);
    universe.expand_in_name(100);
    assert_eq!(sum_of_pairs(&universe), 8410);
}

#[test]
fn test_shortest_path() {
    assert_eq!(find_shortest_path((3, 0), (7, 1)), 5);
    assert_eq!(find_shortest_path((3, 0), (0, 2)), 5);
    assert_eq!(find_shortest_path((3, 0), (6, 5)), 8);
}

#[test]
fn test_expand_universe() {
    let lines: Vec<&str> = TEST_INPUT.lines().collect();
    let mut universe = Universe::new(&lines);
    assert_eq!(universe.width, 10);
    assert_eq!(universe.height, 10);
    assert_eq!(true, universe.is_galaxy((3, 0)));
    universe.expand();
    assert_eq!(universe.width, 13);
    assert_eq!(universe.height, 12);
    assert_eq!(true, universe.is_galaxy((4, 0)));
    assert_eq!(false, universe.is_galaxy((3, 0)));
    assert_eq!(universe.galaxies.len(), 9);
}

#[test]
fn test_universe_find_empty_spaces() {
    let lines: Vec<&str> = TEST_INPUT.lines().collect();
    let universe = Universe::new(&lines);
    let empty_columns = universe.find_empty_columns();
    assert_eq!(empty_columns.len(), 3);
    assert_eq!(empty_columns, vec![2, 5, 8]);

    let empty_rows = universe.find_empty_rows();
    assert_eq!(empty_rows.len(), 2);
    assert_eq!(empty_rows, vec![3, 7]);
}

#[test]
fn day_11_test_parse_input() {
    let lines: Vec<&str> = TEST_INPUT.lines().collect();
    let (grids, width, height) = parse_input(&lines);
    assert_eq!(grids[0][3], '#');
    assert_eq!(width, 10);
    assert_eq!(height, 10);
}

#[test]
fn day_11_test_part_1() {
    let lines: Vec<&str> = TEST_INPUT.lines().collect();
    assert_eq!(Day11::part_01(&lines), Some(374));
}

// Each empty row and column counts a million times here, which on this grid
// gives 82000210 (not 2286).
#[test]
fn day_11_test_part_2() {
    let lines: Vec<&str> = TEST_INPUT.lines().collect();
    assert_eq!(Day11::part_02(&lines), Some(82000210));
}

#[test]
fn galaxy_pairs_are_numbered_in_order() {
    let lines: Vec<&str> = vec!["#.#", "...", "#.."];
    let mut universe = Universe::new(&lines);
    universe.update_galaxies();
    assert_eq!(universe.get_galaxy_pairs(), vec![(1, 2), (1, 3), (2, 3)]);
    assert_eq!(universe.get_galaxy_coordinate(3), Some((0, 2)));
    assert_eq!(universe.get_galaxy_coordinate(4), None);
    assert_eq!(universe.get_galaxy_coordinate(0), None);
}

#[test]
fn run_reports_both_answers() {
    let text = format!("{}\n", TEST_INPUT);
    let (label, one, two, _, _) = Day11::run(&text).unwrap();
    assert_eq!(label, "Day_11");
    assert_eq!(one, "374");
    assert_eq!(two, "82000210");
}

#[test]
fn run_refuses_ragged_grid() {
    assert!(Day11::run("#..\n.#\n").is_none());
}

#[test]
fn expand_by_a_large_factor() {
    let lines: Vec<&str> = vec!["#.", "..", ".#"];
    let mut universe = Universe::new(&lines);
    universe.expand_in_name(1_000_000_000_000);
    assert_eq!(universe.galaxies, vec![(0, 0), (1, 1_000_000_000_001)]);
    assert_eq!(find_shortest_path((0, 0), (1, 1_000_000_000_001)), 1_000_000_000_002);
    assert_eq!(find_shortest_path((i128::MAX - 5, 0), (i128::MAX, 3)), 8);
}
