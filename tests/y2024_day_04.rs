use aoc::y2024_day_04::{
    find_matching_keyword, get_character_at_coordinate, get_word_at_coordinate,
    get_words_cross_reading, grid_of, Day04, ReadDirection,
};

const TEST_INPUT: &str = "..X...
.SAMX.
.A..A.
XMAS.S
.X....";

const TEST_INPUT_2: &str = "....XXMAS.
.SAMXMS...
...S..A...
..A.A.MS.X
XMASAMX.MM
X.....XA.A
S.S.S.S.SS
.A.A.A.A.A
..M.M.M.MM
.X.X.XMASX";

const TEST_INPUT_3: &str = ".M.S......
..A..MSMS.
.M.S.MAA..
..A.ASMSM.
.M.S.M....
..........
S.S.S.S.S.
.A.A.A.A..
M.M.M.M.M.
..........";

fn word(grid: &Vec<Vec<char>>, row: usize, column: usize, d: ReadDirection) -> Option<String> {
    get_word_at_coordinate(grid, row, column, d, 4).map(|w| w.iter().collect())
}

#[test]
fn test_get_word_at_coordinate_diagonal_up() {
    let lines: Vec<&str> = TEST_INPUT.lines().collect();
    let grid = grid_of(&lines);
    assert_eq!(word(&grid, 3, 0, ReadDirection::DiagonalUp { left: false }).unwrap(), "XAA.");
    assert!(word(&grid, 3, 0, ReadDirection::DiagonalUp { left: true }).is_none());
}

#[test]
fn test_get_word_at_coordinate_diagonal_down() {
    let lines: Vec<&str> = TEST_INPUT.lines().collect();
    let grid = grid_of(&lines);
    assert_eq!(word(&grid, 0, 2, ReadDirection::DiagonalDown { left: false }).unwrap(), "XMAS");
    assert!(word(&grid, 0, 2, ReadDirection::DiagonalDown { left: true }).is_none());
}

#[test]
fn test_get_word_at_coordinate_vertical() {
    let lines: Vec<&str> = TEST_INPUT.lines().collect();
    let grid = grid_of(&lines);
    assert_eq!(word(&grid, 0, 1, ReadDirection::Vertical { backward: false }).unwrap(), ".SAM");
    assert!(word(&grid, 0, 1, ReadDirection::Vertical { backward: true }).is_none());
    assert_eq!(word(&grid, 4, 1, ReadDirection::Vertical { backward: true }).unwrap(), "XMAS");
    assert!(word(&grid, 4, 1, ReadDirection::Vertical { backward: false }).is_none());
}

#[test]
fn test_get_word_at_coordinate_horizontal() {
    let lines: Vec<&str> = TEST_INPUT.lines().collect();
    let grid = grid_of(&lines);
    assert_eq!(word(&grid, 0, 0, ReadDirection::Horizontal { backward: false }).unwrap(), "..X.");
    assert!(word(&grid, 0, 0, ReadDirection::Horizontal { backward: true }).is_none());
    assert_eq!(word(&grid, 3, 0, ReadDirection::Horizontal { backward: false }).unwrap(), "XMAS");
    assert_eq!(word(&grid, 1, 4, ReadDirection::Horizontal { backward: true }).unwrap(), "XMAS");
    assert_eq!(word(&grid, 0, 2, ReadDirection::Horizontal { backward: false }).unwrap(), "X...");
    assert!(word(&grid, 0, 3, ReadDirection::Horizontal { backward: false }).is_none());
}

#[test]
fn ceres_helpers() {
    let lines: Vec<&str> = TEST_INPUT_3.lines().collect();
    let grid = grid_of(&lines);
    assert_eq!(get_character_at_coordinate(&grid, 0, 1), Some('M'));
    assert_eq!(get_character_at_coordinate(&grid, -1, 1), None);
    let words = get_words_cross_reading(&grid, 1, 2).unwrap();
    assert_eq!(words, vec![vec!['M', 'A', 'S'], vec!['S', 'A', 'M']]);
    assert!(get_words_cross_reading(&grid, 0, 2).is_none());
    assert_eq!(find_matching_keyword(&grid_of(&vec!["SAMX"]), &vec!['X', 'M', 'A', 'S']), 1);
}

#[test]
fn ceres_part_1() {
    let lines: Vec<&str> = TEST_INPUT.lines().collect();
    assert_eq!(Day04::part_01(&lines), 4);
    let lines: Vec<&str> = TEST_INPUT_2.lines().collect();
    assert_eq!(Day04::part_01(&lines), 18);
}

#[test]
fn ceres_part_2() {
    let lines: Vec<&str> = TEST_INPUT_3.lines().collect();
    assert_eq!(Day04::part_02(&lines), 9);
}

#[test]
fn ceres_run() {
    let (label, one, two, _, _) = Day04::run(TEST_INPUT_2).unwrap();
    assert_eq!((label.as_str(), one.as_str()), ("Day_04", "18"));
    assert!(two.parse::<u64>().is_ok());
}
