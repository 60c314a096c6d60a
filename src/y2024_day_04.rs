//! Ceres search: a word search, counting `XMAS` in all eight directions, and
//! the `A`s that two crossing `MAS` (either way round) pass through.
use crate::clock::{decimal_of, decimal_u128, elapsed_since, nanos_of, start_clock};
use crate::text::{chars_of, lines_spec, lines_view, split_lines};
use vstd::prelude::*;

verus! {

/// Largest number of rows, and of characters in a row: positions stepped in
/// `i64` stay within range.
pub const MAX_SIDE: usize = 2147483647;

#[derive(Clone, Copy, PartialEq, Eq, Structural, Debug)]
pub enum ReadDirection {
    Horizontal { backward: bool },
    Vertical { backward: bool },
    /// Reading upward.
    DiagonalUp { left: bool },
    /// Reading downward.
    DiagonalDown { left: bool },
}

/// The row and column step of a direction.
pub open spec fn step_of(d: ReadDirection) -> (int, int) {
    match d {
        ReadDirection::Horizontal { backward } => (0, if backward { -1 } else { 1 }),
        ReadDirection::Vertical { backward } => (if backward { -1 } else { 1 }, 0),
        ReadDirection::DiagonalUp { left } => (-1, if left { -1 } else { 1 }),
        ReadDirection::DiagonalDown { left } => (1, if left { -1 } else { 1 }),
    }
}

pub open spec fn in_grid(g: Seq<Seq<char>>, row: int, column: int) -> bool {
    0 <= row < g.len() && 0 <= column < g[row].len()
}

/// The `n` characters read from (`row`, `column`) in direction `d`; `None`
/// where one of them lies outside the grid.
pub open spec fn word_at(g: Seq<Seq<char>>, row: int, column: int, d: ReadDirection, n: int) -> Option<Seq<char>>
    decreases n,
{
    if n <= 0 {
        Some(Seq::empty())
    } else {
        match word_at(g, row, column, d, n - 1) {
            Some(w) => {
                let r = row + (n - 1) * step_of(d).0;
                let c = column + (n - 1) * step_of(d).1;
                if in_grid(g, r, c) {
                    Some(w.push(g[r][c]))
                } else {
                    None
                }
            },
            None => None,
        }
    }
}

pub open spec fn directions() -> Seq<ReadDirection> {
    seq![
        ReadDirection::Horizontal { backward: false },
        ReadDirection::Horizontal { backward: true },
        ReadDirection::Vertical { backward: false },
        ReadDirection::Vertical { backward: true },
        ReadDirection::DiagonalDown { left: false },
        ReadDirection::DiagonalDown { left: true },
        ReadDirection::DiagonalUp { left: false },
        ReadDirection::DiagonalUp { left: true },
    ]
}

/// How many of the first `k` directions read `kw` from a cell.
pub open spec fn hits_at(g: Seq<Seq<char>>, kw: Seq<char>, row: int, column: int, k: int) -> int
    decreases k,
{
    if k <= 0 {
        0
    } else {
        hits_at(g, kw, row, column, k - 1) + if word_at(g, row, column, directions()[k - 1], kw.len() as int) == Some(kw) {
            1int
        } else {
            0int
        }
    }
}

/// The readings of `kw` that start in the first `k` cells of a row.
pub open spec fn hits_in_row(g: Seq<Seq<char>>, kw: Seq<char>, row: int, k: int) -> int
    decreases k,
{
    if k <= 0 {
        0
    } else {
        hits_in_row(g, kw, row, k - 1) + hits_at(g, kw, row, k - 1, 8)
    }
}

/// The readings of `kw` that start in the first `k` rows.
pub open spec fn hits_in_rows(g: Seq<Seq<char>>, kw: Seq<char>, k: int) -> int
    decreases k,
{
    if k <= 0 {
        0
    } else {
        hits_in_rows(g, kw, k - 1) + hits_in_row(g, kw, k - 1, g[k - 1].len() as int)
    }
}

pub open spec fn grid_fits(g: Seq<Seq<char>>) -> bool {
    &&& g.len() <= MAX_SIDE
    &&& forall|i: int| 0 <= i < g.len() ==> (#[trigger] g[i]).len() <= MAX_SIDE
}

pub open spec fn grid_view(g: Seq<Vec<char>>) -> Seq<Seq<char>> {
    g.map_values(|r: Vec<char>| r@)
}

/// The rows of the input as characters.
pub fn grid_of(lines: &Vec<&str>) -> (r: Vec<Vec<char>>)
    ensures
        grid_view(r@) == lines_view(lines@),
{
    let mut r: Vec<Vec<char>> = Vec::new();
    let mut i: usize = 0;
    while i < lines.len()
        invariant
            i <= lines.len(),
            grid_view(r@) == lines_view(lines@).take(i as int),
        decreases lines.len() - i,
    {
        let ghost prev = grid_view(r@);
        let row = chars_of(lines[i]);
        let ghost rv = row@;
        r.push(row);
        assert(grid_view(r@) =~= prev.push(rv));
        assert(lines_view(lines@).take(i + 1) =~= lines_view(lines@).take(i as int).push(lines@[i as int]@));
        i = i + 1;
    }
    assert(lines_view(lines@).take(lines.len() as int) =~= lines_view(lines@));
    r
}

/// The character at (`row`, `column`), if the grid has one there.
pub fn get_character_at_coordinate(grid: &Vec<Vec<char>>, row: i64, column: i64) -> (r: Option<char>)
    ensures
        r is Some <==> in_grid(grid_view(grid@), row as int, column as int),
        r matches Some(c) ==> c == grid_view(grid@)[row as int][column as int],
{
    if row < 0 || row as u128 >= grid.len() as u128 {
        return None;
    }
    let line = &grid[row as usize];
    assert(grid_view(grid@)[row as int] == line@);
    if column < 0 || column as u128 >= line.len() as u128 {
        return None;
    }
    Some(line[column as usize])
}

fn step_exec(d: ReadDirection) -> (r: (i64, i64))
    ensures
        (r.0 as int, r.1 as int) == step_of(d),
{
    match d {
        ReadDirection::Horizontal { backward } => (0, if backward { -1 } else { 1 }),
        ReadDirection::Vertical { backward } => (if backward { -1 } else { 1 }, 0),
        ReadDirection::DiagonalUp { left } => (-1, if left { -1 } else { 1 }),
        ReadDirection::DiagonalDown { left } => (1, if left { -1 } else { 1 }),
    }
}

/// The `total_characters` characters read from (`row`, `column`) in
/// `direction`; `None` where one of them lies outside the grid.
pub fn get_word_at_coordinate(
    grid: &Vec<Vec<char>>,
    row: usize,
    column: usize,
    direction: ReadDirection,
    total_characters: usize,
) -> (r: Option<Vec<char>>)
    requires
        row <= MAX_SIDE,
        column <= MAX_SIDE,
        total_characters <= MAX_SIDE,
    ensures
        match r {
            Some(w) => word_at(grid_view(grid@), row as int, column as int, direction, total_characters as int) == Some(w@),
            None => word_at(grid_view(grid@), row as int, column as int, direction, total_characters as int) is None,
        },
{
    let ghost g = grid_view(grid@);
    let (dr, dc) = step_exec(direction);
    let mut result: Vec<char> = Vec::new();
    let mut k: usize = 0;
    while k < total_characters
        invariant
            g == grid_view(grid@),
            row <= MAX_SIDE,
            column <= MAX_SIDE,
            total_characters <= MAX_SIDE,
            (dr as int, dc as int) == step_of(direction),
            -1 <= dr <= 1,
            -1 <= dc <= 1,
            k <= total_characters,
            word_at(g, row as int, column as int, direction, k as int) == Some(result@),
        decreases total_characters - k,
    {
        let kr: i64 = if dr == 1 {
            k as i64
        } else if dr == -1 {
            -(k as i64)
        } else {
            0
        };
        let kc: i64 = if dc == 1 {
            k as i64
        } else if dc == -1 {
            -(k as i64)
        } else {
            0
        };
        let r = row as i64 + kr;
        let c = column as i64 + kc;
        assert(kr as int == k * (dr as int) && kc as int == k * (dc as int)) by (nonlinear_arith)
            requires
                -1 <= dr <= 1,
                -1 <= dc <= 1,
                dr == 1 ==> kr == k,
                dr == -1 ==> kr == -k,
                dr == 0 ==> kr == 0,
                dc == 1 ==> kc == k,
                dc == -1 ==> kc == -k,
                dc == 0 ==> kc == 0,
        ;
        match get_character_at_coordinate(grid, r, c) {
            Some(ch) => {
                result.push(ch);
            },
            None => {
                proof {
                    lemma_word_stops(g, row as int, column as int, direction, k as int + 1, total_characters as int);
                }
                return None;
            },
        }
        k = k + 1;
    }
    Some(result)
}

pub proof fn lemma_word_stops(g: Seq<Seq<char>>, row: int, column: int, d: ReadDirection, i: int, j: int)
    requires
        1 <= i <= j,
        word_at(g, row, column, d, i) is None,
    ensures
        word_at(g, row, column, d, j) is None,
    decreases j - i,
{
    if j > i {
        lemma_word_stops(g, row, column, d, i, j - 1);
    }
}

fn direction_list() -> (r: Vec<ReadDirection>)
    ensures
        r@ == directions(),
{
    let r = vec![
        ReadDirection::Horizontal { backward: false },
        ReadDirection::Horizontal { backward: true },
        ReadDirection::Vertical { backward: false },
        ReadDirection::Vertical { backward: true },
        ReadDirection::DiagonalDown { left: false },
        ReadDirection::DiagonalDown { left: true },
        ReadDirection::DiagonalUp { left: false },
        ReadDirection::DiagonalUp { left: true },
    ];
    assert(r@ =~= directions());
    r
}

fn same_word(a: &Vec<char>, b: &Vec<char>) -> (r: bool)
    ensures
        r == (a@ == b@),
{
    crate::text::same_chars(a, b)
}

/// How many times `keyword` reads in any of the eight directions.
pub fn find_matching_keyword(grid: &Vec<Vec<char>>, keyword: &Vec<char>) -> (r: u128)
    requires
        grid_fits(grid_view(grid@)),
        keyword@.len() <= MAX_SIDE,
    ensures
        r == hits_in_rows(grid_view(grid@), keyword@, grid@.len() as int),
{
    let ghost g = grid_view(grid@);
    let dirs = direction_list();
    let mut counter: u128 = 0;
    let mut row: usize = 0;
    while row < grid.len()
        invariant
            g == grid_view(grid@),
            grid_fits(g),
            keyword@.len() <= MAX_SIDE,
            dirs@ == directions(),
            row <= grid.len(),
            counter == hits_in_rows(g, keyword@, row as int),
            counter <= row * (8 * MAX_SIDE),
        decreases grid.len() - row,
    {
        assert(g[row as int] == grid@[row as int]@);
        let width = grid[row].len();
        let mut column: usize = 0;
        let ghost base = counter as int;
        assert(row * (8 * MAX_SIDE) <= 8 * MAX_SIDE * MAX_SIDE) by (nonlinear_arith)
            requires
                row <= MAX_SIDE,
        ;
        while column < width
            invariant
                g == grid_view(grid@),
                grid_fits(g),
                keyword@.len() <= MAX_SIDE,
                dirs@ == directions(),
                row < grid.len(),
                width == g[row as int].len(),
                column <= width,
                base == hits_in_rows(g, keyword@, row as int),
                base <= row * (8 * MAX_SIDE),
                base <= 8 * MAX_SIDE * MAX_SIDE,
                width <= MAX_SIDE,
                counter == base + hits_in_row(g, keyword@, row as int, column as int),
                counter <= base + 8 * column,
            decreases width - column,
        {
            let mut k: usize = 0;
            let ghost before = counter as int;
            while k < 8
                invariant
                    g == grid_view(grid@),
                    keyword@.len() <= MAX_SIDE,
                    dirs@ == directions(),
                    row <= MAX_SIDE,
                    column <= MAX_SIDE,
                    k <= 8,
                    counter == before + hits_at(g, keyword@, row as int, column as int, k as int),
                    counter <= before + k,
                    before <= base + 8 * column,
                    base <= 8 * MAX_SIDE * MAX_SIDE,
                decreases 8 - k,
            {
                match get_word_at_coordinate(grid, row, column, dirs[k], keyword.len()) {
                    Some(word) => {
                        if same_word(&word, keyword) {
                            counter = counter + 1;
                        }
                    },
                    None => {},
                }
                k = k + 1;
            }
            column = column + 1;
        }
        assert((row + 1) * (8 * MAX_SIDE) == row * (8 * MAX_SIDE) + 8 * MAX_SIDE) by (nonlinear_arith);
        row = row + 1;
    }
    counter
}

/// The three characters on a diagonal through (`row`, `column`), from the
/// row above to the row below; `rising` reads from upper right to lower left.
pub open spec fn diagonal(g: Seq<Seq<char>>, row: int, column: int, rising: bool) -> Option<Seq<char>> {
    let d = if rising { -1int } else { 1int };
    if in_grid(g, row - 1, column - d) && in_grid(g, row, column) && in_grid(g, row + 1, column + d) {
        Some(seq![g[row - 1][column - d], g[row][column], g[row + 1][column + d]])
    } else {
        None
    }
}

pub open spec fn present(w: Option<Seq<char>>) -> Seq<Seq<char>> {
    match w {
        Some(x) => seq![x],
        None => Seq::empty(),
    }
}

/// The full diagonals through a cell that is not on the first row or column.
pub open spec fn cross_words(g: Seq<Seq<char>>, row: int, column: int) -> Seq<Seq<char>> {
    if row >= 1 && column >= 1 {
        present(diagonal(g, row, column, false)) + present(diagonal(g, row, column, true))
    } else {
        Seq::empty()
    }
}

pub open spec fn is_mas(w: Seq<char>) -> bool {
    w == seq!['M', 'A', 'S'] || w == seq!['S', 'A', 'M']
}

/// An `A` whose full diagonals, of which there is one at least, all read `MAS`
/// either way round.
pub open spec fn cross_at(g: Seq<Seq<char>>, row: int, column: int) -> bool {
    &&& in_grid(g, row, column)
    &&& g[row][column] == 'A'
    &&& cross_words(g, row, column).len() > 0
    &&& forall|i: int| 0 <= i < cross_words(g, row, column).len() ==> is_mas(#[trigger] cross_words(g, row, column)[i])
}

pub open spec fn crosses_in_row(g: Seq<Seq<char>>, row: int, k: int) -> int
    decreases k,
{
    if k <= 0 {
        0
    } else {
        crosses_in_row(g, row, k - 1) + if cross_at(g, row, k - 1) {
            1int
        } else {
            0int
        }
    }
}

pub open spec fn crosses_in_rows(g: Seq<Seq<char>>, k: int) -> int
    decreases k,
{
    if k <= 0 {
        0
    } else {
        crosses_in_rows(g, k - 1) + crosses_in_row(g, k - 1, g[k - 1].len() as int)
    }
}

fn diagonal_exec(grid: &Vec<Vec<char>>, row: usize, column: usize, rising: bool) -> (r: Option<Vec<char>>)
    requires
        1 <= row <= MAX_SIDE,
        1 <= column <= MAX_SIDE,
    ensures
        match r {
            Some(w) => diagonal(grid_view(grid@), row as int, column as int, rising) == Some(w@),
            None => diagonal(grid_view(grid@), row as int, column as int, rising) is None,
        },
{
    let d: i64 = if rising { -1 } else { 1 };
    let a = get_character_at_coordinate(grid, row as i64 - 1, column as i64 - d);
    let b = get_character_at_coordinate(grid, row as i64, column as i64);
    let c = get_character_at_coordinate(grid, row as i64 + 1, column as i64 + d);
    match (a, b, c) {
        (Some(x), Some(y), Some(z)) => {
            let w = vec![x, y, z];
            assert(w@ =~= seq![x, y, z]);
            Some(w)
        },
        _ => None,
    }
}

/// The full diagonals through a cell, when there is one.
pub fn get_words_cross_reading(grid: &Vec<Vec<char>>, row: usize, column: usize) -> (r: Option<Vec<Vec<char>>>)
    requires
        row <= MAX_SIDE,
        column <= MAX_SIDE,
    ensures
        r is None <==> cross_words(grid_view(grid@), row as int, column as int).len() == 0,
        r matches Some(v) ==> v@.map_values(|w: Vec<char>| w@) == cross_words(grid_view(grid@), row as int, column as int),
{
    let ghost g = grid_view(grid@);
    let mut result: Vec<Vec<char>> = Vec::new();
    if row >= 1 && column >= 1 {
        let ghost first = diagonal(g, row as int, column as int, false);
        match diagonal_exec(grid, row, column, false) {
            Some(w) => {
                result.push(w);
            },
            None => {},
        }
        assert(result@.map_values(|w: Vec<char>| w@) =~= present(first));
        let ghost before = result@.map_values(|w: Vec<char>| w@);
        match diagonal_exec(grid, row, column, true) {
            Some(w) => {
                result.push(w);
            },
            None => {},
        }
        assert(result@.map_values(|w: Vec<char>| w@) =~= before + present(diagonal(g, row as int, column as int, true)));
    } else {
        assert(result@.map_values(|w: Vec<char>| w@) =~= Seq::<Seq<char>>::empty());
    }
    if result.len() > 0 {
        Some(result)
    } else {
        None
    }
}

fn is_mas_exec(w: &Vec<char>) -> (r: bool)
    ensures
        r == is_mas(w@),
{
    let r = w.len() == 3 && w[1] == 'A' && ((w[0] == 'M' && w[2] == 'S') || (w[0] == 'S' && w[2] == 'M'));
    proof {
        if r {
            if w@[0] == 'M' {
                assert(w@ =~= seq!['M', 'A', 'S']);
            } else {
                assert(w@ =~= seq!['S', 'A', 'M']);
            }
        } else {
            if w@ == seq!['M', 'A', 'S'] || w@ == seq!['S', 'A', 'M'] {
                assert(w@.len() == 3 && w@[1] == 'A');
            }
        }
    }
    r
}

/// How many `A`s two crossing `MAS` pass through.
pub fn find_matching_keyword_cross(grid: &Vec<Vec<char>>) -> (r: u128)
    requires
        grid_fits(grid_view(grid@)),
    ensures
        r == crosses_in_rows(grid_view(grid@), grid@.len() as int),
{
    let ghost g = grid_view(grid@);
    let mut counter: u128 = 0;
    let mut row: usize = 0;
    while row < grid.len()
        invariant
            g == grid_view(grid@),
            grid_fits(g),
            row <= grid.len(),
            counter == crosses_in_rows(g, row as int),
            counter <= row * MAX_SIDE,
        decreases grid.len() - row,
    {
        assert(g[row as int] == grid@[row as int]@);
        let width = grid[row].len();
        let ghost base = counter as int;
        let mut column: usize = 0;
        while column < width
            invariant
                g == grid_view(grid@),
                grid_fits(g),
                row < grid.len(),
                width == g[row as int].len(),
                width <= MAX_SIDE,
                column <= width,
                base == crosses_in_rows(g, row as int),
                base <= row * MAX_SIDE,
                counter == base + crosses_in_row(g, row as int, column as int),
                counter <= base + column,
            decreases width - column,
        {
            assert(g[row as int] == grid@[row as int]@);
            if grid[row][column] == 'A' {
                match get_words_cross_reading(grid, row, column) {
                    Some(words) => {
                        let ghost ws = words@.map_values(|w: Vec<char>| w@);
                        let mut all = true;
                        let mut i: usize = 0;
                        while i < words.len()
                            invariant
                                ws == words@.map_values(|w: Vec<char>| w@),
                                i <= words.len(),
                                all == forall|j: int| 0 <= j < i ==> is_mas(#[trigger] ws[j]),
                            decreases words.len() - i,
                        {
                            assert(ws[i as int] == words@[i as int]@);
                            let ok = is_mas_exec(&words[i]);
                            if !ok {
                                all = false;
                            }
                            i = i + 1;
                        }
                        if all {
                            assert(row * MAX_SIDE + width <= (row + 1) * MAX_SIDE) by (nonlinear_arith)
                                requires
                                    width <= MAX_SIDE,
                            ;
                            counter = counter + 1;
                        }
                    },
                    None => {},
                }
            }
            column = column + 1;
        }
        assert((row + 1) * MAX_SIDE == row * MAX_SIDE + MAX_SIDE) by (nonlinear_arith);
        row = row + 1;
    }
    counter
}

pub struct Day04 {}

impl Day04 {
    /// How many times `XMAS` reads in any direction.
    pub fn part_01(lines: &Vec<&str>) -> (r: u128)
        requires
            grid_fits(lines_view(lines@)),
        ensures
            r == hits_in_rows(lines_view(lines@), seq!['X', 'M', 'A', 'S'], lines@.len() as int),
    {
        let grid = grid_of(lines);
        let keyword = vec!['X', 'M', 'A', 'S'];
        assert(keyword@ =~= seq!['X', 'M', 'A', 'S']);
        find_matching_keyword(&grid, &keyword)
    }

    /// How many `A`s two crossing `MAS` pass through.
    pub fn part_02(lines: &Vec<&str>) -> (r: u128)
        requires
            grid_fits(lines_view(lines@)),
        ensures
            r == crosses_in_rows(lines_view(lines@), lines@.len() as int),
    {
        let grid = grid_of(lines);
        find_matching_keyword_cross(&grid)
    }

    /// Solves both parts on the text of a puzzle input, with the time each
    /// took; `None` where the grid is too large.
    pub fn run(input: &str) -> (r: Option<(String, String, String, u128, u128)>)
        ensures
            r is Some <==> grid_fits(lines_spec(input@)),
            r matches Some(t) ==> t.0@ == "Day_04"@ && t.1@ == decimal_of(
                hits_in_rows(lines_spec(input@), seq!['X', 'M', 'A', 'S'], lines_spec(input@).len() as int),
            ) && t.2@ == decimal_of(crosses_in_rows(lines_spec(input@), lines_spec(input@).len() as int)),
    {
        let lines = split_lines(input);
        if lines.len() > MAX_SIDE {
            return None;
        }
        let mut i: usize = 0;
        while i < lines.len()
            invariant
                lines_view(lines@) == lines_spec(input@),
                lines.len() <= MAX_SIDE,
                i <= lines.len(),
                forall|k: int| 0 <= k < i ==> (#[trigger] lines_view(lines@)[k]).len() <= MAX_SIDE,
            decreases lines.len() - i,
        {
            assert(lines_view(lines@)[i as int] == lines@[i as int]@);
            if lines[i].unicode_len() > MAX_SIDE {
                return None;
            }
            i = i + 1;
        }
        let start_1 = start_clock();
        let result_1 = Day04::part_01(&lines);
        let time_calculation_1 = elapsed_since(&start_1);
        let start_2 = start_clock();
        let result_2 = Day04::part_02(&lines);
        let time_calculation_2 = elapsed_since(&start_2);
        Some(
            (
                "Day_04".to_owned(),
                decimal_u128(result_1),
                decimal_u128(result_2),
                nanos_of(&time_calculation_1),
                nanos_of(&time_calculation_2),
            ),
        )
    }
}

} // verus!
