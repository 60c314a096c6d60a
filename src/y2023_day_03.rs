//! Gear ratios: an engine schematic of digits and symbols, where numbers next
//! to a symbol are part numbers and a `*` next to exactly two numbers is a gear.
use crate::clock::{decimal_i128, decimal_u128, decimal_of, elapsed_since, nanos_of, start_clock};
use crate::text::{chars_of, digits_value, is_digit, lines_spec, lines_view, split_lines};
use vstd::prelude::*;

verus! {

/// Largest number of rows, and of characters in a row: cells are numbered
/// with `i32`.
pub const MAX_SIDE: usize = 2147483647;

pub open spec fn is_symbol(c: char) -> bool {
    !is_digit(c) && c != '.'
}

/// Where the run of digits from `i` ends (exclusive).
pub open spec fn run_end(line: Seq<char>, i: int) -> int
    decreases line.len() - i,
{
    if 0 <= i < line.len() && is_digit(line[i]) {
        run_end(line, i + 1)
    } else {
        i
    }
}

pub open spec fn run_starts_at(line: Seq<char>, i: int) -> bool {
    0 <= i < line.len() && is_digit(line[i]) && (i == 0 || !is_digit(line[i - 1]))
}

/// The runs of digits that start among the first `k` characters of a row,
/// as (value, row, start, end); runs whose value exceeds `i32` are left out.
pub open spec fn runs_upto(line: Seq<char>, row: int, k: int) -> Seq<(int, int, int, int)>
    decreases k,
{
    if k <= 0 {
        Seq::empty()
    } else {
        let p = runs_upto(line, row, k - 1);
        let s = k - 1;
        if run_starts_at(line, s) && digits_value(line.subrange(s, run_end(line, s))) <= i32::MAX {
            p.push((digits_value(line.subrange(s, run_end(line, s))), row, s, run_end(line, s)))
        } else {
            p
        }
    }
}

/// The runs of digits of the first `n` rows.
pub open spec fn grid_runs(g: Seq<Seq<char>>, n: int) -> Seq<(int, int, int, int)>
    decreases n,
{
    if n <= 0 {
        Seq::empty()
    } else {
        grid_runs(g, n - 1) + runs_upto(g[n - 1], n - 1, g[n - 1].len() as int)
    }
}

pub open spec fn symbol_at(g: Seq<Seq<char>>, col: int, row: int) -> bool {
    0 <= row < g.len() && 0 <= col < g[row].len() && is_symbol(g[row][col])
}

pub open spec fn near_symbol(g: Seq<Seq<char>>, col: int, row: int) -> bool {
    exists|dc: int, dr: int|
        -1 <= dc <= 1 && -1 <= dr <= 1 && !(dc == 0 && dr == 0) && #[trigger] symbol_at(
            g,
            col + dc,
            row + dr,
        )
}

/// A run with a symbol next to one of its digits.
pub open spec fn touches_symbol(g: Seq<Seq<char>>, r: (int, int, int, int)) -> bool {
    exists|col: int| r.2 <= col < r.3 && #[trigger] near_symbol(g, col, r.1)
}

/// Each distinct value of the runs, in order of first appearance, and whether
/// any run of that value touches a symbol.
pub open spec fn value_flags(g: Seq<Seq<char>>, runs: Seq<(int, int, int, int)>) -> Seq<(int, bool)>
    decreases runs.len(),
{
    if runs.len() == 0 {
        Seq::empty()
    } else {
        let p = value_flags(g, runs.drop_last());
        let r = runs.last();
        let i = index_of_value(p, r.0);
        if i >= 0 {
            p.update(i, (r.0, p[i].1 || touches_symbol(g, r)))
        } else {
            p.push((r.0, touches_symbol(g, r)))
        }
    }
}

pub open spec fn index_of_value(p: Seq<(int, bool)>, v: int) -> int
    decreases p.len(),
{
    if p.len() == 0 {
        -1
    } else if p.last().0 == v {
        p.len() - 1
    } else {
        index_of_value(p.drop_last(), v)
    }
}

/// The sum of the flagged values; `None` where a partial sum leaves `i32`.
pub open spec fn flagged_sum(p: Seq<(int, bool)>) -> Option<int>
    decreases p.len(),
{
    if p.len() == 0 {
        Some(0)
    } else {
        match flagged_sum(p.drop_last()) {
            Some(t) => {
                let v = if p.last().1 {
                    t + p.last().0
                } else {
                    t
                };
                if i32::MIN <= v <= i32::MAX {
                    Some(v)
                } else {
                    None
                }
            },
            None => None,
        }
    }
}

/// The value of the run covering a cell, the last one where several do.
pub open spec fn covering(runs: Seq<(int, int, int, int)>, col: int, row: int) -> Option<int>
    decreases runs.len(),
{
    if runs.len() == 0 {
        None
    } else {
        let r = runs.last();
        if r.1 == row && r.2 <= col < r.3 {
            Some(r.0)
        } else {
            covering(runs.drop_last(), col, row)
        }
    }
}

pub open spec fn neighbour_offsets() -> Seq<(int, int)> {
    seq![(-1, -1), (0, -1), (1, -1), (-1, 0), (1, 0), (-1, 1), (0, 1), (1, 1)]
}

/// The distinct values of the runs next to a cell, over the first `k` of
/// its eight neighbours.
pub open spec fn neighbour_values(runs: Seq<(int, int, int, int)>, col: int, row: int, k: int) -> Seq<int>
    decreases k,
{
    if k <= 0 {
        Seq::empty()
    } else {
        let p = neighbour_values(runs, col, row, k - 1);
        let d = neighbour_offsets()[k - 1];
        match covering(runs, col + d.0, row + d.1) {
            Some(v) => if p.contains(v) {
                p
            } else {
                p.push(v)
            },
            None => p,
        }
    }
}

/// The gear ratio at a cell: the product of the two values next to a `*`
/// that has exactly two; 0 elsewhere, `None` where the product leaves `i32`.
pub open spec fn gear_ratio(g: Seq<Seq<char>>, runs: Seq<(int, int, int, int)>, col: int, row: int) -> Option<int> {
    if g[row][col] == '*' {
        let vs = neighbour_values(runs, col, row, 8);
        if vs.len() == 2 {
            if 0 <= vs[0] * vs[1] <= i32::MAX {
                Some(vs[0] * vs[1])
            } else {
                None
            }
        } else {
            Some(0)
        }
    } else {
        Some(0)
    }
}

pub open spec fn add_ratio(acc: Option<int>, r: Option<int>) -> Option<int> {
    match (acc, r) {
        (Some(a), Some(b)) => if 0 <= a + b <= u128::MAX {
            Some(a + b)
        } else {
            None
        },
        _ => None,
    }
}

/// The sum of the gear ratios of the cells of the first `n` rows (of the
/// first `k` cells of row `n - 1` where `k` is given), row by row.
pub open spec fn gear_sum_upto(g: Seq<Seq<char>>, runs: Seq<(int, int, int, int)>, row: int, k: int) -> Option<int>
    decreases row, k,
{
    if row < 0 {
        Some(0)
    } else if k <= 0 {
        if row == 0 {
            Some(0)
        } else {
            gear_sum_upto(g, runs, row - 1, g[row - 1].len() as int)
        }
    } else {
        add_ratio(gear_sum_upto(g, runs, row, k - 1), gear_ratio(g, runs, k - 1, row))
    }
}

pub open spec fn gear_sum(g: Seq<Seq<char>>) -> Option<int> {
    if g.len() == 0 {
        Some(0)
    } else {
        gear_sum_upto(g, grid_runs(g, g.len() as int), g.len() - 1, g.last().len() as int)
    }
}

pub open spec fn part_number_sum(g: Seq<Seq<char>>) -> Option<int> {
    flagged_sum(value_flags(g, grid_runs(g, g.len() as int)))
}

/// A schematic small enough for its coordinates to fit.
pub open spec fn grid_fits(g: Seq<Seq<char>>) -> bool {
    &&& g.len() <= MAX_SIDE
    &&& forall|i: int| 0 <= i < g.len() ==> (#[trigger] g[i]).len() <= MAX_SIDE
}

/// A run of digits: its value, row, first column and end column (exclusive).
pub type Run = (i32, usize, usize, usize);

pub open spec fn runs_view(v: Seq<Run>) -> Seq<(int, int, int, int)> {
    v.map_values(|r: Run| (r.0 as int, r.1 as int, r.2 as int, r.3 as int))
}

pub open spec fn grid_view(g: Seq<Vec<char>>) -> Seq<Seq<char>> {
    g.map_values(|r: Vec<char>| r@)
}

pub proof fn lemma_run_end(line: Seq<char>, i: int)
    requires
        0 <= i <= line.len(),
    ensures
        i <= run_end(line, i) <= line.len(),
        forall|k: int| i <= k < run_end(line, i) ==> is_digit(#[trigger] line[k]),
        run_end(line, i) < line.len() ==> !is_digit(line[run_end(line, i)]),
    decreases line.len() - i,
{
    if i < line.len() && is_digit(line[i]) {
        lemma_run_end(line, i + 1);
    }
}

/// The runs of digits of one row, in order.
pub fn get_numbers(line: &Vec<char>, row: usize) -> (r: Vec<Run>)
    requires
        line@.len() <= MAX_SIDE,
    ensures
        runs_view(r@) == runs_upto(line@, row as int, line@.len() as int),
        forall|k: int| 0 <= k < r@.len() ==> (#[trigger] r@[k]).1 == row && r@[k].2 < r@[k].3 <= line@.len(),
{
    let n = line.len();
    let mut result: Vec<Run> = Vec::new();
    let mut i: usize = 0;
    while i < n
        invariant
            n == line@.len(),
            n <= MAX_SIDE,
            i <= n,
            runs_view(result@) == runs_upto(line@, row as int, i as int),
            forall|k: int| 0 <= k < result@.len() ==> (#[trigger] result@[k]).1 == row && result@[k].2 < result@[k].3 <= n,
        decreases n - i,
    {
        let c = line[i];
        let starts = '0' <= c && c <= '9' && (i == 0 || !('0' <= line[i - 1] && line[i - 1] <= '9'));
        assert(starts == run_starts_at(line@, i as int));
        if starts {
            proof {
                lemma_run_end(line@, i as int);
            }
            let mut j: usize = i;
            while j < n && '0' <= line[j] && line[j] <= '9'
                invariant
                    i <= j <= n,
                    n == line@.len(),
                    run_end(line@, i as int) == run_end(line@, j as int),
                decreases n - j,
            {
                j = j + 1;
            }
            let mut digits: Vec<char> = Vec::new();
            let mut k: usize = i;
            while k < j
                invariant
                    i <= k <= j <= n,
                    n == line@.len(),
                    digits@ == line@.subrange(i as int, k as int),
                decreases j - k,
            {
                digits.push(line[k]);
                k = k + 1;
                assert(digits@ =~= line@.subrange(i as int, k as int));
            }
            assert(run_end(line@, j as int) == j);
            let ghost prev = runs_view(result@);
            match crate::text::parse_unsigned(&digits) {
                Some(v) => {
                    if v <= i32::MAX as u128 {
                        result.push((v as i32, row, i, j));
                        assert(runs_view(result@) =~= prev.push((v as int, row as int, i as int, j as int)));
                    }
                },
                None => {
                    assert(crate::text::all_digits(digits@));
                },
            }
        }
        i = i + 1;
    }
    result
}

/// The rows of the schematic as characters.
fn grid_of(lines: &Vec<&str>) -> (r: Vec<Vec<char>>)
    ensures
        grid_view(r@) == lines_view(lines@),
{
    let mut r: Vec<Vec<char>> = Vec::new();
    let mut i: usize = 0;
    while i < lines.len()
        invariant
            i <= lines.len(),
            grid_view(r@) == lines_view(lines@).take(i as int),
        decreases lines.len() - i,
    {
        let ghost prev = grid_view(r@);
        let row = chars_of(lines[i]);
        let ghost rv = row@;
        r.push(row);
        assert(grid_view(r@) =~= prev.push(rv));
        assert(lines_view(lines@).take(i + 1) =~= lines_view(lines@).take(i as int).push(lines@[i as int]@));
        i = i + 1;
    }
    assert(lines_view(lines@).take(lines.len() as int) =~= lines_view(lines@));
    r
}

/// The runs of digits of the whole schematic, row by row.
fn all_runs(grid: &Vec<Vec<char>>) -> (r: Vec<Run>)
    requires
        grid_fits(grid_view(grid@)),
    ensures
        runs_view(r@) == grid_runs(grid_view(grid@), grid@.len() as int),
        forall|k: int| 0 <= k < r@.len() ==> (#[trigger] r@[k]).1 < grid@.len() && r@[k].2 < r@[k].3
            <= grid@[r@[k].1 as int]@.len(),
{
    let ghost g = grid_view(grid@);
    let mut r: Vec<Run> = Vec::new();
    let mut row: usize = 0;
    while row < grid.len()
        invariant
            g == grid_view(grid@),
            grid_fits(g),
            row <= grid.len(),
            runs_view(r@) == grid_runs(g, row as int),
            forall|k: int| 0 <= k < r@.len() ==> (#[trigger] r@[k]).1 < row && r@[k].2 < r@[k].3
                <= grid@[r@[k].1 as int]@.len(),
        decreases grid.len() - row,
    {
        assert(g[row as int] == grid@[row as int]@);
        let more = get_numbers(&grid[row], row);
        let ghost prev = r@;
        let mut k: usize = 0;
        while k < more.len()
            invariant
                k <= more.len(),
                r@ == prev + more@.take(k as int),
            decreases more.len() - k,
        {
            r.push(more[k]);
            k = k + 1;
            assert(r@ =~= prev + more@.take(k as int));
        }
        assert(more@.take(more.len() as int) =~= more@);
        assert(runs_view(r@) =~= runs_view(prev) + runs_view(more@));
        row = row + 1;
    }
    r
}

fn symbol_at_exec(grid: &Vec<Vec<char>>, col: i64, row: i64) -> (r: bool)
    ensures
        r == symbol_at(grid_view(grid@), col as int, row as int),
{
    if row < 0 || row as u128 >= grid.len() as u128 {
        return false;
    }
    let line = &grid[row as usize];
    assert(grid_view(grid@)[row as int] == line@);
    if col < 0 || col as u128 >= line.len() as u128 {
        return false;
    }
    let c = line[col as usize];
    !('0' <= c && c <= '9') && c != '.'
}

fn near_symbol_exec(grid: &Vec<Vec<char>>, col: i64, row: i64) -> (r: bool)
    requires
        -0x1_0000_0000 <= col <= 0x1_0000_0000,
        -0x1_0000_0000 <= row <= 0x1_0000_0000,
    ensures
        r == near_symbol(grid_view(grid@), col as int, row as int),
{
    let ghost g = grid_view(grid@);
    let mut dr: i64 = -1;
    while dr <= 1
        invariant
            -1 <= dr <= 2,
            -0x1_0000_0000 <= col <= 0x1_0000_0000,
            -0x1_0000_0000 <= row <= 0x1_0000_0000,
            g == grid_view(grid@),
            forall|a: int, b: int| -1 <= a <= 1 && -1 <= b < dr && !(a == 0 && b == 0) ==> !#[trigger] symbol_at(g, col + a, row + b),
        decreases 2 - dr,
    {
        let mut dc: i64 = -1;
        while dc <= 1
            invariant
                -1 <= dc <= 2,
                -1 <= dr <= 1,
                -0x1_0000_0000 <= col <= 0x1_0000_0000,
                -0x1_0000_0000 <= row <= 0x1_0000_0000,
                g == grid_view(grid@),
                forall|a: int, b: int| -1 <= a <= 1 && -1 <= b < dr && !(a == 0 && b == 0) ==> !#[trigger] symbol_at(g, col + a, row + b),
                forall|a: int| -1 <= a < dc && !(a == 0 && dr == 0) ==> !#[trigger] symbol_at(g, col + a, row + dr),
            decreases 2 - dc,
        {
            if !(dc == 0 && dr == 0) && symbol_at_exec(grid, col + dc, row + dr) {
                assert(symbol_at(g, col + dc, row + dr));
                return true;
            }
            dc = dc + 1;
        }
        dr = dr + 1;
    }
    false
}

fn touches_symbol_exec(grid: &Vec<Vec<char>>, run: Run) -> (r: bool)
    requires
        run.2 <= run.3 <= MAX_SIDE,
        run.1 <= MAX_SIDE,
    ensures
        r == touches_symbol(grid_view(grid@), (run.0 as int, run.1 as int, run.2 as int, run.3 as int)),
{
    let ghost g = grid_view(grid@);
    let (_, row, start, end) = run;
    let mut col: usize = start;
    while col < end
        invariant
            start <= col <= end <= MAX_SIDE,
            row <= MAX_SIDE,
            row == run.1 && start == run.2 && end == run.3,
            g == grid_view(grid@),
            forall|c: int| start <= c < col ==> !#[trigger] near_symbol(g, c, row as int),
        decreases end - col,
    {
        if near_symbol_exec(grid, col as i64, row as i64) {
            assert(near_symbol(g, col as int, row as int));
            return true;
        }
        col = col + 1;
    }
    false
}

pub open spec fn flags_view(v: Seq<(i32, bool)>) -> Seq<(int, bool)> {
    v.map_values(|p: (i32, bool)| (p.0 as int, p.1))
}

fn index_of_value_exec(p: &Vec<(i32, bool)>, v: i32) -> (r: Option<usize>)
    ensures
        r is None ==> index_of_value(flags_view(p@), v as int) < 0,
        r matches Some(i) ==> i as int == index_of_value(flags_view(p@), v as int) && i < p@.len(),
{
    let ghost pv = flags_view(p@);
    let mut i: usize = p.len();
    assert(pv.take(i as int) =~= pv);
    while i > 0
        invariant
            pv == flags_view(p@),
            i <= p.len(),
            index_of_value(pv, v as int) == index_of_value(pv.take(i as int), v as int),
        decreases i,
    {
        assert(pv.take(i as int).drop_last() =~= pv.take(i - 1));
        if p[i - 1].0 == v {
            return Some(i - 1);
        }
        i = i - 1;
    }
    None
}

pub proof fn lemma_index_of_value(p: Seq<(int, bool)>, v: int)
    ensures
        -1 <= index_of_value(p, v) < p.len(),
    decreases p.len(),
{
    if p.len() > 0 {
        lemma_index_of_value(p.drop_last(), v);
    }
}

pub struct Day03 {}

impl Day03 {
    /// Solves both parts on the text of a puzzle input, with the time each
    /// took; `None` where the schematic is too large or a sum does not fit.
    pub fn run(input: &str) -> (r: Option<(String, String, String, u128, u128)>)
        ensures
            r is Some <==> grid_fits(lines_spec(input@)) && part_number_sum(lines_spec(input@)) is Some
                && gear_sum(lines_spec(input@)) is Some,
            r matches Some(t) ==> t.0@ == "Day_03"@ && t.1@ == decimal_of(part_number_sum(lines_spec(input@))->Some_0)
                && t.2@ == decimal_of(gear_sum(lines_spec(input@))->Some_0),
    {
        let lines = split_lines(input);
        if !fits_exec(&lines) {
            return None;
        }
        let start_1 = start_clock();
        let result_1 = Day03::part_01(&lines);
        let time_calculation_1 = elapsed_since(&start_1);
        let start_2 = start_clock();
        let result_2 = Day03::part_02(&lines);
        let time_calculation_2 = elapsed_since(&start_2);
        match (result_1, result_2) {
            (Some(a), Some(b)) => Some(
                (
                    "Day_03".to_owned(),
                    decimal_i128(a as i128),
                    decimal_u128(b),
                    nanos_of(&time_calculation_1),
                    nanos_of(&time_calculation_2),
                ),
            ),
            _ => None,
        }
    }

    /// The sum of the part numbers: each distinct value counts once, where
    /// any run of it has a symbol next to it.
    pub fn part_01(lines: &Vec<&str>) -> (r: Option<i32>)
        requires
            grid_fits(lines_view(lines@)),
        ensures
            match r {
                Some(v) => part_number_sum(lines_view(lines@)) == Some(v as int),
                None => part_number_sum(lines_view(lines@)) is None,
            },
    {
        let grid = grid_of(lines);
        let ghost g = grid_view(grid@);
        let runs = all_runs(&grid);
        let ghost rs = runs_view(runs@);
        let mut flags: Vec<(i32, bool)> = Vec::new();
        let mut i: usize = 0;
        while i < runs.len()
            invariant
                g == grid_view(grid@),
                grid_fits(g),
                rs == runs_view(runs@),
                forall|k: int| 0 <= k < runs@.len() ==> (#[trigger] runs@[k]).1 < grid@.len() && runs@[k].2
                    < runs@[k].3 <= grid@[runs@[k].1 as int]@.len(),
                i <= runs.len(),
                flags_view(flags@) == value_flags(g, rs.take(i as int)),
            decreases runs.len() - i,
        {
            let run = runs[i];
            assert(g[run.1 as int] == grid@[run.1 as int]@);
            let touches = touches_symbol_exec(&grid, run);
            assert(rs.take(i + 1).drop_last() =~= rs.take(i as int));
            assert(rs.take(i + 1).last() == (run.0 as int, run.1 as int, run.2 as int, run.3 as int));
            let ghost prev = flags_view(flags@);
            proof {
                lemma_index_of_value(prev, run.0 as int);
            }
            match index_of_value_exec(&flags, run.0) {
                Some(k) => {
                    let old_flag = flags[k].1;
                    flags.set(k, (run.0, old_flag || touches));
                    assert(flags_view(flags@) =~= prev.update(k as int, (run.0 as int, prev[k as int].1 || touches)));
                },
                None => {
                    flags.push((run.0, touches));
                    assert(flags_view(flags@) =~= prev.push((run.0 as int, touches)));
                },
            }
            i = i + 1;
        }
        assert(rs.take(runs.len() as int) =~= rs);
        let ghost fv = flags_view(flags@);
        assert(fv == value_flags(g, rs));
        let mut total_sum: i32 = 0;
        let mut k: usize = 0;
        while k < flags.len()
            invariant
                fv == flags_view(flags@),
                fv == value_flags(g, rs),
                rs == grid_runs(g, g.len() as int),
                g == lines_view(lines@),
                k <= flags.len(),
                flagged_sum(fv.take(k as int)) == Some(total_sum as int),
            decreases flags.len() - k,
        {
            assert(fv.take(k + 1).drop_last() =~= fv.take(k as int));
            let (value, found) = flags[k];
            if found {
                if (total_sum as i64) + (value as i64) < i32::MIN as i64 || (total_sum as i64) + (
                value as i64) > i32::MAX as i64 {
                    proof {
                        lemma_flagged_stops(fv, k as int + 1, fv.len() as int);
                        assert(fv.take(fv.len() as int) =~= fv);
                    }
                    return None;
                }
                total_sum = total_sum + value;
            }
            k = k + 1;
        }
        assert(fv.take(flags.len() as int) =~= fv);
        Some(total_sum)
    }
}

impl Day03 {
    /// The sum of the gear ratios: for each `*` next to exactly two distinct
    /// values, their product.
    pub fn part_02(lines: &Vec<&str>) -> (r: Option<u128>)
        requires
            grid_fits(lines_view(lines@)),
        ensures
            match r {
                Some(v) => gear_sum(lines_view(lines@)) == Some(v as int),
                None => gear_sum(lines_view(lines@)) is None,
            },
    {
        let grid = grid_of(lines);
        let ghost g = grid_view(grid@);
        let runs = all_runs(&grid);
        let ghost rs = runs_view(runs@);
        let n = grid.len();
        if n == 0 {
            return Some(0);
        }
        let mut total: u128 = 0;
        let mut row: usize = 0;
        let mut failed = false;
        while row < n
            invariant
                g == grid_view(grid@),
                grid_fits(g),
                rs == runs_view(runs@),
                rs == grid_runs(g, g.len() as int),
                g == lines_view(lines@),
                n == g.len(),
                n > 0,
                row <= n,
                !failed,
                row < n ==> gear_sum_upto(g, rs, row as int, 0) == Some(total as int),
                row == n ==> gear_sum_upto(g, rs, n - 1, g[n - 1].len() as int) == Some(total as int),
            decreases n - row,
        {
            let line = &grid[row];
            assert(g[row as int] == line@);
            let mut col: usize = 0;
            while col < line.len()
                invariant
                    g == grid_view(grid@),
                    grid_fits(g),
                    rs == runs_view(runs@),
                    rs == grid_runs(g, g.len() as int),
                    g == lines_view(lines@),
                    n == g.len(),
                    row < n,
                    line@ == g[row as int],
                    col <= line@.len(),
                    gear_sum_upto(g, rs, row as int, col as int) == Some(total as int),
                decreases line.len() - col,
            {
                let ratio = gear_ratio_exec(&grid, &runs, col, row);
                match ratio {
                    Some(v) => {
                        if total > u128::MAX - v {
                            proof {
                                lemma_gear_stops(g, rs, row as int, col as int + 1);
                            }
                            return None;
                        }
                        total = total + v;
                    },
                    None => {
                        proof {
                            lemma_gear_stops(g, rs, row as int, col as int + 1);
                        }
                        return None;
                    },
                }
                col = col + 1;
            }
            row = row + 1;
        }
        Some(total)
    }
}

/// Once a prefix of the cells has no sum, no longer one has.
pub proof fn lemma_gear_stops(g: Seq<Seq<char>>, rs: Seq<(int, int, int, int)>, row: int, k: int)
    requires
        0 <= row < g.len(),
        0 <= k <= g[row].len(),
        gear_sum_upto(g, rs, row, k) is None,
    ensures
        gear_sum_upto(g, rs, g.len() - 1, g[g.len() - 1].len() as int) is None,
    decreases g.len() - row, g[row].len() - k,
{
    if k < g[row].len() {
        lemma_gear_stops(g, rs, row, k + 1);
    } else if row + 1 < g.len() {
        assert(gear_sum_upto(g, rs, row + 1, 0) == gear_sum_upto(g, rs, row, g[row].len() as int));
        lemma_gear_stops(g, rs, row + 1, 0);
    }
}

fn covering_exec(runs: &Vec<Run>, col: i64, row: i64) -> (r: Option<i32>)
    ensures
        match r {
            Some(v) => covering(runs_view(runs@), col as int, row as int) == Some(v as int),
            None => covering(runs_view(runs@), col as int, row as int) is None,
        },
{
    let ghost rs = runs_view(runs@);
    let mut found: Option<i32> = None;
    let mut i: usize = 0;
    while i < runs.len()
        invariant
            rs == runs_view(runs@),
            i <= runs.len(),
            match found {
                Some(v) => covering(rs.take(i as int), col as int, row as int) == Some(v as int),
                None => covering(rs.take(i as int), col as int, row as int) is None,
            },
        decreases runs.len() - i,
    {
        assert(rs.take(i + 1).drop_last() =~= rs.take(i as int));
        let (v, r, s, e) = runs[i];
        if r as i128 == row as i128 && s as i128 <= col as i128 && (col as i128) < e as i128 {
            found = Some(v);
        }
        i = i + 1;
    }
    assert(rs.take(runs.len() as int) =~= rs);
    found
}

fn gear_ratio_exec(grid: &Vec<Vec<char>>, runs: &Vec<Run>, col: usize, row: usize) -> (r: Option<u128>)
    requires
        row < grid@.len(),
        col < grid@[row as int]@.len(),
        col <= MAX_SIDE,
        row <= MAX_SIDE,
    ensures
        match r {
            Some(v) => gear_ratio(grid_view(grid@), runs_view(runs@), col as int, row as int) == Some(v as int),
            None => gear_ratio(grid_view(grid@), runs_view(runs@), col as int, row as int) is None,
        },
{
    let ghost g = grid_view(grid@);
    let ghost rs = runs_view(runs@);
    assert(g[row as int] == grid@[row as int]@);
    if grid[row][col] != '*' {
        return Some(0);
    }
    let offsets: Vec<(i64, i64)> = vec![(-1, -1), (0, -1), (1, -1), (-1, 0), (1, 0), (-1, 1), (0, 1), (1, 1)];
    assert(offsets@.map_values(|d: (i64, i64)| (d.0 as int, d.1 as int)) =~= neighbour_offsets());
    let mut values: Vec<i32> = Vec::new();
    let mut k: usize = 0;
    while k < 8
        invariant
            rs == runs_view(runs@),
            offsets@.len() == 8,
            offsets@.map_values(|d: (i64, i64)| (d.0 as int, d.1 as int)) == neighbour_offsets(),
            forall|j: int| 0 <= j < 8 ==> -1 <= (#[trigger] offsets@[j]).0 <= 1 && -1 <= offsets@[j].1 <= 1,
            col <= MAX_SIDE,
            row <= MAX_SIDE,
            k <= 8,
            values@.map_values(|v: i32| v as int) == neighbour_values(rs, col as int, row as int, k as int),
        decreases 8 - k,
    {
        let (dc, dr) = offsets[k];
        assert(neighbour_offsets()[k as int] == (dc as int, dr as int));
        let ghost prev = values@.map_values(|v: i32| v as int);
        match covering_exec(runs, col as i64 + dc, row as i64 + dr) {
            Some(v) => {
                let mut present = false;
                let mut j: usize = 0;
                while j < values.len()
                    invariant
                        j <= values.len(),
                        prev == values@.map_values(|v: i32| v as int),
                        present == exists|t: int| 0 <= t < j && values@[t] == v,
                    decreases values.len() - j,
                {
                    if values[j] == v {
                        present = true;
                    }
                    j = j + 1;
                }
                proof {
                    if present {
                        let t = choose|t: int| 0 <= t < values@.len() && values@[t] == v;
                        assert(prev[t] == v as int);
                    } else {
                        assert forall|t: int| 0 <= t < prev.len() implies prev[t] != v as int by {
                            assert(values@[t] != v);
                        }
                    }
                }
                if !present {
                    values.push(v);
                    assert(values@.map_values(|v: i32| v as int) =~= prev.push(v as int));
                }
            },
            None => {},
        }
        k = k + 1;
    }
    if values.len() == 2 {
        match values[0].checked_mul(values[1]) {
            Some(p) => {
                if p < 0 {
                    return None;
                }
                Some(p as u128)
            },
            None => None,
        }
    } else {
        Some(0)
    }
}

/// The cells of a run, as (column, row).
pub open spec fn run_cells(r: (int, int, int, int)) -> Seq<(int, int)> {
    Seq::new((r.3 - r.2) as nat, |k: int| (r.2 + k, r.1))
}

/// The cells of all runs of value `v`, in order.
pub open spec fn number_cells(runs: Seq<(int, int, int, int)>, v: int) -> Seq<(int, int)>
    decreases runs.len(),
{
    if runs.len() == 0 {
        Seq::empty()
    } else {
        number_cells(runs.drop_last(), v) + if runs.last().0 == v {
            run_cells(runs.last())
        } else {
            Seq::empty()
        }
    }
}

/// The distinct values of the runs, in order of first appearance.
pub open spec fn distinct_values(runs: Seq<(int, int, int, int)>) -> Seq<int>
    decreases runs.len(),
{
    if runs.len() == 0 {
        Seq::empty()
    } else {
        let p = distinct_values(runs.drop_last());
        if p.contains(runs.last().0) {
            p
        } else {
            p.push(runs.last().0)
        }
    }
}

pub proof fn lemma_distinct(runs: Seq<(int, int, int, int)>)
    ensures
        forall|a: int, b: int| 0 <= a < b < distinct_values(runs).len() ==> distinct_values(runs)[a]
            != distinct_values(runs)[b],
    decreases runs.len(),
{
    if runs.len() > 0 {
        lemma_distinct(runs.drop_last());
        let p = distinct_values(runs.drop_last());
        if !p.contains(runs.last().0) {
            assert forall|a: int, b: int| 0 <= a < b < p.len() + 1 implies p.push(runs.last().0)[a] != p.push(runs.last().0)[b] by {
                if b == p.len() {
                    assert(p[a] != runs.last().0);
                }
            }
        }
    }
}

pub proof fn lemma_no_cells(runs: Seq<(int, int, int, int)>, v: int)
    requires
        !distinct_values(runs).contains(v),
    ensures
        number_cells(runs, v) == Seq::<(int, int)>::empty(),
    decreases runs.len(),
{
    if runs.len() > 0 {
        let p = distinct_values(runs.drop_last());
        if p.contains(v) {
            let k = choose|k: int| 0 <= k < p.len() && p[k] == v;
            if !p.contains(runs.last().0) {
                assert(p.push(runs.last().0)[k] == v);
            }
        }
        if runs.last().0 == v {
            if !p.contains(v) {
                assert(p.push(v)[p.len() as int] == v);
            }
        }
        lemma_no_cells(runs.drop_last(), v);
        assert(number_cells(runs, v) =~= Seq::<(int, int)>::empty());
    }
}

pub open spec fn cells_view(c: Seq<(i32, i32)>) -> Seq<(int, int)> {
    c.map_values(|p: (i32, i32)| (p.0 as int, p.1 as int))
}

/// Each distinct value of the runs of digits, with the cells of all its runs.
pub fn get_numbers_ex(lines: &Vec<&str>) -> (r: Vec<(i32, Vec<(i32, i32)>)>)
    requires
        grid_fits(lines_view(lines@)),
    ensures
        r@.map_values(|e: (i32, Vec<(i32, i32)>)| e.0 as int) == distinct_values(grid_runs(lines_view(lines@), lines@.len() as int)),
        forall|k: int| 0 <= k < r@.len() ==> cells_view((#[trigger] r@[k]).1@) == number_cells(
            grid_runs(lines_view(lines@), lines@.len() as int),
            r@[k].0 as int,
        ),
{
    let grid = grid_of(lines);
    let runs = all_runs(&grid);
    let ghost rs = runs_view(runs@);
    let mut result: Vec<(i32, Vec<(i32, i32)>)> = Vec::new();
    let mut i: usize = 0;
    while i < runs.len()
        invariant
            rs == runs_view(runs@),
            forall|k: int| 0 <= k < runs@.len() ==> (#[trigger] runs@[k]).1 < grid@.len() && runs@[k].2
                < runs@[k].3 <= grid@[runs@[k].1 as int]@.len(),
            grid_fits(grid_view(grid@)),
            i <= runs.len(),
            result@.map_values(|e: (i32, Vec<(i32, i32)>)| e.0 as int) == distinct_values(rs.take(i as int)),
            forall|k: int| 0 <= k < result@.len() ==> cells_view((#[trigger] result@[k]).1@) == number_cells(
                rs.take(i as int),
                result@[k].0 as int,
            ),
        decreases runs.len() - i,
    {
        let (v, row, start, end) = runs[i];
        assert(grid_view(grid@)[row as int] == grid@[row as int]@);
        let ghost vals = result@.map_values(|e: (i32, Vec<(i32, i32)>)| e.0 as int);
        let ghost before = rs.take(i as int);
        let ghost now = rs.take(i + 1);
        assert(now.drop_last() =~= before);
        assert(now.last() == (v as int, row as int, start as int, end as int));
        let mut idx: usize = 0;
        while idx < result.len() && result[idx].0 != v
            invariant
                idx <= result.len(),
                forall|t: int| 0 <= t < idx ==> result@[t].0 != v,
            decreases result.len() - idx,
        {
            idx = idx + 1;
        }
        let mut cells: Vec<(i32, i32)> = Vec::new();
        let mut c: usize = start;
        while c < end
            invariant
                start <= c <= end <= MAX_SIDE,
                row <= MAX_SIDE,
                cells_view(cells@) == run_cells((v as int, row as int, start as int, end as int)).take(c - start),
            decreases end - c,
        {
            let ghost before_cells = cells_view(cells@);
            cells.push((c as i32, row as i32));
            assert(cells_view(cells@) =~= before_cells.push((c as int, row as int)));
            c = c + 1;
            assert(cells_view(cells@) =~= run_cells((v as int, row as int, start as int, end as int)).take(c - start));
        }
        assert(run_cells((v as int, row as int, start as int, end as int)).take(end - start) =~= run_cells((v as int, row as int, start as int, end as int)));
        if idx < result.len() {
            assert(vals[idx as int] == v as int);
            assert(vals.contains(v as int));
            let ghost old_cells = cells_view(result@[idx as int].1@);
            let mut k: usize = 0;
            let ghost prev = result@;
            while k < cells.len()
                invariant
                    idx < result@.len(),
                    k <= cells.len(),
                    result@.len() == prev.len(),
                    forall|t: int| 0 <= t < prev.len() && t != idx ==> result@[t] == prev[t],
                    result@[idx as int].0 == v,
                    cells_view(result@[idx as int].1@) == old_cells + cells_view(cells@).take(k as int),
                decreases cells.len() - k,
            {
                let cell = cells[k];
                let ghost before_cells = cells_view(result@[idx as int].1@);
                result[idx].1.push(cell);
                assert(cells_view(result@[idx as int].1@) =~= before_cells.push((cell.0 as int, cell.1 as int)));
                assert(cells_view(cells@)[k as int] == (cell.0 as int, cell.1 as int));
                k = k + 1;
                assert(cells_view(result@[idx as int].1@) =~= old_cells + cells_view(cells@).take(k as int));
            }
            assert(cells_view(cells@).take(cells.len() as int) =~= cells_view(cells@));
            assert(result@.map_values(|e: (i32, Vec<(i32, i32)>)| e.0 as int) =~= vals);
            assert forall|t: int| 0 <= t < result@.len() implies cells_view((#[trigger] result@[t]).1@) == number_cells(
                now,
                result@[t].0 as int,
            ) by {
                if t != idx {
                    assert(result@[t] == prev[t]);
                    lemma_distinct(before);
                    assert(vals[t] != vals[idx as int]);
                    assert(number_cells(now, result@[t].0 as int) =~= number_cells(before, result@[t].0 as int));
                } else {
                    assert(old_cells == number_cells(before, v as int));
                    assert(number_cells(now, v as int) =~= number_cells(before, v as int) + run_cells((v as int, row as int, start as int, end as int)));
                }
            }
        } else {
            assert(!vals.contains(v as int)) by {
                if vals.contains(v as int) {
                    let t = choose|t: int| 0 <= t < vals.len() && vals[t] == v as int;
                    assert(result@[t].0 != v);
                }
            }
            proof {
                lemma_no_cells(before, v as int);
            }
            let ghost prev = result@;
            result.push((v, cells));
            assert(result@.map_values(|e: (i32, Vec<(i32, i32)>)| e.0 as int) =~= vals.push(v as int));
            assert forall|t: int| 0 <= t < result@.len() implies cells_view((#[trigger] result@[t]).1@) == number_cells(
                now,
                result@[t].0 as int,
            ) by {
                if t < prev.len() {
                    assert(result@[t] == prev[t]);
                    assert(number_cells(now, result@[t].0 as int) =~= number_cells(before, result@[t].0 as int));
                } else {
                    assert(number_cells(now, v as int) =~= number_cells(before, v as int) + run_cells((v as int, row as int, start as int, end as int)));
                }
            }
        }
        i = i + 1;
    }
    assert(rs.take(runs.len() as int) =~= rs);
    result
}

/// The schematic's rows, and its numbers with their cells.
pub fn parsing_input(lines: &Vec<&str>) -> (r: (Vec<Vec<char>>, Vec<(i32, Vec<(i32, i32)>)>))
    requires
        grid_fits(lines_view(lines@)),
    ensures
        grid_view(r.0@) == lines_view(lines@),
        r.1@.map_values(|e: (i32, Vec<(i32, i32)>)| e.0 as int) == distinct_values(grid_runs(lines_view(lines@), lines@.len() as int)),
        forall|k: int| 0 <= k < r.1@.len() ==> cells_view((#[trigger] r.1@[k]).1@) == number_cells(
            grid_runs(lines_view(lines@), lines@.len() as int),
            r.1@[k].0 as int,
        ),
{
    let grids = grid_of(lines);
    let numbers = get_numbers_ex(lines);
    (grids, numbers)
}

pub proof fn lemma_flagged_stops(p: Seq<(int, bool)>, i: int, j: int)
    requires
        1 <= i <= j <= p.len(),
        flagged_sum(p.take(i)) is None,
    ensures
        flagged_sum(p.take(j)) is None,
    decreases j - i,
{
    if j > i {
        lemma_flagged_stops(p, i, j - 1);
        assert(p.take(j).drop_last() =~= p.take(j - 1));
    }
}

/// Whether the schematic is small enough for its coordinates to fit.
fn fits_exec(lines: &Vec<&str>) -> (r: bool)
    ensures
        r == grid_fits(lines_view(lines@)),
{
    if lines.len() > MAX_SIDE {
        return false;
    }
    let mut i: usize = 0;
    while i < lines.len()
        invariant
            i <= lines.len(),
            lines.len() <= MAX_SIDE,
            forall|k: int| 0 <= k < i ==> (#[trigger] lines_view(lines@)[k]).len() <= MAX_SIDE,
        decreases lines.len() - i,
    {
        assert(lines_view(lines@)[i as int] == lines@[i as int]@);
        if lines[i].unicode_len() > MAX_SIDE {
            return false;
        }
        i = i + 1;
    }
    true
}

} // verus!
