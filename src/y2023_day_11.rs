//! Cosmic expansion: galaxies on a grid drift apart wherever a whole row or
//! column holds none, and the answer sums the grid distances of all pairs.
use crate::clock::{decimal_i128, decimal_of, elapsed_since, nanos_of, start_clock};
use crate::text::{lines_spec, lines_view, split_lines};
use vstd::prelude::*;

verus! {

/// Largest number of rows, and of characters in a row, that a universe holds:
/// a side with each of its lines doubled still fits in `usize` on every target.
pub const MAX_SIDE: usize = 1073741823;

/// Bound on the galaxy coordinates that the distances are summed over.
pub const COORD_BOUND: i128 = 1152921504606846976;

/// Largest factor an empty row or column may be expanded by; with at most
/// `2 * MAX_SIDE` rows or columns before a galaxy, the moved coordinates fit
/// in `i128`.
pub const EXPAND_LIMIT: i128 = 39614081257132168796771975168;

pub open spec fn in_i128(v: int) -> bool {
    i128::MIN <= v <= i128::MAX
}

/// Moving `x` past `c` empty lines counted `t` times stays within `i128`.
pub open spec fn axis_fits(x: int, c: int, t: int) -> bool {
    in_i128(x - c) && in_i128(c * t) && in_i128(x - c + c * t)
}

pub proof fn lemma_count_below_bounds(s: Seq<int>, x: int)
    ensures
        0 <= count_below(s, x) <= s.len(),
    decreases s.len(),
{
    if s.len() > 0 {
        lemma_count_below_bounds(s.drop_last(), x);
    }
}

pub open spec fn is_galaxy_at(g: Seq<Seq<char>>, col: int, row: int) -> bool {
    0 <= row < g.len() && 0 <= col < g[row].len() && g[row][col] == '#'
}

pub open spec fn column_is_empty(g: Seq<Seq<char>>, col: int, height: int) -> bool {
    forall|r: int| 0 <= r < height ==> !#[trigger] is_galaxy_at(g, col, r)
}

pub open spec fn row_is_empty(g: Seq<Seq<char>>, row: int, width: int) -> bool {
    forall|c: int| 0 <= c < width ==> !#[trigger] is_galaxy_at(g, c, row)
}

/// The empty columns among the first `n`, in increasing order.
pub open spec fn empty_column_list(g: Seq<Seq<char>>, height: int, n: int) -> Seq<int>
    decreases n,
{
    if n <= 0 {
        Seq::empty()
    } else {
        let p = empty_column_list(g, height, n - 1);
        if column_is_empty(g, n - 1, height) {
            p.push(n - 1)
        } else {
            p
        }
    }
}

/// The empty rows among the first `n`, in increasing order.
pub open spec fn empty_row_list(g: Seq<Seq<char>>, width: int, n: int) -> Seq<int>
    decreases n,
{
    if n <= 0 {
        Seq::empty()
    } else {
        let p = empty_row_list(g, width, n - 1);
        if row_is_empty(g, n - 1, width) {
            p.push(n - 1)
        } else {
            p
        }
    }
}

/// The galaxies among the first `n` characters of a row, as (column, row).
pub open spec fn row_galaxies(line: Seq<char>, row: int, n: int) -> Seq<(int, int)>
    decreases n,
{
    if n <= 0 {
        Seq::empty()
    } else {
        let p = row_galaxies(line, row, n - 1);
        if line[n - 1] == '#' {
            p.push((n - 1, row))
        } else {
            p
        }
    }
}

/// The galaxies of the first `n` rows, row by row and left to right; galaxy
/// number `k` is the one at index `k - 1`.
pub open spec fn grid_galaxies(g: Seq<Seq<char>>, n: int) -> Seq<(int, int)>
    decreases n,
{
    if n <= 0 {
        Seq::empty()
    } else {
        grid_galaxies(g, n - 1) + row_galaxies(g[n - 1], n - 1, g[n - 1].len() as int)
    }
}

/// How many of `s` are below `x`.
pub open spec fn count_below(s: Seq<int>, x: int) -> int
    decreases s.len(),
{
    if s.len() == 0 {
        0
    } else {
        count_below(s.drop_last(), x) + if s.last() < x {
            1int
        } else {
            0int
        }
    }
}

/// Where a galaxy lands when every empty column and row counts `times` times.
pub open spec fn expanded_point(p: (int, int), cols: Seq<int>, rows: Seq<int>, times: int) -> (
    int,
    int,
) {
    let cx = count_below(cols, p.0);
    let cy = count_below(rows, p.1);
    (p.0 - cx + cx * times, p.1 - cy + cy * times)
}

/// The first `n` characters of a row after each empty column is doubled.
pub open spec fn widened_row(line: Seq<char>, g: Seq<Seq<char>>, height: int, n: int) -> Seq<char>
    decreases n,
{
    if n <= 0 {
        Seq::empty()
    } else {
        let p = widened_row(line, g, height, n - 1);
        if column_is_empty(g, n - 1, height) {
            p.push('.').push(line[n - 1])
        } else {
            p.push(line[n - 1])
        }
    }
}

pub open spec fn dots(n: int) -> Seq<char> {
    Seq::new(n as nat, |i: int| '.')
}

/// The first `n` rows of the grid after each empty column and row is doubled.
pub open spec fn grown_rows(g: Seq<Seq<char>>, width: int, height: int, n: int) -> Seq<Seq<char>>
    decreases n,
{
    if n <= 0 {
        Seq::empty()
    } else {
        let p = grown_rows(g, width, height, n - 1);
        let new_width = width + empty_column_list(g, height, width).len();
        let row = widened_row(g[n - 1], g, height, width);
        if row_is_empty(g, n - 1, width) {
            p.push(dots(new_width)).push(row)
        } else {
            p.push(row)
        }
    }
}

/// The pairs (s, t) with 1 <= s < t <= n, s running over the first `m` values.
pub open spec fn pair_list(n: int, m: int) -> Seq<(i32, i32)>
    decreases m,
{
    if m <= 0 {
        Seq::empty()
    } else {
        pair_list(n, m - 1) + Seq::new(
            (if n - m > 0 {
                n - m
            } else {
                0
            }) as nat,
            |k: int| (m as i32, (m + 1 + k) as i32),
        )
    }
}

pub open spec fn abs(x: int) -> int {
    if x < 0 {
        -x
    } else {
        x
    }
}

pub open spec fn manhattan(a: (int, int), b: (int, int)) -> int {
    abs(b.0 - a.0) + abs(b.1 - a.1)
}

/// The distance between the galaxies that a pair numbers; 0 where one is missing.
pub open spec fn pair_distance(p: (i32, i32), gs: Seq<(int, int)>) -> int {
    if 1 <= p.0 <= gs.len() && 1 <= p.1 <= gs.len() {
        manhattan(gs[p.0 - 1], gs[p.1 - 1])
    } else {
        0
    }
}

pub open spec fn pair_sum(ps: Seq<(i32, i32)>, gs: Seq<(int, int)>) -> int
    decreases ps.len(),
{
    if ps.len() == 0 {
        0
    } else {
        pair_sum(ps.drop_last(), gs) + pair_distance(ps.last(), gs)
    }
}

/// Input small enough for the galaxy numbers and the distances to fit.
pub open spec fn lines_fit(g: Seq<Seq<char>>) -> bool {
    &&& g.len() <= MAX_SIDE
    &&& forall|i: int| 0 <= i < g.len() ==> (#[trigger] g[i]).len() <= MAX_SIDE
}

pub open spec fn last_width(g: Seq<Seq<char>>) -> int {
    if g.len() == 0 {
        0
    } else {
        g.last().len() as int
    }
}

/// All rows as long as the last one.
pub open spec fn is_rectangular(g: Seq<Seq<char>>) -> bool {
    forall|r: int| 0 <= r < g.len() ==> (#[trigger] g[r]).len() == last_width(g)
}

pub open spec fn grown_grid(g: Seq<Seq<char>>) -> Seq<Seq<char>> {
    grown_rows(g, last_width(g), g.len() as int, g.len() as int)
}

pub open spec fn ints_view(v: Seq<i128>) -> Seq<int> {
    v.map_values(|c: i128| c as int)
}

pub open spec fn coords_view(v: Seq<(i128, i128)>) -> Seq<(int, int)> {
    v.map_values(|p: (i128, i128)| (p.0 as int, p.1 as int))
}

/// The answer with each empty column and row doubled; `None` where the
/// galaxies are too many to number with `i32`.
pub open spec fn part_one_answer(g: Seq<Seq<char>>) -> Option<int> {
    let grown = grown_grid(g);
    let gs = grid_galaxies(grown, grown.len() as int);
    if gs.len() < i32::MAX {
        Some(pair_sum(pair_list(gs.len() as int, gs.len() as int), gs))
    } else {
        None
    }
}

/// The answer with each empty column and row counted a million times; `None`
/// where the galaxies are too many to number with `i32`.
pub open spec fn part_two_answer(g: Seq<Seq<char>>) -> Option<int> {
    let gs = grid_galaxies(g, g.len() as int).map_values(
        |p: (int, int)|
            expanded_point(
                p,
                empty_column_list(g, g.len() as int, last_width(g)),
                empty_row_list(g, last_width(g), g.len() as int),
                1000000,
            ),
    );
    if gs.len() < i32::MAX {
        Some(pair_sum(pair_list(gs.len() as int, gs.len() as int), gs))
    } else {
        None
    }
}

pub struct Day11 {}

impl Day11 {
    /// Solves both parts on the text of a puzzle input, with the time each
    /// took; `None` when the input is no rectangular grid of the handled size.
    pub fn run(input: &str) -> (r: Option<(String, String, String, u128, u128)>)
        ensures
            r is Some <==> lines_fit(lines_spec(input@)) && is_rectangular(lines_spec(input@))
                && part_one_answer(lines_spec(input@)) is Some && part_two_answer(lines_spec(input@)) is Some,
            r matches Some(t) ==> t.0@ == "Day_11"@ && t.1@ == decimal_of(
                part_one_answer(lines_spec(input@))->Some_0,
            ) && t.2@ == decimal_of(part_two_answer(lines_spec(input@))->Some_0),
    {
        let lines = split_lines(input);
        if !grid_accepted(&lines) {
            return None;
        }
        let start_1 = start_clock();
        let result_1 = Day11::part_01(&lines);
        let time_calculation_1 = elapsed_since(&start_1);
        let start_2 = start_clock();
        let result_2 = Day11::part_02(&lines);
        let time_calculation_2 = elapsed_since(&start_2);
        match (result_1, result_2) {
            (Some(a), Some(b)) => Some(
                (
                    "Day_11".to_owned(),
                    decimal_i128(a),
                    decimal_i128(b),
                    nanos_of(&time_calculation_1),
                    nanos_of(&time_calculation_2),
                ),
            ),
            _ => None,
        }
    }

    /// The sum of the distances of all galaxy pairs once every empty column
    /// and row is doubled.
    pub fn part_01(lines: &Vec<&str>) -> (r: Option<i128>)
        requires
            lines_fit(lines_view(lines@)),
            is_rectangular(lines_view(lines@)),
        ensures
            match r {
                Some(v) => part_one_answer(lines_view(lines@)) == Some(v as int),
                None => part_one_answer(lines_view(lines@)) is None,
            },
    {
        let mut universe = Universe::new(lines);
        assert forall|r: int| 0 <= r < universe.array@.len() implies (
        #[trigger] universe.array@[r])@.len() == universe.width by {
            assert(universe.grid()[r] == universe.array@[r]@);
        }
        universe.expand();
        if universe.galaxies.len() >= i32::MAX as usize {
            return None;
        }
        Some(total_distance(&universe))
    }

    /// The sum of the distances of all galaxy pairs once every empty column
    /// and row counts a million times.
    pub fn part_02(lines: &Vec<&str>) -> (r: Option<i128>)
        requires
            lines_fit(lines_view(lines@)),
        ensures
            match r {
                Some(v) => part_two_answer(lines_view(lines@)) == Some(v as int),
                None => part_two_answer(lines_view(lines@)) is None,
            },
    {
        let mut universe = Universe::new(lines);
        universe.expand_in_name(1000000);
        if universe.galaxies.len() >= i32::MAX as usize {
            return None;
        }
        Some(total_distance(&universe))
    }
}

/// Whether the lines form a grid that both parts accept.
fn grid_accepted(lines: &Vec<&str>) -> (r: bool)
    ensures
        r == (lines_fit(lines_view(lines@)) && is_rectangular(lines_view(lines@))),
{
    if lines.len() > MAX_SIDE {
        return false;
    }
    if lines.len() == 0 {
        return true;
    }
    let width = lines[lines.len() - 1].unicode_len();
    let mut i: usize = 0;
    while i < lines.len()
        invariant
            i <= lines.len(),
            lines.len() <= MAX_SIDE,
            lines.len() > 0,
            width == lines@.last()@.len(),
            forall|j: int| 0 <= j < i ==> (#[trigger] lines@[j])@.len() <= MAX_SIDE && lines@[j]@.len()
                == width,
        decreases lines.len() - i,
    {
        let n = lines[i].unicode_len();
        if n > MAX_SIDE || n != width {
            proof {
                let g = lines_view(lines@);
                assert(g[i as int] == lines@[i as int]@);
                assert(g.last() == lines@.last()@);
            }
            return false;
        }
        i = i + 1;
    }
    let ghost g = lines_view(lines@);
    assert(g.last() == lines@.last()@);
    assert forall|j: int| 0 <= j < g.len() implies (#[trigger] g[j]).len() <= MAX_SIDE && g[j].len()
        == last_width(g) by {
        assert(g[j] == lines@[j]@);
    }
    true
}

pub struct Universe {
    pub width: usize,
    pub height: usize,
    pub array: Vec<Vec<char>>,
    pub galaxies: Vec<(i128, i128)>,
}

impl Universe {
    pub open spec fn grid(&self) -> Seq<Seq<char>> {
        self.array@.map_values(|r: Vec<char>| r@)
    }

    pub open spec fn galaxy_coords(&self) -> Seq<(int, int)> {
        coords_view(self.galaxies@)
    }

    /// The rows match the recorded height and stay within the size bound.
    pub open spec fn fits(&self) -> bool {
        &&& self.array.len() == self.height
        &&& self.height <= 2 * MAX_SIDE
        &&& self.width <= 2 * MAX_SIDE
        &&& forall|r: int| 0 <= r < self.array.len() ==> (#[trigger] self.array[r]).len() <= 2 * MAX_SIDE
    }

    pub fn new(input: &Vec<&str>) -> (r: Self)
        requires
            lines_fit(lines_view(input@)),
        ensures
            r.grid() == lines_view(input@),
            r.width == last_width(lines_view(input@)),
            r.height == input.len(),
            r.galaxies@.len() == 0,
            r.fits(),
    {
        let (array, width, height) = parse_input(input);
        Universe { width, height, array, galaxies: Vec::new() }
    }

    /// Numbers the galaxies of the grid, row by row and left to right.
    pub fn update_galaxies(&mut self)
        requires
            old(self).fits(),
        ensures
            final(self).galaxy_coords() == grid_galaxies(old(self).grid(), old(self).grid().len() as int),
            final(self).array == old(self).array,
            final(self).width == old(self).width,
            final(self).height == old(self).height,
            forall|i: int| 0 <= i < final(self).galaxies@.len() ==>
                0 <= (#[trigger] final(self).galaxies@[i]).0 < 2 * MAX_SIDE
                && 0 <= final(self).galaxies@[i].1 < 2 * MAX_SIDE,
            final(self).galaxies@.len() <= 4 * MAX_SIDE * MAX_SIDE,
    {
        let ghost g = self.grid();
        let mut gals: Vec<(i128, i128)> = Vec::new();
        let mut row: usize = 0;
        while row < self.array.len()
            invariant
                self.fits(),
                g == self.grid(),
                row <= self.array.len(),
                coords_view(gals@) == grid_galaxies(g, row as int),
                forall|i: int| 0 <= i < gals@.len() ==>
                    0 <= (#[trigger] gals@[i]).0 < 2 * MAX_SIDE && 0 <= gals@[i].1 < row,
                gals@.len() <= row * (2 * MAX_SIDE),
            decreases self.array.len() - row,
        {
            let line = &self.array[row];
            let ghost before = gals@;
            let mut column: usize = 0;
            while column < line.len()
                invariant
                    self.fits(),
                    g == self.grid(),
                    row < self.array.len(),
                    line == self.array[row as int],
                    column <= line.len(),
                    coords_view(gals@) == grid_galaxies(g, row as int) + row_galaxies(
                        line@,
                        row as int,
                        column as int,
                    ),
                    forall|i: int| 0 <= i < gals@.len() ==>
                        0 <= (#[trigger] gals@[i]).0 < 2 * MAX_SIDE && 0 <= gals@[i].1 <= row,
                    gals@.len() <= row * (2 * MAX_SIDE) + column,
                decreases line.len() - column,
            {
                let ghost prev = coords_view(gals@);
                if line[column] == '#' {
                    gals.push((column as i128, row as i128));
                    assert(coords_view(gals@) =~= prev.push((column as int, row as int)));
                } else {
                    assert(coords_view(gals@) =~= prev);
                }
                column = column + 1;
                assert(coords_view(gals@) =~= grid_galaxies(g, row as int) + row_galaxies(
                    line@,
                    row as int,
                    column as int,
                ));
            }
            assert(g[row as int] == line@);
            assert((row + 1) * (2 * MAX_SIDE) == row * (2 * MAX_SIDE) + 2 * MAX_SIDE) by (nonlinear_arith);
            row = row + 1;
            assert(coords_view(gals@) =~= grid_galaxies(g, row as int));
        }
        assert(row * (2 * MAX_SIDE) <= 4 * MAX_SIDE * MAX_SIDE) by (nonlinear_arith)
            requires
                row <= 2 * MAX_SIDE,
        ;
        self.galaxies = gals;
    }

    pub fn get_galaxy_coordinate(&self, number: i32) -> (r: Option<(i128, i128)>)
        ensures
            r is Some <==> 1 <= number <= self.galaxies@.len(),
            r matches Some(p) ==> p == self.galaxies@[number - 1],
    {
        if number >= 1 && (number as usize) <= self.galaxies.len() {
            Some(self.galaxies[(number - 1) as usize])
        } else {
            None
        }
    }

    /// Every pair of galaxy numbers (s, t) with s < t, ordered by s, then t.
    pub fn get_galaxy_pairs(&self) -> (r: Vec<(i32, i32)>)
        requires
            self.galaxies@.len() < i32::MAX,
        ensures
            r@ == pair_list(self.galaxies@.len() as int, self.galaxies@.len() as int),
    {
        let n = self.galaxies.len();
        let mut result: Vec<(i32, i32)> = Vec::new();
        let mut s: usize = 0;
        while s < n
            invariant
                n == self.galaxies@.len(),
                n < i32::MAX,
                s <= n,
                result@ == pair_list(n as int, s as int),
            decreases n - s,
        {
            let ghost before = result@;
            let mut t: usize = s + 1;
            while t < n
                invariant
                    n < i32::MAX,
                    s < t <= n || (t == s + 1 && t >= n),
                    s < n,
                    result@ == before + Seq::new(
                        (t - s - 1) as nat,
                        |k: int| ((s + 1) as i32, (s + 2 + k) as i32),
                    ),
                decreases n - t,
            {
                result.push(((s + 1) as i32, (t + 1) as i32));
                t = t + 1;
                assert(result@ =~= before + Seq::new(
                    (t - s - 1) as nat,
                    |k: int| ((s + 1) as i32, (s + 2 + k) as i32),
                ));
            }
            s = s + 1;
            assert(result@ =~= pair_list(n as int, s as int));
        }
        result
    }

    /// Moves every galaxy as if each empty column and row counted
    /// `expand_times` times, leaving the grid itself alone.
    pub fn expand_in_name(&mut self, expand_times: i128)
        requires
            old(self).fits(),
            -EXPAND_LIMIT <= expand_times <= EXPAND_LIMIT,
        ensures
            final(self).galaxy_coords() == grid_galaxies(old(self).grid(), old(self).grid().len() as int).map_values(
                |p: (int, int)|
                    expanded_point(
                        p,
                        empty_column_list(old(self).grid(), old(self).height as int, old(self).width as int),
                        empty_row_list(old(self).grid(), old(self).width as int, old(self).height as int),
                        expand_times as int,
                    ),
            ),
            final(self).array == old(self).array,
            final(self).width == old(self).width,
            final(self).height == old(self).height,
            forall|i: int| 0 <= i < final(self).galaxies@.len() ==>
                -(2147483646 * (abs(expand_times as int) + 1)) <= (#[trigger] final(self).galaxies@[i]).0 <= 2147483646 * (abs(expand_times as int) + 1)
                && -(2147483646 * (abs(expand_times as int) + 1)) <= final(self).galaxies@[i].1 <= 2147483646 * (abs(expand_times as int) + 1),
            final(self).galaxies@.len() <= 4 * MAX_SIDE * MAX_SIDE,
    {
        self.update_galaxies();
        let empty_columns = self.find_empty_columns();
        let empty_rows = self.find_empty_rows();
        let ghost cols = ints_view(empty_columns@);
        let ghost rows = ints_view(empty_rows@);
        let ghost olds = self.galaxy_coords();
        let mut new_galaxies: Vec<(i128, i128)> = Vec::new();
        let mut i: usize = 0;
        while i < self.galaxies.len()
            invariant
                i <= self.galaxies.len(),
                olds == self.galaxy_coords(),
                cols == ints_view(empty_columns@),
                rows == ints_view(empty_rows@),
                self.galaxies@.len() <= 4 * MAX_SIDE * MAX_SIDE,
                forall|j: int| 0 <= j < self.galaxies@.len() ==>
                    0 <= (#[trigger] self.galaxies@[j]).0 < 2 * MAX_SIDE
                    && 0 <= self.galaxies@[j].1 < 2 * MAX_SIDE,
                empty_columns@.len() <= 2 * MAX_SIDE,
                empty_rows@.len() <= 2 * MAX_SIDE,
                -EXPAND_LIMIT <= expand_times <= EXPAND_LIMIT,
                new_galaxies@.len() == i,
                forall|j: int| 0 <= j < i ==>
                    (coords_view(new_galaxies@)[j]) == #[trigger] expanded_point(
                        olds[j],
                        cols,
                        rows,
                        expand_times as int,
                    ),
                forall|j: int| 0 <= j < i ==>
                    -(2147483646 * (abs(expand_times as int) + 1)) <= (#[trigger] new_galaxies@[j]).0 <= 2147483646 * (abs(expand_times as int) + 1)
                    && -(2147483646 * (abs(expand_times as int) + 1)) <= new_galaxies@[j].1 <= 2147483646 * (abs(expand_times as int) + 1),
            decreases self.galaxies.len() - i,
        {
            let src = self.galaxies[i];
            proof {
                let t = expand_times as int;
                let cx = count_below(cols, src.0 as int);
                let cy = count_below(rows, src.1 as int);
                lemma_count_below_bounds(cols, src.0 as int);
                lemma_count_below_bounds(rows, src.1 as int);
                assert(-(2147483646 * abs(t)) <= cx * t <= 2147483646 * abs(t)) by (nonlinear_arith)
                    requires
                        0 <= cx <= 2147483646,
                        abs(t) == if t < 0 { -t } else { t },
                ;
                assert(-(2147483646 * abs(t)) <= cy * t <= 2147483646 * abs(t)) by (nonlinear_arith)
                    requires
                        0 <= cy <= 2147483646,
                        abs(t) == if t < 0 { -t } else { t },
                ;
                assert(2147483646 * abs(t) <= 2147483646 * 39614081257132168796771975168) by (nonlinear_arith)
                    requires
                        abs(t) <= 39614081257132168796771975168,
                ;
                assert(2147483646 * (abs(t) + 1) == 2147483646 * abs(t) + 2147483646);
            }
            let p = calculate_new_coord_after_expand(
                src,
                &empty_columns,
                &empty_rows,
                expand_times,
            );
            let ghost prev = new_galaxies@;
            new_galaxies.push(p);
            assert((p.0 as int, p.1 as int) == expanded_point((src.0 as int, src.1 as int), cols, rows, expand_times as int));
            assert(coords_view(new_galaxies@)[i as int] == (p.0 as int, p.1 as int));
            assert(olds[i as int] == (self.galaxies@[i as int].0 as int, self.galaxies@[i as int].1 as int));
            assert(coords_view(new_galaxies@)[i as int] == expanded_point(
                olds[i as int],
                cols,
                rows,
                expand_times as int,
            ));
            assert forall|j: int| 0 <= j < i implies coords_view(new_galaxies@)[j] == coords_view(prev)[j] by {}
            i = i + 1;
        }
        assert(coords_view(new_galaxies@) =~= olds.map_values(
            |p: (int, int)| expanded_point(p, cols, rows, expand_times as int),
        ));
        self.galaxies = new_galaxies;
    }

    /// Doubles every empty column and row of the grid, then numbers the
    /// galaxies again.
    pub fn expand(&mut self)
        requires
            old(self).fits(),
            old(self).height <= MAX_SIDE,
            old(self).width <= MAX_SIDE,
            forall|r: int| 0 <= r < old(self).array@.len() ==> (#[trigger] old(self).array@[r])@.len() == old(self).width,
        ensures
            final(self).grid() == grown_rows(
                old(self).grid(),
                old(self).width as int,
                old(self).height as int,
                old(self).height as int,
            ),
            final(self).width == old(self).width + empty_column_list(
                old(self).grid(),
                old(self).height as int,
                old(self).width as int,
            ).len(),
            final(self).height == old(self).height + empty_row_list(
                old(self).grid(),
                old(self).width as int,
                old(self).height as int,
            ).len(),
            final(self).galaxy_coords() == grid_galaxies(final(self).grid(), final(self).grid().len() as int),
            final(self).fits(),
            forall|i: int| 0 <= i < final(self).galaxies@.len() ==>
                0 <= (#[trigger] final(self).galaxies@[i]).0 < 2 * MAX_SIDE
                && 0 <= final(self).galaxies@[i].1 < 2 * MAX_SIDE,
            final(self).galaxies@.len() <= 4 * MAX_SIDE * MAX_SIDE,
    {
        let ghost g = self.grid();
        let ghost w = self.width as int;
        let ghost h = self.height as int;
        let empty_columns = self.find_empty_columns();
        let total_columns = self.width + empty_columns.len();
        let empty_rows = self.find_empty_rows();
        let total_rows = self.height + empty_rows.len();
        let mut array: Vec<Vec<char>> = Vec::new();
        let mut row: usize = 0;
        while row < self.height
            invariant
                self.fits(),
                g == self.grid(),
                w == self.width,
                h == self.height,
                self.height <= MAX_SIDE,
                self.width <= MAX_SIDE,
                forall|r: int| 0 <= r < self.array@.len() ==> (#[trigger] self.array@[r])@.len() == self.width,
                ints_view(empty_columns@) == empty_column_list(g, h, w),
                ints_view(empty_rows@) == empty_row_list(g, w, h),
                total_columns == w + empty_column_list(g, h, w).len(),
                total_columns <= 2 * MAX_SIDE,
                row <= self.height,
                array@.map_values(|v: Vec<char>| v@) == grown_rows(g, w, h, row as int),
                array@.len() <= 2 * row,
                forall|r: int| 0 <= r < array@.len() ==> (#[trigger] array@[r])@.len() <= 2 * MAX_SIDE,
            decreases self.height - row,
        {
            let ghost prev = array@.map_values(|v: Vec<char>| v@);
            let line = widen_line(&self.array[row], &empty_columns, Ghost(g), Ghost(h));
            assert(g[row as int] == self.array@[row as int]@);
            let ghost line_v = line@;
            let is_empty = holds(&empty_rows, row as i128);
            proof {
                lemma_empty_rows_contains(g, w, h, row as int);
            }
            if is_empty {
                let mut filler: Vec<char> = Vec::new();
                let mut k: usize = 0;
                while k < total_columns
                    invariant
                        k <= total_columns,
                        filler@ == dots(k as int),
                    decreases total_columns - k,
                {
                    filler.push('.');
                    k = k + 1;
                    assert(filler@ =~= dots(k as int));
                }
                array.push(filler);
                array.push(line);
                assert(array@.map_values(|v: Vec<char>| v@) =~= prev.push(dots(total_columns as int)).push(line_v));
            } else {
                array.push(line);
                assert(array@.map_values(|v: Vec<char>| v@) =~= prev.push(line_v));
            }
            row = row + 1;
        }
        self.array = array;
        self.width = total_columns;
        self.height = total_rows;
        proof {
            lemma_empty_rows_len(g, w, h);
        }
        assert(self.array@.len() == total_rows) by {
            lemma_grown_rows_len(g, w, h, h);
        }
        self.update_galaxies();
    }

    pub fn find_empty_columns(&self) -> (r: Vec<i128>)
        requires
            self.fits(),
        ensures
            ints_view(r@) == empty_column_list(
                self.grid(),
                self.height as int,
                self.width as int,
            ),
            r@.len() <= self.width,
            forall|i: int| 0 <= i < r@.len() ==> 0 <= #[trigger] r@[i] < self.width,
    {
        let ghost g = self.grid();
        let mut result: Vec<i128> = Vec::new();
        let mut column: usize = 0;
        while column < self.width
            invariant
                self.fits(),
                g == self.grid(),
                column <= self.width,
                ints_view(result@) == empty_column_list(
                    g,
                    self.height as int,
                    column as int,
                ),
                result@.len() <= column,
                forall|i: int| 0 <= i < result@.len() ==> 0 <= #[trigger] result@[i] < column,
            decreases self.width - column,
        {
            let mut empty = true;
            let mut row: usize = 0;
            while row < self.height
                invariant
                    self.fits(),
                    g == self.grid(),
                    row <= self.height,
                    empty ==> forall|r: int| 0 <= r < row ==> !#[trigger] is_galaxy_at(g, column as int, r),
                    !empty ==> !column_is_empty(g, column as int, self.height as int),
                decreases self.height - row,
            {
                if self.is_galaxy((column as i128, row as i128)) {
                    assert(is_galaxy_at(g, column as int, row as int));
                    empty = false;
                }
                row = row + 1;
            }
            if empty {
                result.push(column as i128);
            }
            column = column + 1;
            assert(ints_view(result@) =~= empty_column_list(
                g,
                self.height as int,
                column as int,
            ));
        }
        result
    }

    pub fn find_empty_rows(&self) -> (r: Vec<i128>)
        requires
            self.fits(),
        ensures
            ints_view(r@) == empty_row_list(
                self.grid(),
                self.width as int,
                self.height as int,
            ),
            r@.len() <= self.height,
            forall|i: int| 0 <= i < r@.len() ==> 0 <= #[trigger] r@[i] < self.height,
    {
        let ghost g = self.grid();
        let mut result: Vec<i128> = Vec::new();
        let mut row: usize = 0;
        while row < self.height
            invariant
                self.fits(),
                g == self.grid(),
                row <= self.height,
                ints_view(result@) == empty_row_list(
                    g,
                    self.width as int,
                    row as int,
                ),
                result@.len() <= row,
                forall|i: int| 0 <= i < result@.len() ==> 0 <= #[trigger] result@[i] < row,
            decreases self.height - row,
        {
            let mut empty = true;
            let mut column: usize = 0;
            while column < self.width
                invariant
                    self.fits(),
                    g == self.grid(),
                    column <= self.width,
                    empty ==> forall|c: int| 0 <= c < column ==> !#[trigger] is_galaxy_at(g, c, row as int),
                    !empty ==> !row_is_empty(g, row as int, self.width as int),
                decreases self.width - column,
            {
                if self.is_galaxy((column as i128, row as i128)) {
                    assert(is_galaxy_at(g, column as int, row as int));
                    empty = false;
                }
                column = column + 1;
            }
            if empty {
                result.push(row as i128);
            }
            row = row + 1;
            assert(ints_view(result@) =~= empty_row_list(
                g,
                self.width as int,
                row as int,
            ));
        }
        result
    }

    pub fn is_galaxy(&self, coord: (i128, i128)) -> (r: bool)
        ensures
            r == is_galaxy_at(self.grid(), coord.0 as int, coord.1 as int),
    {
        let (column, row) = coord;
        if 0 <= row && row < self.array.len() as i128 {
            let line = &self.array[row as usize];
            if 0 <= column && column < line.len() as i128 {
                return line[column as usize] == '#';
            }
        }
        false
    }
}

pub fn find_shortest_path(source: (i128, i128), target: (i128, i128)) -> (r: i128)
    requires
        abs(target.0 - source.0) + abs(target.1 - source.1) <= i128::MAX,
    ensures
        r == manhattan((source.0 as int, source.1 as int), (target.0 as int, target.1 as int)),
{
    let (x1, y1) = source;
    let (x2, y2) = target;
    let diff_x = x2 - x1;
    let diff_y = y2 - y1;
    let ax = if diff_x < 0 {
        -diff_x
    } else {
        diff_x
    };
    let ay = if diff_y < 0 {
        -diff_y
    } else {
        diff_y
    };
    ax + ay
}

pub proof fn lemma_push_contains(p: Seq<int>, x: int, c: int)
    ensures
        p.push(x).contains(c) <==> (p.contains(c) || x == c),
{
    if p.push(x).contains(c) {
        let k = choose|k: int| 0 <= k < p.len() + 1 && #[trigger] p.push(x)[k] == c;
        if k < p.len() {
            assert(p[k] == c);
        }
    }
    if p.contains(c) {
        let k = choose|k: int| 0 <= k < p.len() && #[trigger] p[k] == c;
        assert(p.push(x)[k] == c);
    }
    if x == c {
        assert(p.push(x)[p.len() as int] == c);
    }
}

pub proof fn lemma_empty_columns_contains(g: Seq<Seq<char>>, h: int, n: int, c: int)
    requires
        0 <= c < n,
    ensures
        empty_column_list(g, h, n).contains(c) <==> column_is_empty(g, c, h),
    decreases n,
{
    lemma_empty_columns_below(g, h, n - 1);
    let p = empty_column_list(g, h, n - 1);
    if c < n - 1 {
        lemma_empty_columns_contains(g, h, n - 1, c);
        if column_is_empty(g, n - 1, h) {
            lemma_push_contains(p, n - 1, c);
        }
    } else {
        if column_is_empty(g, n - 1, h) {
            lemma_push_contains(p, n - 1, c);
        } else {
            assert(!p.contains(c));
        }
    }
}

pub proof fn lemma_empty_columns_below(g: Seq<Seq<char>>, h: int, n: int)
    ensures
        forall|i: int| 0 <= i < empty_column_list(g, h, n).len() ==> #[trigger] empty_column_list(g, h, n)[i] < n,
    decreases n,
{
    if n > 0 {
        lemma_empty_columns_below(g, h, n - 1);
        let p = empty_column_list(g, h, n - 1);
        assert forall|i: int| 0 <= i < empty_column_list(g, h, n).len() implies #[trigger] empty_column_list(g, h, n)[i] < n by {
            if i < p.len() {
                assert(p[i] < n - 1);
            }
        }
    }
}

pub proof fn lemma_empty_rows_contains(g: Seq<Seq<char>>, w: int, n: int, r: int)
    requires
        0 <= r < n,
    ensures
        empty_row_list(g, w, n).contains(r) <==> row_is_empty(g, r, w),
    decreases n,
{
    lemma_empty_rows_below(g, w, n - 1);
    let p = empty_row_list(g, w, n - 1);
    if r < n - 1 {
        lemma_empty_rows_contains(g, w, n - 1, r);
        if row_is_empty(g, n - 1, w) {
            lemma_push_contains(p, n - 1, r);
        }
    } else {
        if row_is_empty(g, n - 1, w) {
            lemma_push_contains(p, n - 1, r);
        } else {
            assert(!p.contains(r));
        }
    }
}

pub proof fn lemma_empty_rows_below(g: Seq<Seq<char>>, w: int, n: int)
    ensures
        forall|i: int| 0 <= i < empty_row_list(g, w, n).len() ==> #[trigger] empty_row_list(g, w, n)[i] < n,
    decreases n,
{
    if n > 0 {
        lemma_empty_rows_below(g, w, n - 1);
        let p = empty_row_list(g, w, n - 1);
        assert forall|i: int| 0 <= i < empty_row_list(g, w, n).len() implies #[trigger] empty_row_list(g, w, n)[i] < n by {
            if i < p.len() {
                assert(p[i] < n - 1);
            }
        }
    }
}

pub proof fn lemma_empty_rows_len(g: Seq<Seq<char>>, w: int, n: int)
    requires
        n >= 0,
    ensures
        empty_row_list(g, w, n).len() <= n,
    decreases n,
{
    if n > 0 {
        lemma_empty_rows_len(g, w, n - 1);
    }
}

pub proof fn lemma_grown_rows_len(g: Seq<Seq<char>>, w: int, h: int, n: int)
    requires
        n >= 0,
    ensures
        grown_rows(g, w, h, n).len() == n + empty_row_list(g, w, n).len(),
    decreases n,
{
    if n > 0 {
        lemma_grown_rows_len(g, w, h, n - 1);
    }
}

/// Whether `x` is one of `v`.
fn holds(v: &Vec<i128>, x: i128) -> (r: bool)
    ensures
        r == ints_view(v@).contains(x as int),
{
    let mut i: usize = 0;
    while i < v.len()
        invariant
            i <= v.len(),
            forall|j: int| 0 <= j < i ==> v@[j] != x,
        decreases v.len() - i,
    {
        if v[i] == x {
            assert(ints_view(v@)[i as int] == x as int);
            return true;
        }
        i = i + 1;
    }
    assert(!ints_view(v@).contains(x as int)) by {
        if ints_view(v@).contains(x as int) {
            let k = choose|k: int| 0 <= k < v@.len() && ints_view(v@)[k] == x as int;
            assert(v@[k] == x);
        }
    }
    false
}

/// A row with a '.' put in front of each character of an empty column.
fn widen_line(line: &Vec<char>, empty_columns: &Vec<i128>, g: Ghost<Seq<Seq<char>>>, h: Ghost<int>) -> (r: Vec<char>)
    requires
        ints_view(empty_columns@) == empty_column_list(g@, h@, line@.len() as int),
        line@.len() <= MAX_SIDE,
    ensures
        r@ == widened_row(line@, g@, h@, line@.len() as int),
        r@.len() <= 2 * line@.len(),
{
    let mut out: Vec<char> = Vec::new();
    let mut c: usize = 0;
    while c < line.len()
        invariant
            c <= line.len(),
            line@.len() <= MAX_SIDE,
            ints_view(empty_columns@) == empty_column_list(g@, h@, line@.len() as int),
            out@ == widened_row(line@, g@, h@, c as int),
            out@.len() <= 2 * c,
        decreases line.len() - c,
    {
        proof {
            lemma_empty_columns_contains(g@, h@, line@.len() as int, c as int);
        }
        if holds(empty_columns, c as i128) {
            out.push('.');
        }
        out.push(line[c]);
        c = c + 1;
    }
    out
}

/// The sum of the distances between the galaxies of every numbered pair.
fn total_distance(universe: &Universe) -> (r: i128)
    requires
        universe.galaxies@.len() < i32::MAX,
        forall|i: int| 0 <= i < universe.galaxies@.len() ==>
            -COORD_BOUND <= (#[trigger] universe.galaxies@[i]).0 <= COORD_BOUND
            && -COORD_BOUND <= universe.galaxies@[i].1 <= COORD_BOUND,
    ensures
        r == pair_sum(
            pair_list(universe.galaxies@.len() as int, universe.galaxies@.len() as int),
            universe.galaxy_coords(),
        ),
{
    let pairs = universe.get_galaxy_pairs();
    let ghost gs = universe.galaxy_coords();
    let mut sum: i128 = 0;
    let mut k: usize = 0;
    while k < pairs.len()
        invariant
            gs == universe.galaxy_coords(),
            forall|i: int| 0 <= i < universe.galaxies@.len() ==>
                -COORD_BOUND <= (#[trigger] universe.galaxies@[i]).0 <= COORD_BOUND
                && -COORD_BOUND <= universe.galaxies@[i].1 <= COORD_BOUND,
            k <= pairs.len(),
            sum == pair_sum(pairs@.take(k as int), gs),
            0 <= sum <= k * 4611686018427387904,
        decreases pairs.len() - k,
    {
        let (s, t) = pairs[k];
        let mut d: i128 = 0;
        if let Some(source) = universe.get_galaxy_coordinate(s) {
            if let Some(target) = universe.get_galaxy_coordinate(t) {
                d = find_shortest_path(source, target);
            }
        }
        assert(d == pair_distance(pairs@[k as int], gs));
        assert(pairs@.take(k + 1).drop_last() =~= pairs@.take(k as int));
        sum = sum + d;
        k = k + 1;
    }
    assert(pairs@.take(pairs.len() as int) =~= pairs@);
    sum
}

/// How many of `v` are below `x`.
fn count_below_exec(v: &Vec<i128>, x: i128) -> (r: i128)
    ensures
        r == count_below(ints_view(v@), x as int),
        0 <= r <= v@.len(),
{
    let ghost s = ints_view(v@);
    let mut n: i128 = 0;
    let mut i: usize = 0;
    while i < v.len()
        invariant
            i <= v.len(),
            s == ints_view(v@),
            n == count_below(s.take(i as int), x as int),
            0 <= n <= i,
        decreases v.len() - i,
    {
        assert(s.take(i + 1).drop_last() =~= s.take(i as int));
        if v[i] < x {
            n = n + 1;
        }
        i = i + 1;
    }
    assert(s.take(v.len() as int) =~= s);
    n
}

pub fn calculate_new_coord_after_expand(
    source: (i128, i128),
    empty_columns: &Vec<i128>,
    empty_rows: &Vec<i128>,
    expand_times: i128,
) -> (r: (i128, i128))
    requires
        axis_fits(source.0 as int, count_below(ints_view(empty_columns@), source.0 as int), expand_times as int),
        axis_fits(source.1 as int, count_below(ints_view(empty_rows@), source.1 as int), expand_times as int),
    ensures
        (r.0 as int, r.1 as int) == expanded_point(
            (source.0 as int, source.1 as int),
            ints_view(empty_columns@),
            ints_view(empty_rows@),
            expand_times as int,
        ),
{
    let multiply_columns = count_below_exec(empty_columns, source.0);
    let multiply_rows = count_below_exec(empty_rows, source.1);
    let x = source.0 - multiply_columns;
    let y = source.1 - multiply_rows;
    let dx = multiply_columns * expand_times;
    let dy = multiply_rows * expand_times;
    (x + dx, y + dy)
}

/// The rows of the input, its width (the length of the last row) and its height.
pub fn parse_input(input: &Vec<&str>) -> (r: (Vec<Vec<char>>, usize, usize))
    requires
        lines_fit(lines_view(input@)),
    ensures
        r.0@.map_values(|w: Vec<char>| w@) == lines_view(input@),
        r.1 == last_width(lines_view(input@)),
        r.2 == input.len(),
        r.1 <= MAX_SIDE,
        forall|i: int| 0 <= i < r.0@.len() ==> (#[trigger] r.0@[i])@.len() <= MAX_SIDE,
{
    let height = input.len();
    let mut width: usize = 0;
    let mut array: Vec<Vec<char>> = Vec::new();
    let mut row: usize = 0;
    while row < input.len()
        invariant
            row <= input.len(),
            array@.map_values(|w: Vec<char>| w@) == lines_view(input@).take(row as int),
            row == 0 ==> width == 0,
            row > 0 ==> width == input@[row - 1]@.len(),
            width <= MAX_SIDE,
            lines_fit(lines_view(input@)),
            forall|i: int| 0 <= i < array@.len() ==> (#[trigger] array@[i])@.len() <= MAX_SIDE,
        decreases input.len() - row,
    {
        let line = crate::text::chars_of(input[row]);
        assert(lines_view(input@)[row as int] == input@[row as int]@);
        width = line.len();
        let ghost prev = array@.map_values(|w: Vec<char>| w@);
        let ghost line_v = line@;
        array.push(line);
        assert(array@.map_values(|w: Vec<char>| w@) =~= prev.push(line_v));
        assert(lines_view(input@).take(row + 1) =~= lines_view(input@).take(row as int).push(line_v));
        row = row + 1;
        assert(array@.map_values(|w: Vec<char>| w@) =~= lines_view(input@).take(row as int));
    }
    assert(lines_view(input@).take(row as int) =~= lines_view(input@));
    (array, width, height)
}

} // verus!
