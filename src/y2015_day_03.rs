//! Perfectly spherical houses in a vacuum: moves on a grid of houses, and how
//! many houses get at least one present.
use crate::clock::{decimal_i128, decimal_of, elapsed_since, nanos_of, start_clock};
use crate::text::{chars_of, lines_spec, lines_view, split_lines};
use vstd::prelude::*;

verus! {

/// Largest number of moves handled; positions are `i32`.
pub const MAX_MOVES: usize = 2147483646;

#[derive(Clone, Copy, PartialEq, Eq, Structural, Debug)]
pub enum Direction {
    Up,
    Down,
    Left,
    Right,
    Stay,
}

pub open spec fn direction_of(c: char) -> Direction {
    if c == '^' {
        Direction::Up
    } else if c == 'v' {
        Direction::Down
    } else if c == '<' {
        Direction::Left
    } else if c == '>' {
        Direction::Right
    } else {
        Direction::Stay
    }
}

pub open spec fn step(p: (int, int), d: Direction) -> (int, int) {
    match d {
        Direction::Up => (p.0, p.1 - 1),
        Direction::Down => (p.0, p.1 + 1),
        Direction::Left => (p.0 - 1, p.1),
        Direction::Right => (p.0 + 1, p.1),
        Direction::Stay => p,
    }
}

/// The houses visited, the first one included, after the first `k` moves.
pub open spec fn visits(ds: Seq<Direction>, k: int) -> Seq<(int, int)>
    decreases k,
{
    if k <= 0 {
        seq![(0, 0)]
    } else {
        let v = visits(ds, k - 1);
        v.push(step(v.last(), ds[k - 1]))
    }
}

pub open spec fn index_in(t: Seq<((int, int), int)>, p: (int, int)) -> int
    decreases t.len(),
{
    if t.len() == 0 {
        -1
    } else if t.last().0 == p {
        t.len() - 1
    } else {
        index_in(t.drop_last(), p)
    }
}

/// Each house visited, in order of first visit, with its number of visits.
pub open spec fn presents(ps: Seq<(int, int)>) -> Seq<((int, int), int)>
    decreases ps.len(),
{
    if ps.len() == 0 {
        Seq::empty()
    } else {
        let t = presents(ps.drop_last());
        let i = index_in(t, ps.last());
        if i >= 0 {
            t.update(i, (ps.last(), t[i].1 + 1))
        } else {
            t.push((ps.last(), 1))
        }
    }
}

/// How many houses of `t2` are not houses of `t1`.
pub open spec fn new_houses(t1: Seq<((int, int), int)>, t2: Seq<((int, int), int)>) -> int
    decreases t2.len(),
{
    if t2.len() == 0 {
        0
    } else {
        new_houses(t1, t2.drop_last()) + if index_in(t1, t2.last().0) < 0 {
            1int
        } else {
            0int
        }
    }
}

/// Every other move, starting with the move at `start`.
pub open spec fn alternate(ds: Seq<Direction>, start: int) -> Seq<Direction> {
    Seq::new(((ds.len() - start + 1) / 2) as nat, |k: int| ds[start + 2 * k])
}

pub open spec fn house_table_view(t: Seq<((i32, i32), i32)>) -> Seq<((int, int), int)> {
    t.map_values(|e: ((i32, i32), i32)| ((e.0.0 as int, e.0.1 as int), e.1 as int))
}

pub proof fn lemma_index_in(t: Seq<((int, int), int)>, p: (int, int))
    ensures
        -1 <= index_in(t, p) < t.len(),
        index_in(t, p) >= 0 ==> t[index_in(t, p)].0 == p,
    decreases t.len(),
{
    if t.len() > 0 {
        lemma_index_in(t.drop_last(), p);
    }
}

pub proof fn lemma_visits_len(ds: Seq<Direction>, k: int)
    requires
        k >= 0,
    ensures
        visits(ds, k).len() == k + 1,
    decreases k,
{
    if k > 0 {
        lemma_visits_len(ds, k - 1);
    }
}

pub proof fn lemma_presents_bound(ps: Seq<(int, int)>)
    ensures
        presents(ps).len() <= ps.len(),
        forall|i: int| 0 <= i < presents(ps).len() ==> 1 <= #[trigger] presents(ps)[i].1 <= ps.len(),
    decreases ps.len(),
{
    if ps.len() > 0 {
        lemma_presents_bound(ps.drop_last());
        lemma_index_in(presents(ps.drop_last()), ps.last());
    }
}

fn index_in_exec(t: &Vec<((i32, i32), i32)>, p: (i32, i32)) -> (r: Option<usize>)
    ensures
        r is None ==> index_in(house_table_view(t@), (p.0 as int, p.1 as int)) < 0,
        r matches Some(i) ==> i as int == index_in(house_table_view(t@), (p.0 as int, p.1 as int)),
{
    let ghost tv = house_table_view(t@);
    let mut i: usize = t.len();
    assert(tv.take(i as int) =~= tv);
    while i > 0
        invariant
            tv == house_table_view(t@),
            i <= t.len(),
            index_in(tv, (p.0 as int, p.1 as int)) == index_in(tv.take(i as int), (p.0 as int, p.1 as int)),
        decreases i,
    {
        assert(tv.take(i as int).drop_last() =~= tv.take(i - 1));
        if t[i - 1].0.0 == p.0 && t[i - 1].0.1 == p.1 {
            return Some(i - 1);
        }
        i = i - 1;
    }
    None
}

/// The number of houses visited, and each house with its visits.
pub fn delivery(directions: &Vec<Direction>) -> (r: (usize, Vec<((i32, i32), i32)>))
    requires
        directions@.len() <= MAX_MOVES,
    ensures
        house_table_view(r.1@) == presents(visits(directions@, directions@.len() as int)),
        r.0 == r.1@.len(),
{
    let ghost ds = directions@;
    let mut presents_count: Vec<((i32, i32), i32)> = Vec::new();
    let mut position: (i32, i32) = (0, 0);
    presents_count.push((position, 1));
    assert(house_table_view(presents_count@) =~= presents(visits(ds, 0))) by {
        let v0 = visits(ds, 0);
        assert(v0 =~= seq![(0int, 0int)]);
        assert(v0.drop_last() =~= Seq::<(int, int)>::empty());
        assert(presents(v0.drop_last()) =~= Seq::<((int, int), int)>::empty());
        assert(presents(v0) =~= seq![((0int, 0int), 1int)]);
    }
    let mut k: usize = 0;
    while k < directions.len()
        invariant
            ds == directions@,
            ds.len() <= MAX_MOVES,
            k <= ds.len(),
            (position.0 as int, position.1 as int) == visits(ds, k as int).last(),
            -(k as int) <= position.0 <= k,
            -(k as int) <= position.1 <= k,
            house_table_view(presents_count@) == presents(visits(ds, k as int)),
            visits(ds, k as int).len() == k + 1,
        decreases ds.len() - k,
    {
        let ghost before = house_table_view(presents_count@);
        proof {
            lemma_presents_bound(visits(ds, k as int));
        }
        match directions[k] {
            Direction::Up => position.1 = position.1 - 1,
            Direction::Down => position.1 = position.1 + 1,
            Direction::Left => position.0 = position.0 - 1,
            Direction::Right => position.0 = position.0 + 1,
            Direction::Stay => {},
        }
        let ghost vs = visits(ds, k + 1);
        assert(vs.drop_last() == visits(ds, k as int));
        assert(vs.last() == (position.0 as int, position.1 as int));
        proof {
            lemma_index_in(before, vs.last());
        }
        match index_in_exec(&presents_count, position) {
            Some(i) => {
                let count = presents_count[i].1;
                presents_count.set(i, (position, count + 1));
                assert(house_table_view(presents_count@) =~= before.update(i as int, (vs.last(), before[i as int].1 + 1)));
            },
            None => {
                presents_count.push((position, 1));
                assert(house_table_view(presents_count@) =~= before.push((vs.last(), 1)));
            },
        }
        k = k + 1;
    }
    let n = presents_count.len();
    (n, presents_count)
}

/// The moves of the first line.
pub fn parsing(lines: &Vec<&str>) -> (r: Vec<Direction>)
    requires
        lines@.len() >= 1,
    ensures
        r@ == lines@[0]@.map_values(|c: char| direction_of(c)),
{
    let s = chars_of(lines[0]);
    let mut r: Vec<Direction> = Vec::new();
    let mut i: usize = 0;
    while i < s.len()
        invariant
            s@ == lines@[0]@,
            i <= s.len(),
            r@ == s@.take(i as int).map_values(|c: char| direction_of(c)),
        decreases s.len() - i,
    {
        let c = s[i];
        let d = if c == '^' {
            Direction::Up
        } else if c == 'v' {
            Direction::Down
        } else if c == '<' {
            Direction::Left
        } else if c == '>' {
            Direction::Right
        } else {
            Direction::Stay
        };
        r.push(d);
        i = i + 1;
        assert(r@ =~= s@.take(i as int).map_values(|c: char| direction_of(c)));
    }
    assert(s@.take(s.len() as int) =~= s@);
    r
}

pub open spec fn moves_of(g: Seq<Seq<char>>) -> Seq<Direction> {
    g[0].map_values(|c: char| direction_of(c))
}

pub open spec fn houses_alone(ds: Seq<Direction>) -> int {
    presents(visits(ds, ds.len() as int)).len() as int
}

pub open spec fn houses_with_robot(ds: Seq<Direction>) -> int {
    let a = alternate(ds, 0);
    let b = alternate(ds, 1);
    let t1 = presents(visits(a, a.len() as int));
    let t2 = presents(visits(b, b.len() as int));
    t1.len() + new_houses(t1, t2)
}

pub struct Day03 {}

impl Day03 {
    /// How many houses Santa visits.
    pub fn part_01(lines: &Vec<&str>) -> (r: usize)
        requires
            lines@.len() >= 1,
            lines@[0]@.len() <= MAX_MOVES,
        ensures
            r == houses_alone(lines@[0]@.map_values(|c: char| direction_of(c))),
    {
        let directions = parsing(lines);
        delivery(&directions).0
    }

    /// How many houses Santa and the robot visit, taking turns at the moves.
    pub fn part_02(lines: &Vec<&str>) -> (r: usize)
        requires
            lines@.len() >= 1,
            lines@[0]@.len() <= MAX_MOVES,
        ensures
            r == houses_with_robot(lines@[0]@.map_values(|c: char| direction_of(c))),
    {
        let directions = parsing(lines);
        let ghost ds = directions@;
        let mut first_directions: Vec<Direction> = Vec::new();
        let mut second_directions: Vec<Direction> = Vec::new();
        let mut index: usize = 0;
        while index < directions.len()
            invariant
                ds == directions@,
                ds.len() <= MAX_MOVES,
                index <= ds.len(),
                first_directions@.len() == (index + 1) / 2,
                second_directions@.len() == index / 2,
                forall|k: int| 0 <= k < first_directions@.len() ==> #[trigger] first_directions@[k] == ds[2 * k],
                forall|k: int| 0 <= k < second_directions@.len() ==> #[trigger] second_directions@[k] == ds[2 * k + 1],
            decreases ds.len() - index,
        {
            if index % 2 == 0 {
                first_directions.push(directions[index]);
            } else {
                second_directions.push(directions[index]);
            }
            index = index + 1;
        }
        assert(first_directions@ =~= alternate(ds, 0));
        assert(second_directions@ =~= alternate(ds, 1));
        let (_, first_result) = delivery(&first_directions);
        let (_, second_result) = delivery(&second_directions);
        let ghost t1 = house_table_view(first_result@);
        let ghost t2 = house_table_view(second_result@);
        proof {
            lemma_presents_bound(visits(alternate(ds, 0), alternate(ds, 0).len() as int));
            lemma_visits_len(alternate(ds, 0), alternate(ds, 0).len() as int);
            lemma_presents_bound(visits(alternate(ds, 1), alternate(ds, 1).len() as int));
            lemma_visits_len(alternate(ds, 1), alternate(ds, 1).len() as int);
        }
        let mut total = first_result.len();
        let mut k: usize = 0;
        while k < second_result.len()
            invariant
                t1 == house_table_view(first_result@),
                t2 == house_table_view(second_result@),
                first_result@.len() <= MAX_MOVES + 1,
                second_result@.len() <= MAX_MOVES + 1,
                k <= second_result.len(),
                total == t1.len() + new_houses(t1, t2.take(k as int)),
                total <= t1.len() + k,
            decreases second_result.len() - k,
        {
            assert(t2.take(k + 1).drop_last() =~= t2.take(k as int));
            let house = second_result[k].0;
            assert(t2.take(k + 1).last().0 == (house.0 as int, house.1 as int));
            if index_in_exec(&first_result, house).is_none() {
                total = total + 1;
            }
            k = k + 1;
        }
        assert(t2.take(second_result.len() as int) =~= t2);
        total
    }

    /// Solves both parts on the text of a puzzle input, with the time each
    /// took; `None` where there is no line or it is too long.
    pub fn run(input: &str) -> (r: Option<(String, String, String, u128, u128)>)
        ensures
            r is Some <==> lines_spec(input@).len() >= 1 && lines_spec(input@)[0].len() <= MAX_MOVES,
            r matches Some(t) ==> t.0@ == "Day_03"@ && t.1@ == decimal_of(houses_alone(moves_of(lines_spec(input@))))
                && t.2@ == decimal_of(houses_with_robot(moves_of(lines_spec(input@)))),
    {
        let lines = split_lines(input);
        if lines.len() == 0 {
            return None;
        }
        assert(lines_view(lines@)[0] == lines@[0]@);
        if lines[0].unicode_len() > MAX_MOVES {
            return None;
        }
        let start_1 = start_clock();
        let result_1 = Day03::part_01(&lines);
        let time_calculation_1 = elapsed_since(&start_1);
        let start_2 = start_clock();
        let result_2 = Day03::part_02(&lines);
        let time_calculation_2 = elapsed_since(&start_2);
        Some(
            (
                "Day_03".to_owned(),
                decimal_i128(result_1 as i128),
                decimal_i128(result_2 as i128),
                nanos_of(&time_calculation_1),
                nanos_of(&time_calculation_2),
            ),
        )
    }
}

} // verus!
