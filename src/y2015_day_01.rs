//! Not quite Lisp: `(` goes up a floor and `)` down one; where does Santa end,
//! and when does he first reach the basement?
use crate::clock::{decimal_i128, decimal_of, elapsed_since, nanos_of, start_clock};
use crate::text::{chars_of, lines_spec, lines_view, split_lines};
use vstd::prelude::*;

verus! {

#[derive(Clone, Copy, PartialEq, Eq, Structural, Debug)]
pub enum Direction {
    UP,
    DOWN,
}

/// The moves of a line: `(` up, `)` down, other characters ignored.
pub open spec fn moves_of(s: Seq<char>) -> Seq<Direction>
    decreases s.len(),
{
    if s.len() == 0 {
        Seq::empty()
    } else {
        let p = moves_of(s.drop_last());
        if s.last() == '(' {
            p.push(Direction::UP)
        } else if s.last() == ')' {
            p.push(Direction::DOWN)
        } else {
            p
        }
    }
}

pub open spec fn count_of(m: Seq<Direction>, d: Direction) -> int
    decreases m.len(),
{
    if m.len() == 0 {
        0
    } else {
        count_of(m.drop_last(), d) + if m.last() == d {
            1int
        } else {
            0int
        }
    }
}

/// The floor after the first `k` moves.
pub open spec fn floor_after(m: Seq<Direction>, k: int) -> int {
    count_of(m.take(k), Direction::UP) - count_of(m.take(k), Direction::DOWN)
}

/// `k` is the first move after which the floor is below 0.
pub open spec fn first_basement(m: Seq<Direction>, k: int) -> bool {
    &&& 1 <= k <= m.len()
    &&& floor_after(m, k) < 0
    &&& forall|j: int| 1 <= j < k ==> floor_after(m, j) >= 0
}

pub open spec fn never_basement(m: Seq<Direction>) -> bool {
    forall|j: int| 1 <= j <= m.len() ==> floor_after(m, j) >= 0
}

pub proof fn lemma_count_bound(m: Seq<Direction>, d: Direction)
    ensures
        0 <= count_of(m, d) <= m.len(),
    decreases m.len(),
{
    if m.len() > 0 {
        lemma_count_bound(m.drop_last(), d);
    }
}

/// The counts of up and down moves of the first line, and its moves.
pub fn parsing(lines: &Vec<&str>) -> (r: (i32, i32, Vec<Direction>))
    requires
        lines@.len() >= 1,
        lines@[0]@.len() <= i32::MAX,
    ensures
        r.2@ == moves_of(lines@[0]@),
        r.0 == count_of(r.2@, Direction::UP),
        r.1 == count_of(r.2@, Direction::DOWN),
{
    let s = chars_of(lines[0]);
    let mut total_up: i32 = 0;
    let mut total_down: i32 = 0;
    let mut order: Vec<Direction> = Vec::new();
    let mut i: usize = 0;
    while i < s.len()
        invariant
            s@ == lines@[0]@,
            s@.len() <= i32::MAX,
            i <= s.len(),
            order@ == moves_of(s@.take(i as int)),
            total_up == count_of(order@, Direction::UP),
            total_down == count_of(order@, Direction::DOWN),
            order@.len() <= i,
        decreases s.len() - i,
    {
        assert(s@.take(i + 1).drop_last() =~= s@.take(i as int));
        proof {
            lemma_count_bound(order@, Direction::UP);
            lemma_count_bound(order@, Direction::DOWN);
        }
        let c = s[i];
        if c == '(' {
            total_up = total_up + 1;
            order.push(Direction::UP);
            assert(order@.drop_last() =~= moves_of(s@.take(i as int)));
        } else if c == ')' {
            total_down = total_down + 1;
            order.push(Direction::DOWN);
            assert(order@.drop_last() =~= moves_of(s@.take(i as int)));
        }
        i = i + 1;
    }
    assert(s@.take(s.len() as int) =~= s@);
    (total_up, total_down, order)
}

/// The first move after which the floor is below 0; `None` where there is
/// no such move.
pub fn processing(move_orders: &Vec<Direction>) -> (r: Option<usize>)
    ensures
        r matches Some(k) ==> first_basement(move_orders@, k as int),
        r is None ==> never_basement(move_orders@),
{
    let ghost m = move_orders@;
    let mut floor: i128 = 0;
    let mut index: usize = 0;
    while index < move_orders.len()
        invariant
            m == move_orders@,
            index <= m.len(),
            floor == floor_after(m, index as int),
            -(index as int) <= floor <= index,
            forall|j: int| 1 <= j <= index ==> floor_after(m, j) >= 0,
        decreases m.len() - index,
    {
        assert(m.take(index + 1).drop_last() =~= m.take(index as int));
        match move_orders[index] {
            Direction::UP => {
                floor = floor + 1;
            },
            Direction::DOWN => {
                floor = floor - 1;
                if floor < 0 {
                    return Some(index + 1);
                }
            },
        }
        index = index + 1;
    }
    None
}

pub struct Day01 {}

impl Day01 {
    /// Solves both parts on the text of a puzzle input, with the time each
    /// took; `None` where there is no line, the line is too long, or Santa
    /// never reaches the basement.
    pub fn run(input: &str) -> (r: Option<(String, String, String, u128, u128)>)
        ensures
            r is Some <==> lines_spec(input@).len() >= 1 && lines_spec(input@)[0].len() <= i32::MAX
                && !never_basement(moves_of(lines_spec(input@)[0])),
            r matches Some(t) ==> lines_spec(input@).len() >= 1 && t.0@ == "Day_01"@ && t.1@ == decimal_of(
                floor_after(moves_of(lines_spec(input@)[0]), moves_of(lines_spec(input@)[0]).len() as int),
            ) && (exists|k: int| first_basement(moves_of(lines_spec(input@)[0]), k) && t.2@ == decimal_of(k)),
    {
        let lines = split_lines(input);
        if lines.len() == 0 || lines[0].unicode_len() > i32::MAX as usize {
            return None;
        }
        assert(lines_view(lines@)[0] == lines@[0]@);
        let start_1 = start_clock();
        let result_1 = Day01::part_01(&lines);
        let time_calculation_1 = elapsed_since(&start_1);
        let start_2 = start_clock();
        let result_2 = Day01::part_02(&lines);
        let time_calculation_2 = elapsed_since(&start_2);
        proof {
            if result_2 is Some {
                let k = result_2->Some_0 as int;
                let m = moves_of(lines@[0]@);
                assert(first_basement(m, k));
                assert(!never_basement(m)) by {
                    assert(floor_after(m, k) < 0);
                }
            }
        }
        match result_2 {
            Some(b) => Some(
                (
                    "Day_01".to_owned(),
                    decimal_i128(result_1 as i128),
                    decimal_i128(b as i128),
                    nanos_of(&time_calculation_1),
                    nanos_of(&time_calculation_2),
                ),
            ),
            None => None,
        }
    }

    /// The floor Santa ends on.
    pub fn part_01(lines: &Vec<&str>) -> (r: i32)
        requires
            lines@.len() >= 1,
            lines@[0]@.len() <= i32::MAX,
        ensures
            r == floor_after(moves_of(lines@[0]@), moves_of(lines@[0]@).len() as int),
    {
        let (total_ups, total_downs, moves) = parsing(lines);
        assert(moves@.take(moves@.len() as int) =~= moves@);
        proof {
            lemma_count_bound(moves@, Direction::UP);
            lemma_count_bound(moves@, Direction::DOWN);
        }
        total_ups - total_downs
    }

    /// The first move that takes Santa below the ground floor.
    pub fn part_02(lines: &Vec<&str>) -> (r: Option<i32>)
        requires
            lines@.len() >= 1,
            lines@[0]@.len() <= i32::MAX,
        ensures
            r matches Some(k) ==> first_basement(moves_of(lines@[0]@), k as int),
            r is None ==> never_basement(moves_of(lines@[0]@)),
    {
        let (_, _, move_orders) = parsing(lines);
        proof {
            lemma_moves_len(lines@[0]@);
        }
        match processing(&move_orders) {
            Some(k) => Some(k as i32),
            None => None,
        }
    }
}

pub proof fn lemma_moves_len(s: Seq<char>)
    ensures
        moves_of(s).len() <= s.len(),
    decreases s.len(),
{
    if s.len() > 0 {
        lemma_moves_len(s.drop_last());
    }
}

} // verus!
