//! Calorie counting: elves carry food items, one calorie count per line and a
//! blank line between elves; the answers are the largest totals.
use crate::clock::{decimal_i128, decimal_of, elapsed_since, nanos_of, start_clock};
use crate::text::{chars_of, lines_spec, lines_view, parse_signed, signed_value, split_lines};
use vstd::prelude::*;

verus! {

/// A line's calories; a line that is no `i32` counts 0.
pub open spec fn calories_of(line: Seq<char>) -> int {
    match signed_value(line) {
        Some(v) => if i32::MIN <= v <= i32::MAX {
            v
        } else {
            0
        },
        None => 0,
    }
}

/// The totals of the elves whose lists end among the first `k` lines, and the
/// running total of the elf still being read; `None` where a total leaves `i32`.
pub open spec fn totals_upto(g: Seq<Seq<char>>, k: int) -> Option<(Seq<int>, int)>
    decreases k,
{
    if k <= 0 {
        Some((Seq::empty(), 0))
    } else {
        match totals_upto(g, k - 1) {
            Some((done, running)) => if g[k - 1].len() == 0 {
                Some((done.push(running), 0))
            } else {
                let t = running + calories_of(g[k - 1]);
                if i32::MIN <= t <= i32::MAX {
                    Some((done, t))
                } else {
                    None
                }
            },
            None => None,
        }
    }
}

/// The total of every elf, the last one included.
pub open spec fn elf_totals(g: Seq<Seq<char>>) -> Option<Seq<int>> {
    match totals_upto(g, g.len() as int) {
        Some((done, running)) => Some(done.push(running)),
        None => None,
    }
}

/// The three largest values (fewer where there are fewer), largest first.
pub open spec fn top_three(s: Seq<int>) -> Seq<int>
    decreases s.len(),
{
    if s.len() == 0 {
        Seq::empty()
    } else {
        insert_top(top_three(s.drop_last()), s.last())
    }
}

/// Puts `x` among the largest values kept, keeping at most three.
pub open spec fn insert_top(t: Seq<int>, x: int) -> Seq<int> {
    let placed = if t.len() >= 1 && x <= t[0] {
        if t.len() >= 2 && x <= t[1] {
            if t.len() >= 3 && x <= t[2] {
                t
            } else {
                t.take(2).push(x)
            }
        } else {
            seq![t[0], x] + t.skip(1)
        }
    } else {
        seq![x] + t
    };
    if placed.len() > 3 {
        placed.take(3)
    } else {
        placed
    }
}

pub open spec fn seq_sum(s: Seq<int>) -> int
    decreases s.len(),
{
    if s.len() == 0 {
        0
    } else {
        seq_sum(s.drop_last()) + s.last()
    }
}

/// The largest of the totals, and 0 where that is larger.
pub open spec fn largest_total(done: Seq<int>) -> int
    decreases done.len(),
{
    if done.len() == 0 {
        0
    } else {
        let m = largest_total(done.drop_last());
        if done.last() > m {
            done.last()
        } else {
            m
        }
    }
}

/// The totals exist and the sum of the three largest fits in `i32`.
pub open spec fn top_sum_fits(g: Seq<Seq<char>>) -> bool {
    match elf_totals(g) {
        Some(ts) => i32::MIN <= seq_sum(top_three(ts)) <= i32::MAX,
        None => false,
    }
}

pub open spec fn vals_view(v: Seq<i32>) -> Seq<int> {
    v.map_values(|x: i32| x as int)
}

fn calories_exec(line: &str) -> (r: i32)
    ensures
        r == calories_of(line@),
{
    match parse_signed(&chars_of(line)) {
        Some(v) => if i32::MIN as i128 <= v && v <= i32::MAX as i128 {
            v as i32
        } else {
            0
        },
        None => 0,
    }
}

/// The totals of all elves, in order; `None` where one leaves `i32`.
pub fn elf_calories(lines: &Vec<&str>) -> (r: Option<Vec<i32>>)
    ensures
        r is Some <==> elf_totals(lines_view(lines@)) is Some,
        r matches Some(v) ==> elf_totals(lines_view(lines@)) == Some(vals_view(v@)) && v@.len() >= 1,
{
    let ghost g = lines_view(lines@);
    let mut totals: Vec<i32> = Vec::new();
    let mut total_calories: i32 = 0;
    let mut i: usize = 0;
    assert(vals_view(totals@) =~= Seq::<int>::empty());
    while i < lines.len()
        invariant
            g == lines_view(lines@),
            i <= lines.len(),
            totals_upto(g, i as int) == Some((vals_view(totals@), total_calories as int)),
        decreases lines.len() - i,
    {
        assert(g[i as int] == lines@[i as int]@);
        if lines[i].unicode_len() > 0 {
            let v = calories_exec(lines[i]);
            if (total_calories as i64) + (v as i64) < i32::MIN as i64 || (total_calories as i64) + (
            v as i64) > i32::MAX as i64 {
                proof {
                    lemma_totals_stop(g, i as int + 1, g.len() as int);
                }
                return None;
            }
            total_calories = total_calories + v;
        } else {
            let ghost prev = vals_view(totals@);
            totals.push(total_calories);
            assert(vals_view(totals@) =~= prev.push(total_calories as int));
            total_calories = 0;
        }
        i = i + 1;
    }
    let ghost prev = vals_view(totals@);
    totals.push(total_calories);
    assert(vals_view(totals@) =~= prev.push(total_calories as int));
    Some(totals)
}

pub proof fn lemma_totals_stop(g: Seq<Seq<char>>, i: int, j: int)
    requires
        1 <= i <= j,
        totals_upto(g, i) is None,
    ensures
        totals_upto(g, j) is None,
    decreases j - i,
{
    if j > i {
        lemma_totals_stop(g, i, j - 1);
    }
}

pub struct Day01 {}

impl Day01 {
    /// Solves both parts on the text of a puzzle input, with the time each
    /// took; `None` where a total leaves `i32`.
    pub fn run(input: &str) -> (r: Option<(String, String, String, u128, u128)>)
        ensures
            r is Some ==> elf_totals(lines_spec(input@)) is Some,
            r matches Some(t) ==> t.0@ == "Day_01"@ && t.1@ == decimal_of(largest_total(elf_totals(lines_spec(input@))->Some_0)) && t.2@ == decimal_of(seq_sum(top_three(elf_totals(lines_spec(input@))->Some_0))),
            top_sum_fits(lines_spec(input@)) ==> r is Some,
    {
        let lines = split_lines(input);
        let start_1 = start_clock();
        let result_1 = Day01::part_01(&lines);
        let time_calculation_1 = elapsed_since(&start_1);
        let start_2 = start_clock();
        let result_2 = Day01::part_02(&lines);
        let time_calculation_2 = elapsed_since(&start_2);
        match (result_1, result_2) {
            (Some(a), Some(b)) => Some(
                (
                    "Day_01".to_owned(),
                    decimal_i128(a as i128),
                    decimal_i128(b as i128),
                    nanos_of(&time_calculation_1),
                    nanos_of(&time_calculation_2),
                ),
            ),
            _ => None,
        }
    }

    /// The largest total of any elf.
    pub fn part_01(lines: &Vec<&str>) -> (r: Option<i32>)
        ensures
            r is Some <==> elf_totals(lines_view(lines@)) is Some,
            r matches Some(v) ==> v == largest_total(elf_totals(lines_view(lines@))->Some_0),
    {
        let totals = match elf_calories(lines) {
            Some(t) => t,
            None => {
                return None;
            },
        };
        let ghost ts = vals_view(totals@);
        let closed = totals.len();
        let mut max_calories: i32 = 0;
        let mut i: usize = 0;
        while i < closed
            invariant
                ts == vals_view(totals@),
                closed == totals@.len(),
                i <= closed,
                max_calories == largest_total(ts.take(i as int)),
            decreases closed - i,
        {
            assert(ts.take(i + 1).drop_last() =~= ts.take(i as int));
            if totals[i] > max_calories {
                max_calories = totals[i];
            }
            i = i + 1;
        }
        assert(ts.take(closed as int) =~= ts);
        Some(max_calories)
    }

    /// The sum of the three largest totals.
    pub fn part_02(lines: &Vec<&str>) -> (r: Option<i32>)
        ensures
            r is Some <==> top_sum_fits(lines_view(lines@)),
            r matches Some(v) ==> v == seq_sum(top_three(elf_totals(lines_view(lines@))->Some_0)),
    {
        let totals = match elf_calories(lines) {
            Some(t) => t,
            None => {
                return None;
            },
        };
        let ghost ts = vals_view(totals@);
        let mut top: Vec<i32> = Vec::new();
        let mut i: usize = 0;
        assert(vals_view(top@) =~= top_three(ts.take(0)));
        while i < totals.len()
            invariant
                ts == vals_view(totals@),
                i <= totals.len(),
                vals_view(top@) == top_three(ts.take(i as int)),
                top@.len() <= 3,
            decreases totals.len() - i,
        {
            assert(ts.take(i + 1).drop_last() =~= ts.take(i as int));
            let x = totals[i];
            let ghost t = vals_view(top@);
            let mut placed: Vec<i32> = Vec::new();
            if top.len() >= 1 && x <= top[0] {
                if top.len() >= 2 && x <= top[1] {
                    if top.len() >= 3 && x <= top[2] {
                        placed = top;
                    } else {
                        placed.push(top[0]);
                        placed.push(top[1]);
                        placed.push(x);
                        assert(vals_view(placed@) =~= t.take(2).push(x as int));
                    }
                } else {
                    placed.push(top[0]);
                    placed.push(x);
                    let mut k: usize = 1;
                    while k < top.len()
                        invariant
                            1 <= k <= top@.len(),
                            t == vals_view(top@),
                            vals_view(placed@) == seq![t[0], x as int] + t.subrange(1, k as int),
                        decreases top.len() - k,
                    {
                        let ghost pv0 = vals_view(placed@);
                        placed.push(top[k]);
                        assert(vals_view(placed@) =~= pv0.push(t[k as int]));
                        k = k + 1;
                        assert(vals_view(placed@) =~= seq![t[0], x as int] + t.subrange(1, k as int));
                    }
                    assert(t.subrange(1, t.len() as int) =~= t.skip(1));
                }
            } else {
                placed.push(x);
                let mut k: usize = 0;
                while k < top.len()
                    invariant
                        k <= top@.len(),
                        t == vals_view(top@),
                        vals_view(placed@) == seq![x as int] + t.take(k as int),
                    decreases top.len() - k,
                {
                    let ghost pv0 = vals_view(placed@);
                    placed.push(top[k]);
                    assert(vals_view(placed@) =~= pv0.push(t[k as int]));
                    k = k + 1;
                    assert(vals_view(placed@) =~= seq![x as int] + t.take(k as int));
                }
                assert(t.take(t.len() as int) =~= t);
            }
            let ghost pv = vals_view(placed@);
            if placed.len() > 3 {
                placed.truncate(3);
                assert(vals_view(placed@) =~= pv.take(3));
            }
            top = placed;
            i = i + 1;
        }
        assert(ts.take(totals.len() as int) =~= ts);
        let ghost tv = vals_view(top@);
        let mut sum: i64 = 0;
        let mut k: usize = 0;
        while k < top.len()
            invariant
                tv == vals_view(top@),
                top@.len() <= 3,
                k <= top.len(),
                sum == seq_sum(tv.take(k as int)),
                -0x8000_0000 * k <= sum <= 0x7fff_ffff * k,
            decreases top.len() - k,
        {
            assert(tv.take(k + 1).drop_last() =~= tv.take(k as int));
            sum = sum + top[k] as i64;
            k = k + 1;
        }
        assert(tv.take(top.len() as int) =~= tv);
        if sum < i32::MIN as i64 || sum > i32::MAX as i64 {
            return None;
        }
        Some(sum as i32)
    }
}

} // verus!
