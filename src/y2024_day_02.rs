//! Red-nosed reports: a report is safe where its levels all rise or all fall,
//! by 1 to 3 at each step; a dampener may drop one level.
use crate::clock::{decimal_i128, decimal_of, elapsed_since, nanos_of, start_clock};
use crate::text::{chars_of, lines_spec, lines_view, parse_signed, signed_value, split_lines, words, words_exec};
use vstd::prelude::*;

verus! {

pub open spec fn sign(d: int) -> int {
    if d > 0 {
        1
    } else if d < 0 {
        -1
    } else {
        0
    }
}

pub open spec fn safe_step(d: int) -> bool {
    1 <= d <= 3 || -3 <= d <= -1
}

/// Every step moves by 1 to 3, all in the direction of the first step.
pub open spec fn is_safe(r: Seq<int>) -> bool {
    forall|i: int|
        0 <= i < r.len() - 1 ==> safe_step(#[trigger] r[i + 1] - r[i]) && sign(r[i + 1] - r[i])
            == sign(r[1] - r[0])
}

/// Safe, or safe once some one level is dropped.
pub open spec fn is_safe_dampened(r: Seq<int>) -> bool {
    is_safe(r) || exists|k: int| 0 <= k < r.len() && is_safe(#[trigger] r.remove(k))
}

pub open spec fn number_of(w: Seq<char>) -> Option<int> {
    match signed_value(w) {
        Some(v) => if i32::MIN <= v <= i32::MAX {
            Some(v)
        } else {
            None
        },
        None => None,
    }
}

/// The levels of a line, its words read as `i32`; `None` where one is not.
pub open spec fn report_of(line: Seq<char>) -> Option<Seq<int>> {
    let w = words(line);
    if forall|i: int| 0 <= i < w.len() ==> (#[trigger] number_of(w[i])) is Some {
        Some(w.map_values(|x: Seq<char>| number_of(x)->Some_0))
    } else {
        None
    }
}

pub open spec fn reports_of(g: Seq<Seq<char>>) -> Option<Seq<Seq<int>>> {
    if forall|i: int| 0 <= i < g.len() ==> (#[trigger] report_of(g[i])) is Some {
        Some(g.map_values(|l: Seq<char>| report_of(l)->Some_0))
    } else {
        None
    }
}

pub open spec fn count_safe(rs: Seq<Seq<int>>, dampened: bool) -> int
    decreases rs.len(),
{
    if rs.len() == 0 {
        0
    } else {
        count_safe(rs.drop_last(), dampened) + if (dampened && is_safe_dampened(rs.last())) || (
        !dampened && is_safe(rs.last())) {
            1int
        } else {
            0int
        }
    }
}

pub open spec fn levels_view(v: Seq<i32>) -> Seq<int> {
    v.map_values(|x: i32| x as int)
}

pub fn is_safe_adjacent(diff: i64) -> (r: bool)
    ensures
        r == safe_step(diff as int),
{
    (1 <= diff && diff <= 3) || (-3 <= diff && diff <= -1)
}

fn sign_exec(d: i64) -> (r: i64)
    ensures
        r == sign(d as int),
{
    if d > 0 {
        1
    } else if d < 0 {
        -1
    } else {
        0
    }
}

/// Whether the levels all rise or all fall, by 1 to 3 at each step.
pub fn safety_check(report: &Vec<i32>) -> (r: bool)
    ensures
        r == is_safe(levels_view(report@)),
{
    let ghost s = levels_view(report@);
    if report.len() < 2 {
        return true;
    }
    let start_direction = sign_exec(report[1] as i64 - report[0] as i64);
    let mut i: usize = 0;
    while i + 1 < report.len()
        invariant
            s == levels_view(report@),
            report@.len() >= 2,
            i + 1 <= report@.len(),
            start_direction == sign(s[1] - s[0]),
            forall|k: int| 0 <= k < i ==> safe_step(#[trigger] s[k + 1] - s[k]) && sign(s[k + 1] - s[k])
                == sign(s[1] - s[0]),
        decreases report.len() - i,
    {
        let diff = report[i + 1] as i64 - report[i] as i64;
        if !is_safe_adjacent(diff) || sign_exec(diff) != start_direction {
            assert(!(safe_step(s[i + 1] - s[i as int]) && sign(s[i + 1] - s[i as int]) == sign(s[1] - s[0])));
            return false;
        }
        i = i + 1;
    }
    true
}

/// The report without the level at `start_index`.
pub fn remove_level(report: &Vec<i32>, start_index: usize) -> (r: Vec<i32>)
    requires
        start_index < report@.len(),
    ensures
        r@ == report@.remove(start_index as int),
{
    let mut new_report: Vec<i32> = Vec::new();
    let mut i: usize = 0;
    while i < report.len()
        invariant
            start_index < report@.len(),
            i <= report.len(),
            new_report@ == if i <= start_index {
                report@.take(i as int)
            } else {
                report@.remove(start_index as int).take(i - 1)
            },
        decreases report.len() - i,
    {
        if i != start_index {
            new_report.push(report[i]);
        }
        i = i + 1;
        assert(new_report@ =~= if i <= start_index {
            report@.take(i as int)
        } else {
            report@.remove(start_index as int).take(i - 1)
        });
    }
    assert(report@.remove(start_index as int).take(report.len() - 1) =~= report@.remove(start_index as int));
    new_report
}

fn safe_with_dampener(report: &Vec<i32>) -> (r: bool)
    ensures
        r == is_safe_dampened(levels_view(report@)),
{
    let ghost s = levels_view(report@);
    if safety_check(report) {
        return true;
    }
    let mut index: usize = 0;
    while index < report.len()
        invariant
            s == levels_view(report@),
            index <= report.len(),
            !is_safe(s),
            forall|k: int| 0 <= k < index ==> !is_safe(#[trigger] s.remove(k)),
        decreases report.len() - index,
    {
        let new_report = remove_level(report, index);
        assert(levels_view(new_report@) =~= s.remove(index as int));
        if safety_check(&new_report) {
            return true;
        }
        index = index + 1;
    }
    false
}

/// The levels of a line.
pub fn make_report(text: &str) -> (r: Option<Vec<i32>>)
    ensures
        r is Some <==> report_of(text@) is Some,
        r matches Some(v) ==> report_of(text@) == Some(levels_view(v@)),
{
    let ws = words_exec(&chars_of(text));
    let ghost w = crate::text::chars_views(ws@);
    let mut levels: Vec<i32> = Vec::new();
    let mut i: usize = 0;
    while i < ws.len()
        invariant
            w == crate::text::chars_views(ws@),
            w == words(text@),
            i <= ws.len(),
            levels@.len() == i,
            forall|k: int| 0 <= k < i ==> number_of(#[trigger] w[k]) == Some(levels@[k] as int),
        decreases ws.len() - i,
    {
        assert(w[i as int] == ws@[i as int]@);
        match parse_signed(&ws[i]) {
            Some(v) => {
                if v < i32::MIN as i128 || v > i32::MAX as i128 {
                    assert(number_of(w[i as int]) is None);
                    return None;
                }
                levels.push(v as i32);
            },
            None => {
                assert(number_of(w[i as int]) is None);
                return None;
            },
        }
        i = i + 1;
    }
    assert(levels_view(levels@) =~= w.map_values(|x: Seq<char>| number_of(x)->Some_0));
    Some(levels)
}

/// The reports of the lines.
pub fn split_reports(lines: &Vec<&str>) -> (r: Option<Vec<Vec<i32>>>)
    ensures
        r is Some <==> reports_of(lines_view(lines@)) is Some,
        r matches Some(v) ==> reports_of(lines_view(lines@)) == Some(v@.map_values(|x: Vec<i32>| levels_view(x@))),
{
    let ghost g = lines_view(lines@);
    let mut reports: Vec<Vec<i32>> = Vec::new();
    let mut i: usize = 0;
    while i < lines.len()
        invariant
            g == lines_view(lines@),
            i <= lines.len(),
            reports@.len() == i,
            forall|k: int| 0 <= k < i ==> report_of(#[trigger] g[k]) == Some(levels_view(reports@[k]@)),
        decreases lines.len() - i,
    {
        assert(g[i as int] == lines@[i as int]@);
        match make_report(lines[i]) {
            Some(r) => {
                reports.push(r);
            },
            None => {
                return None;
            },
        }
        i = i + 1;
    }
    assert(reports@.map_values(|x: Vec<i32>| levels_view(x@)) =~= g.map_values(|l: Seq<char>| report_of(l)->Some_0));
    Some(reports)
}

pub struct Day02 {}

impl Day02 {
    /// Solves both parts on the text of a puzzle input, with the time each
    /// took; `None` where a line holds a word that is no `i32`.
    pub fn run(input: &str) -> (r: Option<(String, String, String, u128, u128)>)
        ensures
            r is Some <==> reports_of(lines_spec(input@)) is Some,
            r matches Some(t) ==> t.0@ == "Day_02"@ && t.1@ == decimal_of(count_safe(reports_of(lines_spec(input@))->Some_0, false))
                && t.2@ == decimal_of(count_safe(reports_of(lines_spec(input@))->Some_0, true)),
    {
        let lines = split_lines(input);
        let start_1 = start_clock();
        let result_1 = Day02::part_01(&lines);
        let time_calculation_1 = elapsed_since(&start_1);
        let start_2 = start_clock();
        let result_2 = Day02::part_02(&lines);
        let time_calculation_2 = elapsed_since(&start_2);
        match (result_1, result_2) {
            (Some(a), Some(b)) => Some(
                (
                    "Day_02".to_owned(),
                    decimal_i128(a as i128),
                    decimal_i128(b as i128),
                    nanos_of(&time_calculation_1),
                    nanos_of(&time_calculation_2),
                ),
            ),
            _ => None,
        }
    }

    /// How many reports are safe.
    pub fn part_01(lines: &Vec<&str>) -> (r: Option<usize>)
        ensures
            r is Some <==> reports_of(lines_view(lines@)) is Some,
            r matches Some(v) ==> v == count_safe(reports_of(lines_view(lines@))->Some_0, false),
    {
        Day02::count(lines, false)
    }

    /// How many reports are safe, or safe once one level is dropped.
    pub fn part_02(lines: &Vec<&str>) -> (r: Option<usize>)
        ensures
            r is Some <==> reports_of(lines_view(lines@)) is Some,
            r matches Some(v) ==> v == count_safe(reports_of(lines_view(lines@))->Some_0, true),
    {
        Day02::count(lines, true)
    }

    fn count(lines: &Vec<&str>, dampened: bool) -> (r: Option<usize>)
        ensures
            r is Some <==> reports_of(lines_view(lines@)) is Some,
            r matches Some(v) ==> v == count_safe(reports_of(lines_view(lines@))->Some_0, dampened),
    {
        let reports = match split_reports(lines) {
            Some(r) => r,
            None => {
                return None;
            },
        };
        let ghost rs = reports@.map_values(|x: Vec<i32>| levels_view(x@));
        let mut total: usize = 0;
        let mut i: usize = 0;
        while i < reports.len()
            invariant
                rs == reports@.map_values(|x: Vec<i32>| levels_view(x@)),
                i <= reports.len(),
                total == count_safe(rs.take(i as int), dampened),
                total <= i,
            decreases reports.len() - i,
        {
            assert(rs.take(i + 1).drop_last() =~= rs.take(i as int));
            assert(rs.take(i + 1).last() == levels_view(reports@[i as int]@));
            let ok = if dampened {
                safe_with_dampener(&reports[i])
            } else {
                safety_check(&reports[i])
            };
            if ok {
                total = total + 1;
            }
            i = i + 1;
        }
        assert(rs.take(reports.len() as int) =~= rs);
        Some(total)
    }
}

} // verus!
