//! Camp cleanup: pairs of elves with ranges of sections, counting the pairs
//! where one range holds the other, and where they overlap.
use crate::clock::{decimal_i128, decimal_of, elapsed_since, nanos_of, start_clock};
use crate::text::{
    all_digits, chars_of, digits_value, lines_spec, lines_view, parse_unsigned, split_by,
    split_lines, split_spec,
};
use vstd::prelude::*;

verus! {

/// The sections `first..=second`; empty where `first > second`.
pub open spec fn in_range(r: (usize, usize), x: int) -> bool {
    r.0 <= x <= r.1
}

pub open spec fn range_len(r: (usize, usize)) -> int {
    if r.1 >= r.0 {
        r.1 - r.0 + 1
    } else {
        0
    }
}

/// Every section of `short` is a section of `long`.
pub open spec fn holds_all(long: (usize, usize), short: (usize, usize)) -> bool {
    forall|x: int| #[trigger] in_range(short, x) ==> in_range(long, x)
}

/// Some section of `short` is a section of `long`.
pub open spec fn holds_some(long: (usize, usize), short: (usize, usize)) -> bool {
    exists|x: int| #[trigger] in_range(short, x) && in_range(long, x)
}

pub open spec fn number_of(w: Seq<char>) -> Option<int> {
    if w.len() > 0 && all_digits(w) && digits_value(w) <= usize::MAX {
        Some(digits_value(w))
    } else {
        None
    }
}

/// `<first>-<second>`.
pub open spec fn sections_of(s: Seq<char>) -> Option<(usize, usize)> {
    let p = split_spec(s, '-');
    if p.len() >= 2 && number_of(p[0]) is Some && number_of(p[1]) is Some {
        Some((number_of(p[0])->Some_0 as usize, number_of(p[1])->Some_0 as usize))
    } else {
        None
    }
}

/// `<sections>,<sections>`.
pub open spec fn pair_of(s: Seq<char>) -> Option<((usize, usize), (usize, usize))> {
    let p = split_spec(s, ',');
    if p.len() >= 2 && sections_of(p[0]) is Some && sections_of(p[1]) is Some {
        Some((sections_of(p[0])->Some_0, sections_of(p[1])->Some_0))
    } else {
        None
    }
}

/// The longer range first (the first where both are as long).
pub open spec fn ordered(a: (usize, usize), b: (usize, usize)) -> ((usize, usize), (usize, usize)) {
    if range_len(a) >= range_len(b) {
        (a, b)
    } else {
        (b, a)
    }
}

pub open spec fn pair_counts(g: Seq<Seq<char>>, overlap: bool) -> int
    decreases g.len(),
{
    if g.len() == 0 {
        0
    } else {
        pair_counts(g.drop_last(), overlap) + match pair_of(g.last()) {
            Some((a, b)) => {
                let (l, s) = ordered(a, b);
                if (overlap && holds_some(l, s)) || (!overlap && holds_all(l, s)) {
                    1int
                } else {
                    0int
                }
            },
            None => 0int,
        }
    }
}

/// Every line is a pair of ranges.
pub open spec fn pairs_fit(g: Seq<Seq<char>>) -> bool {
    &&& g.len() <= i32::MAX
    &&& forall|i: int| 0 <= i < g.len() ==> (#[trigger] pair_of(g[i])) is Some
}

pub struct Day04 {}

impl Day04 {
    /// Whether every section of `short` is one of `long`.
    pub fn contain_another(long: (usize, usize), short: (usize, usize)) -> (r: bool)
        ensures
            r == holds_all(long, short),
    {
        if short.0 > short.1 {
            assert forall|x: int| #[trigger] in_range(short, x) implies in_range(long, x) by {}
            return true;
        }
        let r = long.0 <= short.0 && short.1 <= long.1;
        if !r {
            if long.0 > short.0 {
                assert(in_range(short, short.0 as int));
            } else {
                assert(in_range(short, short.1 as int));
            }
        }
        r
    }

    /// Whether some section of `short` is one of `long`.
    pub fn overlap_another(long: (usize, usize), short: (usize, usize)) -> (r: bool)
        ensures
            r == holds_some(long, short),
    {
        let lo = if long.0 > short.0 {
            long.0
        } else {
            short.0
        };
        let hi = if long.1 < short.1 {
            long.1
        } else {
            short.1
        };
        if lo <= hi {
            assert(in_range(short, lo as int) && in_range(long, lo as int));
            true
        } else {
            false
        }
    }

    /// The two halves of a pair, at the commas.
    pub fn split_pair(pair: &str) -> (r: Vec<Vec<char>>)
        ensures
            r@.map_values(|w: Vec<char>| w@) == split_spec(pair@, ','),
    {
        split_by(&chars_of(pair), ',')
    }

    /// The first and last section of a range written `<first>-<second>`.
    pub fn convert_sections(section: &Vec<char>) -> (r: Option<(usize, usize)>)
        ensures
            r == sections_of(section@),
    {
        let values = split_by(section, '-');
        let ghost vs = values@.map_values(|w: Vec<char>| w@);
        if values.len() < 2 {
            return None;
        }
        assert(vs[0] == values@[0]@ && vs[1] == values@[1]@);
        let first = parse_unsigned(&values[0]);
        let second = parse_unsigned(&values[1]);
        match (first, second) {
            (Some(a), Some(b)) => {
                if a > usize::MAX as u128 || b > usize::MAX as u128 {
                    return None;
                }
                Some((a as usize, b as usize))
            },
            _ => None,
        }
    }

    fn pair_exec(line: &str) -> (r: Option<((usize, usize), (usize, usize))>)
        ensures
            r == pair_of(line@),
    {
        let persons = Day04::split_pair(line);
        let ghost ps = persons@.map_values(|w: Vec<char>| w@);
        if persons.len() < 2 {
            return None;
        }
        assert(ps[0] == persons@[0]@ && ps[1] == persons@[1]@);
        match (Day04::convert_sections(&persons[0]), Day04::convert_sections(&persons[1])) {
            (Some(a), Some(b)) => Some((a, b)),
            _ => None,
        }
    }

    fn count_pairs(lines: &Vec<&str>, overlap: bool) -> (r: Option<i32>)
        ensures
            r is Some <==> pairs_fit(lines_view(lines@)),
            r matches Some(v) ==> v == pair_counts(lines_view(lines@), overlap),
    {
        let ghost g = lines_view(lines@);
        if lines.len() > i32::MAX as usize {
            return None;
        }
        let mut count: i32 = 0;
        let mut i: usize = 0;
        while i < lines.len()
            invariant
                g == lines_view(lines@),
                lines@.len() <= i32::MAX,
                i <= lines.len(),
                count == pair_counts(g.take(i as int), overlap),
                0 <= count <= i,
                forall|k: int| 0 <= k < i ==> (#[trigger] pair_of(g[k])) is Some,
            decreases lines.len() - i,
        {
            assert(g.take(i + 1).drop_last() =~= g.take(i as int));
            assert(g.take(i + 1).last() == lines@[i as int]@);
            let (first, second) = match Day04::pair_exec(lines[i]) {
                Some(p) => p,
                None => {
                    assert(g[i as int] == lines@[i as int]@);
                    return None;
                },
            };
            let first_len = if first.1 >= first.0 {
                first.1 as u128 - first.0 as u128 + 1
            } else {
                0
            };
            let second_len = if second.1 >= second.0 {
                second.1 as u128 - second.0 as u128 + 1
            } else {
                0
            };
            let (long, short) = if first_len >= second_len {
                (first, second)
            } else {
                (second, first)
            };
            let hit = if overlap {
                Day04::overlap_another(long, short)
            } else {
                Day04::contain_another(long, short)
            };
            if hit {
                count = count + 1;
            }
            i = i + 1;
        }
        assert(g.take(lines.len() as int) =~= g);
        Some(count)
    }

    /// Solves both parts on the text of a puzzle input, with the time each
    /// took; `None` where a line is no pair of ranges.
    pub fn run(input: &str) -> (r: Option<(String, String, String, u128, u128)>)
        ensures
            r is Some <==> pairs_fit(lines_spec(input@)),
            r matches Some(t) ==> t.0@ == "Day_04"@ && t.1@ == decimal_of(pair_counts(lines_spec(input@), false))
                && t.2@ == decimal_of(pair_counts(lines_spec(input@), true)),
    {
        let lines = split_lines(input);
        let start_1 = start_clock();
        let result_1 = Day04::part_01(&lines);
        let time_calculation_1 = elapsed_since(&start_1);
        let start_2 = start_clock();
        let result_2 = Day04::part_02(&lines);
        let time_calculation_2 = elapsed_since(&start_2);
        match (result_1, result_2) {
            (Some(a), Some(b)) => Some(
                (
                    "Day_04".to_owned(),
                    decimal_i128(a as i128),
                    decimal_i128(b as i128),
                    nanos_of(&time_calculation_1),
                    nanos_of(&time_calculation_2),
                ),
            ),
            _ => None,
        }
    }

    /// How many pairs have one range holding the other.
    pub fn part_01(lines: &Vec<&str>) -> (r: Option<i32>)
        ensures
            r is Some <==> pairs_fit(lines_view(lines@)),
            r matches Some(v) ==> v == pair_counts(lines_view(lines@), false),
    {
        Day04::count_pairs(lines, false)
    }

    /// How many pairs have ranges that overlap.
    pub fn part_02(lines: &Vec<&str>) -> (r: Option<i32>)
        ensures
            r is Some <==> pairs_fit(lines_view(lines@)),
            r matches Some(v) ==> v == pair_counts(lines_view(lines@), true),
    {
        Day04::count_pairs(lines, true)
    }
}

} // verus!
