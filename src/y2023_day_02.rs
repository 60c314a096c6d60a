//! Cube conundrum: games of cubes drawn from a bag, checked against the
//! cubes the bag holds, and the smallest bag each game needs.
use crate::clock::{decimal_i128, decimal_of, elapsed_since, nanos_of, start_clock};
use crate::text::{
    lower_of, lowercase, chars_views, words, words_exec, chars_of, find_first, first_of, has_char, head_upto, lines_spec, lines_view, parse_signed,
    remove_char, signed_value, split_by, split_lines, split_spec, tail_from, without,
};
use vstd::prelude::*;

verus! {

#[derive(Clone, Copy, PartialEq, Eq, Structural, Debug, Hash)]
pub enum CubeType {
    Blue,
    Red,
    Green,
}

/// The counts of one draw, by colour; `None` for a colour not drawn.
#[derive(Clone, Copy, PartialEq, Eq, Structural, Debug)]
pub struct CubeSet {
    pub blue: Option<i32>,
    pub red: Option<i32>,
    pub green: Option<i32>,
}

/// The colour named by a lower-case word.
pub open spec fn cube_named(w: Seq<char>) -> Option<CubeType> {
    if w == seq!['b', 'l', 'u', 'e'] {
        Some(CubeType::Blue)
    } else if w == seq!['g', 'r', 'e', 'e', 'n'] {
        Some(CubeType::Green)
    } else if w == seq!['r', 'e', 'd'] {
        Some(CubeType::Red)
    } else {
        None
    }
}

pub open spec fn count_of(s: CubeSet, c: CubeType) -> Option<i32> {
    match c {
        CubeType::Blue => s.blue,
        CubeType::Red => s.red,
        CubeType::Green => s.green,
    }
}

pub open spec fn with_count(s: CubeSet, c: CubeType, v: Option<i32>) -> CubeSet {
    match c {
        CubeType::Blue => CubeSet { blue: v, ..s },
        CubeType::Red => CubeSet { red: v, ..s },
        CubeType::Green => CubeSet { green: v, ..s },
    }
}

pub open spec fn number_of(w: Seq<char>) -> Option<i32> {
    match signed_value(w) {
        Some(v) => if i32::MIN <= v <= i32::MAX {
            Some(v as i32)
        } else {
            None
        },
        None => None,
    }
}

/// The draw with one more `<count> <colour>` entry; an entry of other than
/// two words is skipped, and `None` stands for one that is not understood or
/// a sum that does not fit.
pub open spec fn add_entry(acc: CubeSet, entry: Seq<char>) -> Option<CubeSet> {
    let w = words(entry);
    if w.len() != 2 {
        Some(acc)
    } else {
        match (number_of(w[0]), cube_named(lower_of(w[1]))) {
            (Some(n), Some(c)) => match count_of(acc, c) {
                Some(v) => if i32::MIN <= v + n <= i32::MAX {
                    Some(with_count(acc, c, Some((v + n) as i32)))
                } else {
                    None
                },
                None => Some(with_count(acc, c, Some(n))),
            },
            _ => None,
        }
    }
}

pub open spec fn empty_set() -> CubeSet {
    CubeSet { blue: None, red: None, green: None }
}

pub open spec fn set_from(entries: Seq<Seq<char>>) -> Option<CubeSet>
    decreases entries.len(),
{
    if entries.len() == 0 {
        Some(empty_set())
    } else {
        match set_from(entries.drop_last()) {
            Some(acc) => add_entry(acc, entries.last()),
            None => None,
        }
    }
}

/// A draw: entries separated by commas.
pub open spec fn set_of(text: Seq<char>) -> Option<CubeSet> {
    set_from(split_spec(text, ','))
}

/// `Game <n>: <draw>; <draw>; ...`, with spaces anywhere in the header.
pub open spec fn game_of(s: Seq<char>) -> Option<(int, Seq<CubeSet>)> {
    if has_char(s, ':') {
        let p = first_of(s, ':');
        let t = without(s.take(p), ' ');
        if t.len() >= 4 && t.take(4) == seq!['G', 'a', 'm', 'e'] && number_of(t.skip(4)) is Some {
            let texts = split_spec(s.skip(p + 1), ';');
            if forall|k: int| 0 <= k < texts.len() ==> (#[trigger] set_of(texts[k])) is Some {
                Some(
                    (
                        number_of(t.skip(4))->Some_0 as int,
                        texts.map_values(|x: Seq<char>| set_of(x)->Some_0),
                    ),
                )
            } else {
                None
            }
        } else {
            None
        }
    } else {
        None
    }
}

/// Every colour drawn is drawn no more often than the bag holds it.
pub open spec fn within(maximum: CubeSet, game: CubeSet) -> bool {
    &&& at_most(game.blue, maximum.blue)
    &&& at_most(game.red, maximum.red)
    &&& at_most(game.green, maximum.green)
}

pub open spec fn at_most(v: Option<i32>, m: Option<i32>) -> bool {
    match (v, m) {
        (Some(a), Some(b)) => a <= b,
        _ => true,
    }
}

/// The largest count of a colour over the draws; `None` where it is never drawn.
pub open spec fn max_count(sets: Seq<CubeSet>, c: CubeType) -> Option<int>
    decreases sets.len(),
{
    if sets.len() == 0 {
        None
    } else {
        match (max_count(sets.drop_last(), c), count_of(sets.last(), c)) {
            (Some(a), Some(b)) => Some(if a < b {
                b as int
            } else {
                a
            }),
            (None, Some(b)) => Some(b as int),
            (a, None) => a,
        }
    }
}

pub open spec fn times(acc: Option<int>, m: Option<int>) -> Option<int> {
    match acc {
        Some(a) => match m {
            Some(b) => if i32::MIN <= a * b <= i32::MAX {
                Some(a * b)
            } else {
                None
            },
            None => Some(a),
        },
        None => None,
    }
}

/// The product of the largest counts of the colours drawn (blue, red, green
/// in that order); `None` where a product leaves `i32`.
pub open spec fn power(sets: Seq<CubeSet>) -> Option<int> {
    times(
        times(times(Some(1), max_count(sets, CubeType::Blue)), max_count(sets, CubeType::Red)),
        max_count(sets, CubeType::Green),
    )
}

pub open spec fn bag() -> CubeSet {
    CubeSet { blue: Some(14), red: Some(12), green: Some(13) }
}

pub open spec fn all_within(sets: Seq<CubeSet>) -> bool {
    forall|k: int| 0 <= k < sets.len() ==> within(bag(), #[trigger] sets[k])
}

pub open spec fn add_checked(acc: Option<int>, v: int) -> Option<int> {
    match acc {
        Some(a) => if i32::MIN <= a + v <= i32::MAX {
            Some(a + v)
        } else {
            None
        },
        None => None,
    }
}

/// The sum of the numbers of the games the bag allows.
pub open spec fn possible_sum(g: Seq<Seq<char>>) -> Option<int>
    decreases g.len(),
{
    if g.len() == 0 {
        Some(0)
    } else {
        match game_of(g.last()) {
            Some((id, sets)) => add_checked(
                possible_sum(g.drop_last()),
                if all_within(sets) {
                    id
                } else {
                    0
                },
            ),
            None => None,
        }
    }
}

/// The sum of the powers of the games.
pub open spec fn power_sum(g: Seq<Seq<char>>) -> Option<int>
    decreases g.len(),
{
    if g.len() == 0 {
        Some(0)
    } else {
        match game_of(g.last()) {
            Some((_, sets)) => match power(sets) {
                Some(pw) => add_checked(power_sum(g.drop_last()), pw),
                None => None,
            },
            None => None,
        }
    }
}

/// The colour a lower-case word names.
pub fn cube_from_lowered(w: &Vec<char>) -> (r: Option<CubeType>)
    ensures
        r == cube_named(w@),
{
    if w.len() == 4 && w[0] == 'b' && w[1] == 'l' && w[2] == 'u' && w[3] == 'e' {
        assert(w@ =~= seq!['b', 'l', 'u', 'e']);
        Some(CubeType::Blue)
    } else if w.len() == 5 && w[0] == 'g' && w[1] == 'r' && w[2] == 'e' && w[3] == 'e' && w[4]
        == 'n' {
        assert(w@ =~= seq!['g', 'r', 'e', 'e', 'n']);
        assert(w@ != seq!['b', 'l', 'u', 'e']);
        Some(CubeType::Green)
    } else if w.len() == 3 && w[0] == 'r' && w[1] == 'e' && w[2] == 'd' {
        assert(w@ =~= seq!['r', 'e', 'd']);
        Some(CubeType::Red)
    } else {
        proof {
            if w@ == seq!['b', 'l', 'u', 'e'] {
                assert(w@[0] == 'b' && w@[3] == 'e');
            }
            if w@ == seq!['g', 'r', 'e', 'e', 'n'] {
                assert(w@[0] == 'g' && w@[4] == 'n');
            }
            if w@ == seq!['r', 'e', 'd'] {
                assert(w@[0] == 'r' && w@[2] == 'd');
            }
        }
        None
    }
}

impl CubeType {
    /// The colour a word names, in any case.
    pub fn from_str(text: &str) -> (r: Option<CubeType>)
        ensures
            r == cube_named(lower_of(text@)),
    {
        let lowered = lowercase(&chars_of(text));
        cube_from_lowered(&lowered)
    }
}

impl CubeSet {
    /// The count of a colour; `None` where it was not drawn.
    pub fn count(&self, cube: CubeType) -> (r: Option<i32>)
        ensures
            r == count_of(*self, cube),
    {
        match cube {
            CubeType::Blue => self.blue,
            CubeType::Red => self.red,
            CubeType::Green => self.green,
        }
    }
}

fn number_exec(w: &Vec<char>) -> (r: Option<i32>)
    ensures
        r == number_of(w@),
{
    match parse_signed(w) {
        Some(v) => if i32::MIN as i128 <= v && v <= i32::MAX as i128 {
            Some(v as i32)
        } else {
            None
        },
        None => None,
    }
}

/// A draw: `<count> <colour>` entries separated by commas; an entry of other
/// than two words is skipped. `None` where an entry is not understood or a
/// sum does not fit.
pub fn parsing_set(text: &Vec<char>) -> (r: Option<CubeSet>)
    ensures
        r == set_of(text@),
{
    let entries = split_by(text, ',');
    let ghost es = entries@.map_values(|w: Vec<char>| w@);
    let mut result = CubeSet { blue: None, red: None, green: None };
    let mut i: usize = 0;
    assert(es.take(0) =~= Seq::<Seq<char>>::empty());
    while i < entries.len()
        invariant
            es == entries@.map_values(|w: Vec<char>| w@),
            es == split_spec(text@, ','),
            i <= entries.len(),
            set_from(es.take(i as int)) == Some(result),
        decreases entries.len() - i,
    {
        assert(es.take(i + 1).drop_last() =~= es.take(i as int));
        assert(es[i as int] == entries@[i as int]@);
        let values = words_exec(&entries[i]);
        if values.len() == 2 {
            assert(chars_views(values@)[0] == values@[0]@ && chars_views(values@)[1] == values@[1]@);
            let total_cubes = number_exec(&values[0]);
            let lowered = lowercase(&values[1]);
            let cube_type = cube_from_lowered(&lowered);
            match (total_cubes, cube_type) {
                (Some(n), Some(c)) => {
                    match result.count(c) {
                        Some(v) => {
                            if (v as i64) + (n as i64) < i32::MIN as i64 || (v as i64) + (n as i64)
                                > i32::MAX as i64 {
                                proof {
                                    lemma_set_stops(es, i as int + 1, es.len() as int);
                                    assert(es.take(es.len() as int) =~= es);
                                }
                                return None;
                            }
                            let sum = v + n;
                            result = match c {
                                CubeType::Blue => CubeSet { blue: Some(sum), ..result },
                                CubeType::Red => CubeSet { red: Some(sum), ..result },
                                CubeType::Green => CubeSet { green: Some(sum), ..result },
                            };
                        },
                        None => {
                            result = match c {
                                CubeType::Blue => CubeSet { blue: Some(n), ..result },
                                CubeType::Red => CubeSet { red: Some(n), ..result },
                                CubeType::Green => CubeSet { green: Some(n), ..result },
                            };
                        },
                    }
                },
                _ => {
                    proof {
                        lemma_set_stops(es, i as int + 1, es.len() as int);
                        assert(es.take(es.len() as int) =~= es);
                    }
                    return None;
                },
            }
        }
        i = i + 1;
    }
    assert(es.take(entries.len() as int) =~= es);
    Some(result)
}

pub proof fn lemma_set_stops(es: Seq<Seq<char>>, i: int, j: int)
    requires
        1 <= i <= j <= es.len(),
        set_from(es.take(i)) is None,
    ensures
        set_from(es.take(j)) is None,
    decreases j - i,
{
    if j > i {
        lemma_set_stops(es, i, j - 1);
        assert(es.take(j).drop_last() =~= es.take(j - 1));
    }
}

/// A game line: its number and its draws.
pub fn parsing_input(line: &str) -> (r: Option<(i32, Vec<CubeSet>)>)
    ensures
        r is Some <==> game_of(line@) is Some,
        r matches Some((id, sets)) ==> game_of(line@) == Some((id as int, sets@)),
{
    let s = chars_of(line);
    let p = match find_first(&s, ':') {
        Some(p) => p,
        None => {
            return None;
        },
    };
    assert(p < s.len());
    let t = remove_char(&head_upto(&s, p), ' ');
    if !(t.len() >= 4 && t[0] == 'G' && t[1] == 'a' && t[2] == 'm' && t[3] == 'e') {
        proof {
            if t@.len() >= 4 && t@.take(4) == seq!['G', 'a', 'm', 'e'] {
                assert(t@[0] == t@.take(4)[0] && t@[1] == t@.take(4)[1]);
                assert(t@[2] == t@.take(4)[2] && t@[3] == t@.take(4)[3]);
            }
        }
        return None;
    }
    assert(t@.take(4) =~= seq!['G', 'a', 'm', 'e']);
    let game_id = match number_exec(&tail_from(&t, 4)) {
        Some(v) => v,
        None => {
            return None;
        },
    };
    let rest = tail_from(&s, p + 1);
    let texts = split_by(&rest, ';');
    let ghost ts = texts@.map_values(|w: Vec<char>| w@);
    let mut game_sets: Vec<CubeSet> = Vec::new();
    let mut i: usize = 0;
    while i < texts.len()
        invariant
            ts == texts@.map_values(|w: Vec<char>| w@),
            ts == split_spec(s@.skip(p + 1), ';'),
            s@ == line@,
            has_char(s@, ':'),
            first_of(s@, ':') == p,
            t@ == without(s@.take(p as int), ' '),
            t@.len() >= 4,
            t@.take(4) == seq!['G', 'a', 'm', 'e'],
            number_of(t@.skip(4)) == Some(game_id),
            i <= texts.len(),
            game_sets@.len() == i,
            forall|k: int| 0 <= k < i ==> set_of(#[trigger] ts[k]) == Some(game_sets@[k]),
        decreases texts.len() - i,
    {
        assert(ts[i as int] == texts@[i as int]@);
        match parsing_set(&texts[i]) {
            Some(set) => {
                game_sets.push(set);
            },
            None => {
                assert(set_of(ts[i as int]) is None);
                return None;
            },
        }
        i = i + 1;
    }
    assert(game_sets@ =~= ts.map_values(|x: Seq<char>| set_of(x)->Some_0));
    Some((game_id, game_sets))
}

/// Whether every colour drawn is drawn no more often than `maximum_values`
/// allows; a colour missing from either side is not checked.
pub fn validate_game(maximum_values: &CubeSet, game: &CubeSet) -> (r: bool)
    ensures
        r == within(*maximum_values, *game),
{
    let blue_ok = match (game.blue, maximum_values.blue) {
        (Some(v), Some(m)) => v <= m,
        _ => true,
    };
    let red_ok = match (game.red, maximum_values.red) {
        (Some(v), Some(m)) => v <= m,
        _ => true,
    };
    let green_ok = match (game.green, maximum_values.green) {
        (Some(v), Some(m)) => v <= m,
        _ => true,
    };
    blue_ok && red_ok && green_ok
}

fn max_count_exec(game_sets: &Vec<CubeSet>, c: CubeType) -> (r: Option<i32>)
    ensures
        match r {
            Some(v) => max_count(game_sets@, c) == Some(v as int),
            None => max_count(game_sets@, c) is None,
        },
{
    let mut best: Option<i32> = None;
    let mut i: usize = 0;
    while i < game_sets.len()
        invariant
            i <= game_sets.len(),
            match best {
                Some(v) => max_count(game_sets@.take(i as int), c) == Some(v as int),
                None => max_count(game_sets@.take(i as int), c) is None,
            },
        decreases game_sets.len() - i,
    {
        assert(game_sets@.take(i + 1).drop_last() =~= game_sets@.take(i as int));
        match game_sets[i].count(c) {
            Some(b) => {
                best = match best {
                    Some(a) => if a < b {
                        Some(b)
                    } else {
                        Some(a)
                    },
                    None => Some(b),
                };
            },
            None => {},
        }
        i = i + 1;
    }
    assert(game_sets@.take(game_sets.len() as int) =~= game_sets@);
    best
}

fn times_exec(acc: i32, m: Option<i32>) -> (r: Option<i32>)
    ensures
        match r {
            Some(v) => times(Some(acc as int), match m {
                Some(x) => Some(x as int),
                None => None,
            }) == Some(v as int),
            None => times(Some(acc as int), match m {
                Some(x) => Some(x as int),
                None => None,
            }) is None,
        },
{
    match m {
        Some(b) => acc.checked_mul(b),
        None => Some(acc),
    }
}

/// The product of the largest count of each colour drawn.
pub fn get_game_power(game_sets: &Vec<CubeSet>) -> (r: Option<i32>)
    ensures
        match r {
            Some(v) => power(game_sets@) == Some(v as int),
            None => power(game_sets@) is None,
        },
{
    let blue = max_count_exec(game_sets, CubeType::Blue);
    let red = max_count_exec(game_sets, CubeType::Red);
    let green = max_count_exec(game_sets, CubeType::Green);
    let p1 = match times_exec(1, blue) {
        Some(v) => v,
        None => {
            return None;
        },
    };
    let p2 = match times_exec(p1, red) {
        Some(v) => v,
        None => {
            return None;
        },
    };
    times_exec(p2, green)
}

pub struct Day02 {}

impl Day02 {
    /// Solves both parts on the text of a puzzle input, with the time each
    /// took; `None` where either part has no answer.
    pub fn run(input: &str) -> (r: Option<(String, String, String, u128, u128)>)
        ensures
            r is Some <==> possible_sum(lines_spec(input@)) is Some && power_sum(lines_spec(input@)) is Some,
            r matches Some(t) ==> t.0@ == "Day_02"@ && t.1@ == decimal_of(possible_sum(lines_spec(input@))->Some_0)
                && t.2@ == decimal_of(power_sum(lines_spec(input@))->Some_0),
    {
        let lines = split_lines(input);
        let start_1 = start_clock();
        let result_1 = Day02::part_01(&lines);
        let time_calculation_1 = elapsed_since(&start_1);
        let start_2 = start_clock();
        let result_2 = Day02::part_02(&lines);
        let time_calculation_2 = elapsed_since(&start_2);
        match (result_1, result_2) {
            (Some(a), Some(b)) => Some(
                (
                    "Day_02".to_owned(),
                    decimal_i128(a as i128),
                    decimal_i128(b as i128),
                    nanos_of(&time_calculation_1),
                    nanos_of(&time_calculation_2),
                ),
            ),
            _ => None,
        }
    }

    /// The sum of the numbers of the games possible with 12 red, 13 green and
    /// 14 blue cubes.
    pub fn part_01(lines: &Vec<&str>) -> (r: Option<i32>)
        ensures
            match r {
                Some(v) => possible_sum(lines_view(lines@)) == Some(v as int),
                None => possible_sum(lines_view(lines@)) is None,
            },
    {
        let maximum_values = CubeSet { blue: Some(14), red: Some(12), green: Some(13) };
        let ghost g = lines_view(lines@);
        let mut total_sum: i32 = 0;
        let mut i: usize = 0;
        while i < lines.len()
            invariant
                g == lines_view(lines@),
                maximum_values == bag(),
                i <= lines.len(),
                possible_sum(g.take(i as int)) == Some(total_sum as int),
            decreases lines.len() - i,
        {
            assert(g.take(i + 1).drop_last() =~= g.take(i as int));
            assert(g.take(i + 1).last() == lines@[i as int]@);
            let (game_id, game_sets) = match parsing_input(lines[i]) {
                Some(x) => x,
                None => {
                    proof {
                        lemma_sum_stops(g, i as int + 1, g.len() as int, true);
                        assert(g.take(g.len() as int) =~= g);
                    }
                    return None;
                },
            };
            let mut possible = true;
            let mut k: usize = 0;
            while k < game_sets.len()
                invariant
                    k <= game_sets.len(),
                    maximum_values == bag(),
                    possible == forall|j: int| 0 <= j < k ==> within(bag(), #[trigger] game_sets@[j]),
                decreases game_sets.len() - k,
            {
                if !validate_game(&maximum_values, &game_sets[k]) {
                    possible = false;
                }
                k = k + 1;
            }
            let add = if possible {
                game_id
            } else {
                0
            };
            if (total_sum as i64) + (add as i64) < i32::MIN as i64 || (total_sum as i64) + (add as i64)
                > i32::MAX as i64 {
                proof {
                    lemma_sum_stops(g, i as int + 1, g.len() as int, true);
                    assert(g.take(g.len() as int) =~= g);
                }
                return None;
            }
            total_sum = total_sum + add;
            i = i + 1;
        }
        assert(g.take(lines.len() as int) =~= g);
        Some(total_sum)
    }

    /// The sum of the powers of all games.
    pub fn part_02(lines: &Vec<&str>) -> (r: Option<i32>)
        ensures
            match r {
                Some(v) => power_sum(lines_view(lines@)) == Some(v as int),
                None => power_sum(lines_view(lines@)) is None,
            },
    {
        let ghost g = lines_view(lines@);
        let mut total_sum: i32 = 0;
        let mut i: usize = 0;
        while i < lines.len()
            invariant
                g == lines_view(lines@),
                i <= lines.len(),
                power_sum(g.take(i as int)) == Some(total_sum as int),
            decreases lines.len() - i,
        {
            assert(g.take(i + 1).drop_last() =~= g.take(i as int));
            assert(g.take(i + 1).last() == lines@[i as int]@);
            let game_sets = match parsing_input(lines[i]) {
                Some((_, sets)) => sets,
                None => {
                    proof {
                        lemma_sum_stops(g, i as int + 1, g.len() as int, false);
                        assert(g.take(g.len() as int) =~= g);
                    }
                    return None;
                },
            };
            let power = match get_game_power(&game_sets) {
                Some(v) => v,
                None => {
                    proof {
                        lemma_sum_stops(g, i as int + 1, g.len() as int, false);
                        assert(g.take(g.len() as int) =~= g);
                    }
                    return None;
                },
            };
            if (total_sum as i64) + (power as i64) < i32::MIN as i64 || (total_sum as i64) + (
            power as i64) > i32::MAX as i64 {
                proof {
                    lemma_sum_stops(g, i as int + 1, g.len() as int, false);
                    assert(g.take(g.len() as int) =~= g);
                }
                return None;
            }
            total_sum = total_sum + power;
            i = i + 1;
        }
        assert(g.take(lines.len() as int) =~= g);
        Some(total_sum)
    }
}

/// Once a prefix has no sum, no longer prefix has one.
pub proof fn lemma_sum_stops(g: Seq<Seq<char>>, i: int, j: int, first: bool)
    requires
        1 <= i <= j <= g.len(),
        first ==> possible_sum(g.take(i)) is None,
        !first ==> power_sum(g.take(i)) is None,
    ensures
        first ==> possible_sum(g.take(j)) is None,
        !first ==> power_sum(g.take(j)) is None,
    decreases j - i,
{
    if j > i {
        lemma_sum_stops(g, i, j - 1, first);
        assert(g.take(j).drop_last() =~= g.take(j - 1));
    }
}

} // verus!
