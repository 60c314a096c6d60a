//! Rock paper scissors: a strategy guide of rounds, scored by the shape
//! played and the outcome.
use crate::clock::{decimal_i128, decimal_of, elapsed_since, nanos_of, start_clock};
use crate::text::{chars_of, lines_spec, lines_view, split_by, split_lines, split_spec};
use vstd::prelude::*;

verus! {

#[derive(Clone, Copy, PartialEq, Eq, Structural, Debug)]
pub enum RPS {
    Rock,
    Paper,
    Scissor,
}

pub open spec fn shape_of(w: Seq<char>) -> RPS {
    if w == seq!['A'] || w == seq!['X'] {
        RPS::Rock
    } else if w == seq!['B'] || w == seq!['Y'] {
        RPS::Paper
    } else {
        RPS::Scissor
    }
}

pub open spec fn outcome_of(w: Seq<char>) -> i32 {
    if w == seq!['X'] {
        -1i32
    } else if w == seq!['Y'] {
        0i32
    } else {
        1i32
    }
}

pub open spec fn shape_score(s: RPS) -> int {
    match s {
        RPS::Rock => 1,
        RPS::Paper => 2,
        RPS::Scissor => 3,
    }
}

/// 6 where `left` beats `right`, 3 for a draw, 0 for a loss.
pub open spec fn outcome_score(left: RPS, right: RPS) -> int {
    if left == right {
        3
    } else if (left == RPS::Paper && right == RPS::Rock) || (left == RPS::Rock && right
        == RPS::Scissor) || (left == RPS::Scissor && right == RPS::Paper) {
        6
    } else {
        0
    }
}

/// The shape that gives `expect` (-1 lose, 0 draw, 1 win) against `opponent`.
pub open spec fn chosen(opponent: RPS, expect: i32) -> RPS {
    if expect == 0 {
        opponent
    } else if expect == 1 {
        match opponent {
            RPS::Rock => RPS::Paper,
            RPS::Paper => RPS::Scissor,
            RPS::Scissor => RPS::Rock,
        }
    } else {
        match opponent {
            RPS::Rock => RPS::Scissor,
            RPS::Paper => RPS::Rock,
            RPS::Scissor => RPS::Paper,
        }
    }
}

/// A round's score: as shapes played, or, with `planned`, the second column
/// as the outcome to reach.
pub open spec fn round_score(line: Seq<char>, planned: bool) -> int {
    let w = split_spec(line, ' ');
    let opponent = shape_of(w[0]);
    let you = if planned {
        chosen(opponent, outcome_of(w[1]))
    } else {
        shape_of(w[1])
    };
    outcome_score(you, opponent) + shape_score(you)
}

pub open spec fn total_score(g: Seq<Seq<char>>, planned: bool) -> int
    decreases g.len(),
{
    if g.len() == 0 {
        0
    } else {
        total_score(g.drop_last(), planned) + round_score(g.last(), planned)
    }
}

/// Every line has two columns.
pub open spec fn guide_fits(g: Seq<Seq<char>>) -> bool {
    forall|i: int| 0 <= i < g.len() ==> (#[trigger] split_spec(g[i], ' ')).len() >= 2
}

/// Every line has two columns and the total score fits in `i32`.
pub open spec fn score_fits(g: Seq<Seq<char>>, planned: bool) -> bool {
    guide_fits(g) && total_score(g, planned) <= i32::MAX
}

pub proof fn lemma_total_grows(g: Seq<Seq<char>>, planned: bool, i: int, j: int)
    requires
        0 <= i <= j <= g.len(),
    ensures
        total_score(g.take(i), planned) <= total_score(g.take(j), planned),
    decreases j - i,
{
    if j > i {
        lemma_total_grows(g, planned, i, j - 1);
        assert(g.take(j).drop_last() =~= g.take(j - 1));
        assert(round_score(g.take(j).last(), planned) >= 0);
    }
}

fn is_letter(w: &Vec<char>, c: char) -> (r: bool)
    ensures
        r == (w@ == seq![c]),
{
    let r = w.len() == 1 && w[0] == c;
    proof {
        if w@ == seq![c] {
            assert(w@.len() == 1 && w@[0] == c);
        }
        if r {
            assert(w@ =~= seq![c]);
        }
    }
    r
}

pub struct Day02 {}

impl Day02 {
    pub fn command_score(input: &RPS) -> (r: i32)
        ensures
            r == shape_score(*input),
    {
        match input {
            RPS::Paper => 2,
            RPS::Rock => 1,
            RPS::Scissor => 3,
        }
    }

    pub fn comparing(left: &RPS, right: &RPS) -> (r: i32)
        ensures
            r == outcome_score(*left, *right),
    {
        match left {
            RPS::Paper => match right {
                RPS::Paper => 3,
                RPS::Rock => 6,
                RPS::Scissor => 0,
            },
            RPS::Rock => match right {
                RPS::Paper => 0,
                RPS::Rock => 3,
                RPS::Scissor => 6,
            },
            RPS::Scissor => match right {
                RPS::Paper => 6,
                RPS::Rock => 0,
                RPS::Scissor => 3,
            },
        }
    }

    /// `A`/`X` rock, `B`/`Y` paper, anything else scissors.
    pub fn convert_input(input: &Vec<char>) -> (r: RPS)
        ensures
            r == shape_of(input@),
    {
        if is_letter(input, 'A') || is_letter(input, 'X') {
            RPS::Rock
        } else if is_letter(input, 'B') || is_letter(input, 'Y') {
            RPS::Paper
        } else {
            RPS::Scissor
        }
    }

    /// `X` lose, `Y` draw, anything else win.
    pub fn convert_expected(input: &Vec<char>) -> (r: i32)
        ensures
            r == outcome_of(input@),
    {
        if is_letter(input, 'X') {
            -1
        } else if is_letter(input, 'Y') {
            0
        } else {
            1
        }
    }

    pub fn choose_shape(opponent: &RPS, expect_result: i32) -> (r: RPS)
        ensures
            r == chosen(*opponent, expect_result),
    {
        if expect_result == 0 {
            *opponent
        } else if expect_result == 1 {
            match opponent {
                RPS::Rock => RPS::Paper,
                RPS::Paper => RPS::Scissor,
                RPS::Scissor => RPS::Rock,
            }
        } else {
            match opponent {
                RPS::Rock => RPS::Scissor,
                RPS::Paper => RPS::Rock,
                RPS::Scissor => RPS::Paper,
            }
        }
    }

    fn score_all(lines: &Vec<&str>, planned: bool) -> (r: Option<i32>)
        ensures
            r is Some <==> score_fits(lines_view(lines@), planned),
            r matches Some(v) ==> v == total_score(lines_view(lines@), planned),
    {
        let ghost g = lines_view(lines@);
        let mut total: i32 = 0;
        let mut i: usize = 0;
        while i < lines.len()
            invariant
                g == lines_view(lines@),
                i <= lines.len(),
                total == total_score(g.take(i as int), planned),
                0 <= total,
                forall|k: int| 0 <= k < i ==> (#[trigger] split_spec(g[k], ' ')).len() >= 2,
            decreases lines.len() - i,
        {
            assert(g[i as int] == lines@[i as int]@);
            assert(g.take(i + 1).drop_last() =~= g.take(i as int));
            let values = split_by(&chars_of(lines[i]), ' ');
            let ghost ws = values@.map_values(|w: Vec<char>| w@);
            if values.len() < 2 {
                return None;
            }
            assert(ws[0] == values@[0]@ && ws[1] == values@[1]@);
            let opponent = Day02::convert_input(&values[0]);
            let you = if planned {
                let expected = Day02::convert_expected(&values[1]);
                Day02::choose_shape(&opponent, expected)
            } else {
                Day02::convert_input(&values[1])
            };
            let match_score = Day02::comparing(&you, &opponent) + Day02::command_score(&you);
            if total > i32::MAX - match_score {
                proof {
                    lemma_total_grows(g, planned, i + 1, g.len() as int);
                    assert(g.take(g.len() as int) =~= g);
                }
                return None;
            }
            total = total + match_score;
            i = i + 1;
        }
        assert(g.take(lines.len() as int) =~= g);
        Some(total)
    }

    /// The total score, the second column being the shape to play.
    pub fn part_01(lines: &Vec<&str>) -> (r: Option<i32>)
        ensures
            r is Some <==> score_fits(lines_view(lines@), false),
            r matches Some(v) ==> v == total_score(lines_view(lines@), false),
    {
        Day02::score_all(lines, false)
    }

    /// The total score, the second column being the outcome to reach.
    pub fn part_02(lines: &Vec<&str>) -> (r: Option<i32>)
        ensures
            r is Some <==> score_fits(lines_view(lines@), true),
            r matches Some(v) ==> v == total_score(lines_view(lines@), true),
    {
        Day02::score_all(lines, true)
    }

    /// Solves both parts on the text of a puzzle input, with the time each
    /// took; `None` where a line has no two columns or a total leaves `i32`.
    pub fn run(input: &str) -> (r: Option<(String, String, String, u128, u128)>)
        ensures
            r is Some <==> score_fits(lines_spec(input@), false) && score_fits(lines_spec(input@), true),
            r matches Some(t) ==> t.0@ == "Day_02"@ && t.1@ == decimal_of(total_score(lines_spec(input@), false))
                && t.2@ == decimal_of(total_score(lines_spec(input@), true)),
    {
        let lines = split_lines(input);
        let start_1 = start_clock();
        let result_1 = Day02::part_01(&lines);
        let time_calculation_1 = elapsed_since(&start_1);
        let start_2 = start_clock();
        let result_2 = Day02::part_02(&lines);
        let time_calculation_2 = elapsed_since(&start_2);
        match (result_1, result_2) {
            (Some(a), Some(b)) => Some(
                (
                    "Day_02".to_owned(),
                    decimal_i128(a as i128),
                    decimal_i128(b as i128),
                    nanos_of(&time_calculation_1),
                    nanos_of(&time_calculation_2),
                ),
            ),
            _ => None,
        }
    }
}

} // verus!
