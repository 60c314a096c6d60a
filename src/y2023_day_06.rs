//! Wait for it: boat races where holding the button for `h` of `T`
//! milliseconds goes `h * (T - h)` millimetres; count the holds that beat the
//! record.
use crate::clock::{decimal_i128, decimal_of, decimal_u128, elapsed_since, nanos_of, start_clock};
use crate::text::{
    all_digits, chars_of, digits_value, i32s_view, lines_spec, lines_view, numbers_within,
    parse_i32_list, parse_unsigned, remove_all, remove_text, split_lines, split_spec,
};
use vstd::prelude::*;

verus! {

/// How many holds `h < k` of a race of `total` milliseconds go further than
/// `record`.
pub open spec fn wins_below(total: int, record: int, k: int) -> int
    decreases k,
{
    if k <= 0 {
        0
    } else {
        wins_below(total, record, k - 1) + if (k - 1) * (total - (k - 1)) > record {
            1int
        } else {
            0int
        }
    }
}

/// The numbers of a line once `prefix` is taken out wherever it occurs.
pub open spec fn values_of(line: Seq<char>, prefix: Seq<char>) -> Seq<int> {
    numbers_within(split_spec(remove_all(line, prefix), ' '), i32::MIN as int, i32::MAX as int)
}

pub open spec fn time_label() -> Seq<char> {
    seq!['T', 'i', 'm', 'e', ':', ' ']
}

pub open spec fn distance_label() -> Seq<char> {
    seq!['D', 'i', 's', 't', 'a', 'n', 'c', 'e', ':', ' ']
}

/// The decimal forms of the values, written one after the other.
pub open spec fn joined(vs: Seq<int>) -> Seq<char>
    decreases vs.len(),
{
    if vs.len() == 0 {
        Seq::empty()
    } else {
        joined(vs.drop_last()) + decimal_of(vs.last())
    }
}

/// The joined digits as one number, as `str::parse::<u128>` reads it.
pub open spec fn joined_value(vs: Seq<int>) -> Option<int> {
    let j = joined(vs);
    if j.len() > 0 && all_digits(j) && digits_value(j) <= u128::MAX {
        Some(digits_value(j))
    } else {
        None
    }
}

/// How many holds beat the record.
pub fn find_win_solutions(total_duration: u128, minimum_distance: u128) -> (r: u128)
    requires
        total_duration <= u64::MAX,
    ensures
        r == wins_below(total_duration as int, minimum_distance as int, total_duration as int),
{
    let mut count: u128 = 0;
    let mut hold: u128 = 0;
    while hold < total_duration
        invariant
            total_duration <= u64::MAX,
            hold <= total_duration,
            count == wins_below(total_duration as int, minimum_distance as int, hold as int),
            count <= hold,
        decreases total_duration - hold,
    {
        let moving = total_duration - hold;
        assert(hold * moving <= 0xffff_ffff_ffff_ffff * 0xffff_ffff_ffff_ffff) by (nonlinear_arith)
            requires
                hold <= 0xffff_ffff_ffff_ffff,
                moving <= 0xffff_ffff_ffff_ffff,
        ;
        let distance = hold * moving;
        if distance > minimum_distance {
            count = count + 1;
        }
        hold = hold + 1;
    }
    count
}

/// The `i32` numbers of a line once `removing_prefix` is taken out.
pub fn parsing_values(input: &str, removing_prefix: &str) -> (r: Vec<i32>)
    requires
        removing_prefix@.len() > 0,
    ensures
        i32s_view(r@) == values_of(input@, removing_prefix@),
{
    let text = remove_text(&chars_of(input), &chars_of(removing_prefix));
    parse_i32_list(&text)
}

/// The times and the record distances of the races.
pub fn parsing_input(lines: &Vec<&str>) -> (r: (Vec<i32>, Vec<i32>))
    requires
        lines@.len() >= 2,
    ensures
        i32s_view(r.0@) == values_of(lines@[0]@, time_label()),
        i32s_view(r.1@) == values_of(lines@[1]@, distance_label()),
{
    let time_prefix = "Time: ";
    let distance_prefix = "Distance: ";
    proof {
        reveal_strlit("Time: ");
        reveal_strlit("Distance: ");
        assert(time_prefix@ =~= time_label());
        assert(distance_prefix@ =~= distance_label());
    }
    let times = parsing_values(lines[0], time_prefix);
    let distance = parsing_values(lines[1], distance_prefix);
    (times, distance)
}

fn join_values(values: &Vec<i32>) -> (r: Vec<char>)
    ensures
        r@ == joined(i32s_view(values@)),
{
    let ghost vs = i32s_view(values@);
    let mut text: Vec<char> = Vec::new();
    let mut i: usize = 0;
    while i < values.len()
        invariant
            vs == i32s_view(values@),
            i <= values.len(),
            text@ == joined(vs.take(i as int)),
        decreases values.len() - i,
    {
        assert(vs.take(i + 1).drop_last() =~= vs.take(i as int));
        let piece = decimal_i128(values[i] as i128);
        let piece_chars = chars_of(piece.as_str());
        let ghost before = text@;
        let mut k: usize = 0;
        while k < piece_chars.len()
            invariant
                k <= piece_chars.len(),
                text@ == before + piece_chars@.take(k as int),
            decreases piece_chars.len() - k,
        {
            text.push(piece_chars[k]);
            k = k + 1;
            assert(text@ =~= before + piece_chars@.take(k as int));
        }
        assert(piece_chars@.take(piece_chars.len() as int) =~= piece_chars@);
        i = i + 1;
    }
    assert(vs.take(values.len() as int) =~= vs);
    text
}

/// The single race that the numbers make once their digits are joined;
/// `None` where a joined number is no `u128`.
pub fn parsing_input_2(lines: &Vec<&str>) -> (r: Option<(u128, u128)>)
    requires
        lines@.len() >= 2,
    ensures
        match r {
            Some((t, d)) => joined_value(values_of(lines@[0]@, time_label())) == Some(t as int)
                && joined_value(values_of(lines@[1]@, distance_label())) == Some(d as int),
            None => joined_value(values_of(lines@[0]@, time_label())) is None || joined_value(
                values_of(lines@[1]@, distance_label()),
            ) is None,
        },
{
    let (times, distance) = parsing_input(lines);
    let duration = parse_unsigned(&join_values(&times));
    let record = parse_unsigned(&join_values(&distance));
    match (duration, record) {
        (Some(t), Some(d)) => Some((t, d)),
        _ => None,
    }
}

pub open spec fn product_of_wins(ts: Seq<int>, ds: Seq<int>) -> Option<int>
    decreases ts.len(),
{
    if ts.len() == 0 {
        Some(1)
    } else {
        match product_of_wins(ts.drop_last(), ds) {
            Some(p) => {
                let t = ts.last();
                let d = ds[ts.len() - 1];
                let w = wins_below(t, d, t);
                if t < 0 || d < 0 {
                    None
                } else if 0 <= p * w <= u128::MAX {
                    Some(p * w)
                } else {
                    None
                }
            },
            None => None,
        }
    }
}

/// The first part's answer: the product over the races; `None` where a
/// time has no distance, a value is negative or the product leaves `u128`.
pub open spec fn part_one_answer(g: Seq<Seq<char>>) -> Option<int> {
    let ts = values_of(g[0], time_label());
    let ds = values_of(g[1], distance_label());
    if ds.len() < ts.len() {
        None
    } else {
        product_of_wins(ts, ds)
    }
}

/// The second part's answer: the winning holds of the race with joined
/// digits; `None` where a joined number does not read, or the time exceeds
/// `u64` (the holds are counted one by one).
pub open spec fn part_two_answer(g: Seq<Seq<char>>) -> Option<int> {
    match (joined_value(values_of(g[0], time_label())), joined_value(values_of(g[1], distance_label()))) {
        (Some(t), Some(d)) => if t <= u64::MAX {
            Some(wins_below(t, d, t))
        } else {
            None
        },
        _ => None,
    }
}

pub proof fn lemma_product_stops(ts: Seq<int>, ds: Seq<int>, i: int, j: int)
    requires
        1 <= i <= j <= ts.len(),
        product_of_wins(ts.take(i), ds) is None,
    ensures
        product_of_wins(ts.take(j), ds) is None,
    decreases j - i,
{
    if j > i {
        lemma_product_stops(ts, ds, i, j - 1);
        assert(ts.take(j).drop_last() =~= ts.take(j - 1));
    }
}

pub proof fn lemma_wins_nonneg(t: int, d: int, k: int)
    ensures
        0 <= wins_below(t, d, k) <= if k > 0 {
            k
        } else {
            0
        },
    decreases k,
{
    if k > 0 {
        lemma_wins_nonneg(t, d, k - 1);
    }
}

pub struct Day06 {}

impl Day06 {
    /// Solves both parts on the text of a puzzle input, with the time each
    /// took; `None` where either part has no answer.
    pub fn run(input: &str) -> (r: Option<(String, String, String, u128, u128)>)
        ensures
            r is Some <==> lines_spec(input@).len() >= 2 && part_one_answer(lines_spec(input@)) is Some
                && part_two_answer(lines_spec(input@)) is Some,
            r matches Some(t) ==> t.0@ == "Day_06"@ && t.1@ == decimal_of(part_one_answer(lines_spec(input@))->Some_0)
                && t.2@ == decimal_of(part_two_answer(lines_spec(input@))->Some_0),
    {
        let lines = split_lines(input);
        if lines.len() < 2 {
            return None;
        }
        assert(lines_view(lines@)[0] == lines@[0]@ && lines_view(lines@)[1] == lines@[1]@);
        let start_1 = start_clock();
        let result_1 = Day06::part_01(&lines);
        let time_calculation_1 = elapsed_since(&start_1);
        let start_2 = start_clock();
        let result_2 = Day06::part_02(&lines);
        let time_calculation_2 = elapsed_since(&start_2);
        match (result_1, result_2) {
            (Some(a), Some(b)) => Some(
                (
                    "Day_06".to_owned(),
                    decimal_u128(a),
                    decimal_u128(b),
                    nanos_of(&time_calculation_1),
                    nanos_of(&time_calculation_2),
                ),
            ),
            _ => None,
        }
    }

    /// The product of the numbers of winning holds of each race; `None`
    /// where a time is negative, a distance has no time, or the product does
    /// not fit.
    pub fn part_01(lines: &Vec<&str>) -> (r: Option<u128>)
        requires
            lines@.len() >= 2,
        ensures
            match r {
                Some(v) => part_one_answer(lines_view(lines@)) == Some(v as int),
                None => part_one_answer(lines_view(lines@)) is None,
            },
    {
        assert(lines_view(lines@)[0] == lines@[0]@ && lines_view(lines@)[1] == lines@[1]@);
        let (times, distances) = parsing_input(lines);
        let ghost ts = i32s_view(times@);
        let ghost ds = i32s_view(distances@);
        let mut total_multiply: u128 = 1;
        let mut index: usize = 0;
        if distances.len() < times.len() {
            return None;
        }
        while index < times.len()
            invariant
                ts == i32s_view(times@),
                ds == i32s_view(distances@),
                ds.len() >= ts.len(),
                part_one_answer(lines_view(lines@)) == product_of_wins(ts, ds),
                index <= times.len(),
                product_of_wins(ts.take(index as int), ds) == Some(total_multiply as int),
            decreases times.len() - index,
        {
            assert(ts.take(index + 1).drop_last() =~= ts.take(index as int));
            let duration = times[index];
            let distance = distances[index];
            assert(ts.take(index + 1).last() == duration as int && ds[index as int] == distance as int);
            if duration < 0 || distance < 0 {
                proof {
                    lemma_product_stops(ts, ds, index + 1, ts.len() as int);
                    assert(ts.take(ts.len() as int) =~= ts);
                }
                return None;
            }
            let count = find_win_solutions(duration as u128, distance as u128);
            proof {
                lemma_wins_nonneg(duration as int, distance as int, duration as int);
            }
            total_multiply = match total_multiply.checked_mul(count) {
                Some(p) => p,
                None => {
                    proof {
                        lemma_product_stops(ts, ds, index + 1, ts.len() as int);
                        assert(ts.take(ts.len() as int) =~= ts);
                    }
                    return None;
                },
            };
            index = index + 1;
        }
        assert(ts.take(times.len() as int) =~= ts);
        Some(total_multiply)
    }

    /// The number of winning holds of the one race with joined digits;
    /// `None` where the joined numbers do not read or the time is too long.
    pub fn part_02(lines: &Vec<&str>) -> (r: Option<u128>)
        requires
            lines@.len() >= 2,
        ensures
            match r {
                Some(v) => part_two_answer(lines_view(lines@)) == Some(v as int),
                None => part_two_answer(lines_view(lines@)) is None,
            },
    {
        assert(lines_view(lines@)[0] == lines@[0]@ && lines_view(lines@)[1] == lines@[1]@);
        let (duration, distance) = match parsing_input_2(lines) {
            Some(p) => p,
            None => {
                return None;
            },
        };
        if duration > u64::MAX as u128 {
            return None;
        }
        let count = find_win_solutions(duration, distance);
        Some(count)
    }
}

} // verus!
