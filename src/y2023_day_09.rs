//! Mirage maintenance: each report is extended one value forwards and one
//! backwards by repeatedly taking differences until they are all zero.
use crate::clock::{decimal_i128, decimal_of, elapsed_since, nanos_of, start_clock};
use crate::text::{chars_of, lines_spec, lines_view, signed_value, split_by, split_lines, split_spec};
use vstd::prelude::*;

verus! {

pub open spec fn in_i128(v: int) -> bool {
    i128::MIN <= v <= i128::MAX
}

pub open spec fn ints_view(v: Seq<i128>) -> Seq<int> {
    v.map_values(|x: i128| x as int)
}

/// The differences of neighbouring values.
pub open spec fn diffs(s: Seq<int>) -> Seq<int> {
    Seq::new(
        (if s.len() > 0 {
            s.len() - 1
        } else {
            0
        }) as nat,
        |i: int| s[i + 1] - s[i],
    )
}

pub open spec fn all_zero(s: Seq<int>) -> bool {
    forall|i: int| 0 <= i < s.len() ==> s[i] == 0
}

/// The value that follows a non-empty report.
pub open spec fn extrapolated(s: Seq<int>) -> int
    decreases s.len(),
{
    if s.len() == 0 {
        0
    } else if all_zero(diffs(s)) {
        s.last()
    } else {
        s.last() + extrapolated(diffs(s))
    }
}

/// The value that precedes a non-empty report.
pub open spec fn extrapolated_backward(s: Seq<int>) -> int
    decreases s.len(),
{
    if s.len() == 0 {
        0
    } else if all_zero(diffs(s)) {
        s[0]
    } else {
        s[0] - extrapolated_backward(diffs(s))
    }
}

/// The numbers among the pieces, skipping those that are no number.
pub open spec fn numbers_in(pieces: Seq<Seq<char>>) -> Seq<int>
    decreases pieces.len(),
{
    if pieces.len() == 0 {
        Seq::empty()
    } else {
        let p = numbers_in(pieces.drop_last());
        match signed_value(pieces.last()) {
            Some(v) => if i128::MIN <= v <= i128::MAX {
                p.push(v)
            } else {
                p
            },
            None => p,
        }
    }
}

/// The values of one line of input.
pub open spec fn report_of(line: Seq<char>) -> Seq<int> {
    numbers_in(split_spec(line, ' '))
}

/// Every difference of neighbouring values fits in `i128`.
pub open spec fn diffs_fit(s: Seq<int>) -> bool {
    forall|i: int| 0 <= i < diffs(s).len() ==> in_i128(#[trigger] diffs(s)[i])
}

/// The whole difference table of a non-empty report, and both values it
/// extends the report by, fit in `i128`.
pub open spec fn table_fits(s: Seq<int>) -> bool
    decreases s.len(),
{
    if s.len() == 0 {
        false
    } else {
        &&& diffs_fit(s)
        &&& in_i128(extrapolated(s))
        &&& in_i128(extrapolated_backward(s))
        &&& (all_zero(diffs(s)) || table_fits(diffs(s)))
    }
}

pub open spec fn report_fits(s: Seq<int>) -> bool {
    table_fits(s)
}

/// The sum of the values that follow the reports; `None` where a report's
/// table does not fit or a partial sum leaves `i128`.
pub open spec fn forward_total(g: Seq<Seq<char>>) -> Option<int>
    decreases g.len(),
{
    if g.len() == 0 {
        Some(0)
    } else {
        match forward_total(g.drop_last()) {
            Some(t) => {
                let r = report_of(g.last());
                if table_fits(r) && in_i128(t + extrapolated(r)) {
                    Some(t + extrapolated(r))
                } else {
                    None
                }
            },
            None => None,
        }
    }
}

/// The sum of the values that precede the reports; `None` where a report's
/// table does not fit or a partial sum leaves `i128`.
pub open spec fn backward_total(g: Seq<Seq<char>>) -> Option<int>
    decreases g.len(),
{
    if g.len() == 0 {
        Some(0)
    } else {
        match backward_total(g.drop_last()) {
            Some(t) => {
                let r = report_of(g.last());
                if table_fits(r) && in_i128(t + extrapolated_backward(r)) {
                    Some(t + extrapolated_backward(r))
                } else {
                    None
                }
            },
            None => None,
        }
    }
}

pub proof fn lemma_totals_stop(g: Seq<Seq<char>>, forward: bool, i: int, j: int)
    requires
        1 <= i <= j <= g.len(),
        forward ==> forward_total(g.take(i)) is None,
        !forward ==> backward_total(g.take(i)) is None,
    ensures
        forward ==> forward_total(g.take(j)) is None,
        !forward ==> backward_total(g.take(j)) is None,
    decreases j - i,
{
    if j > i {
        lemma_totals_stop(g, forward, i, j - 1);
        assert(g.take(j).drop_last() =~= g.take(j - 1));
    }
}

pub open spec fn negated(s: Seq<int>) -> Seq<int> {
    s.map_values(|x: int| -x)
}

pub proof fn lemma_extrapolated_negated(s: Seq<int>)
    ensures
        extrapolated(negated(s)) == -extrapolated(s),
    decreases s.len(),
{
    if s.len() > 0 {
        let d = diffs(s);
        assert(diffs(negated(s)) =~= negated(d));
        assert(all_zero(negated(d)) == all_zero(d)) by {
            if all_zero(d) {
                assert forall|i: int| 0 <= i < negated(d).len() implies negated(d)[i] == 0 by {
                    assert(d[i] == 0);
                }
            }
            if all_zero(negated(d)) {
                assert forall|i: int| 0 <= i < d.len() implies d[i] == 0 by {
                    assert(negated(d)[i] == 0);
                }
            }
        }
        lemma_extrapolated_negated(d);
    }
}

/// Extending a report backward gives the value that extending the reversed
/// report forward gives.
pub proof fn lemma_backward_is_reversed_forward(s: Seq<int>)
    ensures
        extrapolated_backward(s) == extrapolated(s.reverse()),
    decreases s.len(),
{
    if s.len() > 0 {
        let d = diffs(s);
        let r = s.reverse();
        assert(diffs(r) =~= negated(d.reverse()));
        assert(all_zero(diffs(r)) == all_zero(d)) by {
            if all_zero(d) {
                assert forall|i: int| 0 <= i < diffs(r).len() implies diffs(r)[i] == 0 by {
                    assert(d[d.len() - 1 - i] == 0);
                }
            }
            if all_zero(diffs(r)) {
                assert forall|i: int| 0 <= i < d.len() implies d[i] == 0 by {
                    assert(diffs(r)[d.len() - 1 - i] == 0);
                }
            }
        }
        assert(r.last() == s[0]);
        lemma_extrapolated_negated(d.reverse());
        lemma_backward_is_reversed_forward(d);
    }
}

/// Whether every value is zero.
fn all_zero_exec(v: &Vec<i128>) -> (r: bool)
    ensures
        r == all_zero(ints_view(v@)),
{
    let mut i: usize = 0;
    while i < v.len()
        invariant
            i <= v.len(),
            forall|j: int| 0 <= j < i ==> v@[j] == 0,
        decreases v.len() - i,
    {
        if v[i] != 0 {
            assert(ints_view(v@)[i as int] != 0);
            return false;
        }
        i = i + 1;
    }
    assert forall|j: int| 0 <= j < ints_view(v@).len() implies ints_view(v@)[j] == 0 by {
        assert(v@[j] == 0);
    }
    true
}

/// The differences of neighbouring values.
pub fn find_different_step(numbers: &Vec<i128>) -> (r: Vec<i128>)
    requires
        diffs_fit(ints_view(numbers@)),
    ensures
        ints_view(r@) == diffs(ints_view(numbers@)),
{
    let ghost s = ints_view(numbers@);
    let mut r: Vec<i128> = Vec::new();
    let mut i: usize = 1;
    while i < numbers.len()
        invariant
            s == ints_view(numbers@),
            diffs_fit(s),
            1 <= i,
            i <= numbers.len() || i == 1,
            r@.len() == i - 1,
            forall|j: int| 0 <= j < r@.len() ==> #[trigger] r@[j] == s[j + 1] - s[j],
        decreases numbers.len() - i,
    {
        assert(in_i128(diffs(s)[i - 1]));
        r.push(numbers[i] - numbers[i - 1]);
        i = i + 1;
    }
    assert(s.len() == numbers@.len());
    if numbers.len() > 0 {
        assert(r@.len() == numbers@.len() - 1);
        assert(diffs(s).len() == numbers@.len() - 1);
    }
    assert(ints_view(r@).len() == diffs(s).len());
    assert forall|j: int| 0 <= j < diffs(s).len() implies ints_view(r@)[j] == diffs(s)[j] by {
        assert(r@[j] == s[j + 1] - s[j]);
    }
    assert(ints_view(r@) =~= diffs(s));
    r
}

/// Appends the next value of `current`, given the level below it with its
/// next value already appended (or `None` under the last level).
pub fn find_extrapolated(prev: Option<Vec<i128>>, current: &mut Vec<i128>)
    requires
        prev matches Some(p) ==> p@.len() > 0 && old(current)@.len() > 0 && i128::MIN <= old(
            current,
        )@.last() + p@.last() <= i128::MAX,
    ensures
        prev is None ==> final(current)@ == old(current)@.push(0),
        prev matches Some(p) ==> final(current)@ == old(current)@.push(
            (old(current)@.last() + p@.last()) as i128,
        ),
{
    match prev {
        None => current.push(0),
        Some(p) => {
            let prev_last_value = p[p.len() - 1];
            let last_value = current[current.len() - 1];
            current.push(last_value + prev_last_value);
        },
    }
}

/// Puts the value that precedes `current` in front of it, given the level
/// below it with its own value already put in front (or `None` under the
/// last level).
pub fn find_extrapolated_backward(prev: Option<Vec<i128>>, current: &mut Vec<i128>)
    requires
        prev matches Some(p) ==> p@.len() > 0 && old(current)@.len() > 0 && i128::MIN <= old(
            current,
        )@[0] - p@[0] <= i128::MAX,
    ensures
        prev is None ==> final(current)@ == seq![0i128] + old(current)@,
        prev matches Some(p) ==> final(current)@ == seq![(old(current)@[0] - p@[0]) as i128] + old(
            current,
        )@,
{
    match prev {
        None => current.insert(0, 0),
        Some(p) => {
            let prev_first_value = p[0];
            let first_value = current[0];
            current.insert(0, first_value - prev_first_value);
        },
    }
}

fn copy_values(v: &Vec<i128>) -> (r: Vec<i128>)
    ensures
        r@ == v@,
{
    let mut r: Vec<i128> = Vec::new();
    let mut i: usize = 0;
    while i < v.len()
        invariant
            i <= v.len(),
            r@ == v@.take(i as int),
        decreases v.len() - i,
    {
        r.push(v[i]);
        i = i + 1;
        assert(r@ =~= v@.take(i as int));
    }
    assert(v@.take(v.len() as int) =~= v@);
    r
}

/// The levels of differences under a report, down to the first that is all
/// zero.
fn difference_levels(input: &Vec<i128>) -> (r: Vec<Vec<i128>>)
    requires
        report_fits(ints_view(input@)),
    ensures
        r@.len() >= 2,
        r@[0]@ == input@,
        forall|i: int| 0 <= i < r@.len() - 1 ==> ints_view(#[trigger] r@[i + 1]@) == diffs(ints_view(r@[i]@)),
        forall|i: int| 1 <= i < r@.len() - 1 ==> !all_zero(ints_view(#[trigger] r@[i]@)),
        all_zero(ints_view(r@.last()@)),
        forall|i: int| 0 <= i < r@.len() ==> (#[trigger] r@[i]@).len() == input@.len() - i,
        forall|i: int| 0 <= i < r@.len() - 1 ==> table_fits(ints_view(#[trigger] r@[i]@)),
        r@.len() <= input@.len() + 1,
{
    let n = input.len();
    let mut sequences: Vec<Vec<i128>> = Vec::new();
    sequences.push(copy_values(input));
    loop
        invariant
            n == input@.len(),
            1 <= n,
            1 <= sequences@.len() <= n + 1,
            sequences@[0]@ == input@,
            forall|i: int| 0 <= i < sequences@.len() - 1 ==> ints_view(#[trigger] sequences@[i + 1]@) == diffs(ints_view(sequences@[i]@)),
            forall|i: int| 1 <= i < sequences@.len() ==> !all_zero(ints_view(#[trigger] sequences@[i]@)),
            forall|i: int| 0 <= i < sequences@.len() ==> (#[trigger] sequences@[i]@).len() == n - i,
            forall|i: int| 0 <= i < sequences@.len() ==> table_fits(ints_view(#[trigger] sequences@[i]@)),
        decreases n + 1 - sequences@.len(),
    {
        let j = sequences.len() - 1;
        assert(table_fits(ints_view(sequences@[j as int]@)));
        assert(ints_view(sequences@[j as int]@).len() >= 1);
        assert(ints_view(sequences@[j as int]@).len() == sequences@[j as int]@.len());
        let current_values = find_different_step(&sequences[j]);
        let zero = all_zero_exec(&current_values);
        let ghost before = sequences@;
        sequences.push(current_values);
        assert(sequences@[j + 1] == current_values);
        assert forall|i: int| 0 <= i < before.len() implies sequences@[i] == before[i] by {}
        if zero {
            return sequences;
        }
        assert(j + 1 < n) by {
            if j + 1 >= n {
                assert(all_zero(ints_view(current_values@)));
            }
        }
        assert(table_fits(ints_view(current_values@)));
    }
}

pub open spec fn level_values(levels: Seq<Vec<i128>>, i: int) -> Seq<int> {
    ints_view(levels[i]@)
}

/// The difference levels of a report, as `difference_levels` gives them.
pub open spec fn are_levels(levels: Seq<Vec<i128>>, input: Seq<i128>) -> bool {
    &&& levels.len() >= 2
    &&& levels[0]@ == input
    &&& forall|i: int| 0 <= i < levels.len() - 1 ==> #[trigger] level_values(levels, i + 1) == diffs(level_values(levels, i))
    &&& forall|i: int| 1 <= i < levels.len() - 1 ==> !all_zero(#[trigger] level_values(levels, i))
    &&& all_zero(level_values(levels, levels.len() - 1))
    &&& forall|i: int| 0 <= i < levels.len() ==> (#[trigger] levels[i]@).len() == input.len() - i
    &&& forall|i: int| 0 <= i < levels.len() - 1 ==> table_fits(#[trigger] level_values(levels, i))
    &&& levels.len() <= input.len() + 1
    &&& 1 <= input.len()
}

/// Each level above the last one is non-empty, and extends to values that
/// fit in `i128`.
pub proof fn lemma_level_fits(levels: Seq<Vec<i128>>, input: Seq<i128>, m: int)
    requires
        are_levels(levels, input),
        0 <= m < levels.len() - 1,
    ensures
        in_i128(extrapolated(level_values(levels, m))),
        in_i128(extrapolated_backward(level_values(levels, m))),
        level_values(levels, m).len() >= 1,
{
    assert(table_fits(level_values(levels, m)));
}

/// The value that follows the report.
pub fn process_extrapolated(input: &Vec<i128>) -> (r: i128)
    requires
        report_fits(ints_view(input@)),
    ensures
        r == extrapolated(ints_view(input@)),
{
    let sequences = difference_levels(input);
    let ghost levels = sequences@;
    assert(are_levels(levels, input@));
    let k = sequences.len() - 1;
    let mut prev: Option<Vec<i128>> = None;
    let mut i: usize = k + 1;
    while i > 0
        invariant
            levels == sequences@,
            are_levels(levels, input@),
            k == levels.len() - 1,
            i <= k + 1,
            i == k + 1 ==> prev is None,
            i <= k ==> (prev matches Some(p) && p@.len() == levels[i as int]@.len() + 1 && p@.last() as int == if i == k {
                0
            } else {
                extrapolated(level_values(levels, i as int))
            }),
        decreases i,
    {
        let m = i - 1;
        let mut current = copy_values(&sequences[m]);
        proof {
            if m < k {
                lemma_level_fits(levels, input@, m as int);
                if m + 1 < k {
                    lemma_level_fits(levels, input@, m + 1);
                }
                assert(level_values(levels, m as int).last() == current@.last());
            }
        }
        let ghost old_prev = prev;
        find_extrapolated(prev, &mut current);
        proof {
            if m < k {
                let s = level_values(levels, m as int);
                assert(diffs(s) == level_values(levels, m + 1));
            }
        }
        prev = Some(current);
        i = m;
    }
    proof {
        lemma_level_fits(levels, input@, 0);
        assert(level_values(levels, 0) == ints_view(input@));
    }
    match prev {
        Some(p) => p[p.len() - 1],
        None => 0,
    }
}

/// The value that precedes the report.
pub fn process_extrapolated_backward(input: &Vec<i128>) -> (r: i128)
    requires
        report_fits(ints_view(input@)),
    ensures
        r == extrapolated_backward(ints_view(input@)),
{
    let sequences = difference_levels(input);
    let ghost levels = sequences@;
    assert(are_levels(levels, input@));
    let k = sequences.len() - 1;
    let mut prev: Option<Vec<i128>> = None;
    let mut i: usize = k + 1;
    while i > 0
        invariant
            levels == sequences@,
            are_levels(levels, input@),
            k == levels.len() - 1,
            i <= k + 1,
            i == k + 1 ==> prev is None,
            i <= k ==> (prev matches Some(p) && p@.len() == levels[i as int]@.len() + 1 && p@[0] as int == if i == k {
                0
            } else {
                extrapolated_backward(level_values(levels, i as int))
            }),
        decreases i,
    {
        let m = i - 1;
        let mut current = copy_values(&sequences[m]);
        proof {
            if m < k {
                lemma_level_fits(levels, input@, m as int);
                if m + 1 < k {
                    lemma_level_fits(levels, input@, m + 1);
                }
                assert(level_values(levels, m as int)[0] == current@[0]);
            }
        }
        find_extrapolated_backward(prev, &mut current);
        proof {
            if m < k {
                let s = level_values(levels, m as int);
                assert(diffs(s) == level_values(levels, m + 1));
            }
        }
        prev = Some(current);
        i = m;
    }
    proof {
        lemma_level_fits(levels, input@, 0);
        assert(level_values(levels, 0) == ints_view(input@));
    }
    match prev {
        Some(p) => p[0],
        None => 0,
    }
}

/// The numbers of a line, separated by single spaces; pieces that are no
/// number are skipped.
pub fn parse_line(input: &str) -> (r: Vec<i128>)
    ensures
        ints_view(r@) == report_of(input@),
{
    let chars = chars_of(input);
    let pieces = split_by(&chars, ' ');
    let ghost ps = pieces@.map_values(|w: Vec<char>| w@);
    let mut r: Vec<i128> = Vec::new();
    let mut i: usize = 0;
    while i < pieces.len()
        invariant
            ps == pieces@.map_values(|w: Vec<char>| w@),
            ps == split_spec(input@, ' '),
            i <= pieces.len(),
            ints_view(r@) == numbers_in(ps.take(i as int)),
        decreases pieces.len() - i,
    {
        assert(ps.take(i + 1).drop_last() =~= ps.take(i as int));
        assert(ps[i as int] == pieces@[i as int]@);
        match crate::text::parse_signed(&pieces[i]) {
            Some(v) => {
                r.push(v);
                assert(ints_view(r@) =~= numbers_in(ps.take(i as int)).push(v as int));
            },
            None => {},
        }
        i = i + 1;
    }
    assert(ps.take(pieces.len() as int) =~= ps);
    r
}

/// The report of each line.
pub fn parse_input(input: &Vec<&str>) -> (r: Vec<Vec<i128>>)
    ensures
        r@.len() == input@.len(),
        forall|i: int| 0 <= i < r@.len() ==> ints_view(#[trigger] r@[i]@) == report_of(input@[i]@),
{
    let mut r: Vec<Vec<i128>> = Vec::new();
    let mut i: usize = 0;
    while i < input.len()
        invariant
            i <= input.len(),
            r@.len() == i,
            forall|j: int| 0 <= j < i ==> ints_view(#[trigger] r@[j]@) == report_of(input@[j]@),
        decreases input.len() - i,
    {
        r.push(parse_line(input[i]));
        i = i + 1;
    }
    r
}

/// Both values a report extends by, where its difference table fits in
/// `i128`.
pub fn extrapolate_checked(s: &Vec<i128>) -> (r: Option<(i128, i128)>)
    ensures
        match r {
            Some((f, b)) => table_fits(ints_view(s@)) && f == extrapolated(ints_view(s@)) && b == extrapolated_backward(
                ints_view(s@),
            ),
            None => !table_fits(ints_view(s@)),
        },
    decreases s@.len(),
{
    let ghost v = ints_view(s@);
    if s.len() == 0 {
        return None;
    }
    let mut d: Vec<i128> = Vec::new();
    let mut i: usize = 1;
    while i < s.len()
        invariant
            v == ints_view(s@),
            1 <= i <= s.len(),
            d@.len() == i - 1,
            forall|j: int| 0 <= j < d@.len() ==> #[trigger] d@[j] == v[j + 1] - v[j],
        decreases s.len() - i,
    {
        match s[i].checked_sub(s[i - 1]) {
            Some(x) => {
                d.push(x);
            },
            None => {
                assert(!in_i128(diffs(v)[i - 1]));
                return None;
            },
        }
        i = i + 1;
    }
    assert(ints_view(d@) =~= diffs(v));
    assert(diffs_fit(v)) by {
        assert forall|j: int| 0 <= j < diffs(v).len() implies in_i128(#[trigger] diffs(v)[j]) by {
            assert(diffs(v)[j] == d@[j] as int);
        }
    }
    let last = s[s.len() - 1];
    let first = s[0];
    if all_zero_exec(&d) {
        return Some((last, first));
    }
    match extrapolate_checked(&d) {
        None => None,
        Some((f, b)) => match (last.checked_add(f), first.checked_sub(b)) {
            (Some(x), Some(y)) => Some((x, y)),
            _ => None,
        },
    }
}

pub struct Day09 {}

impl Day09 {
    /// Solves both parts on the text of a puzzle input, with the time each
    /// took; `None` where either part has no answer.
    pub fn run(input: &str) -> (r: Option<(String, String, String, u128, u128)>)
        ensures
            r is Some <==> forward_total(lines_spec(input@)) is Some && backward_total(lines_spec(input@)) is Some,
            r matches Some(t) ==> t.0@ == "Day_09"@ && t.1@ == decimal_of(forward_total(lines_spec(input@))->Some_0)
                && t.2@ == decimal_of(backward_total(lines_spec(input@))->Some_0),
    {
        let lines = split_lines(input);
        let start_1 = start_clock();
        let result_1 = Day09::part_01(&lines);
        let time_calculation_1 = elapsed_since(&start_1);
        let start_2 = start_clock();
        let result_2 = Day09::part_02(&lines);
        let time_calculation_2 = elapsed_since(&start_2);
        match (result_1, result_2) {
            (Some(a), Some(b)) => Some(
                (
                    "Day_09".to_owned(),
                    decimal_i128(a),
                    decimal_i128(b),
                    nanos_of(&time_calculation_1),
                    nanos_of(&time_calculation_2),
                ),
            ),
            _ => None,
        }
    }

    /// The sum of the values that follow each report.
    pub fn part_01(lines: &Vec<&str>) -> (r: Option<i128>)
        ensures
            match r {
                Some(v) => forward_total(lines_view(lines@)) == Some(v as int),
                None => forward_total(lines_view(lines@)) is None,
            },
    {
        Day09::total(lines, true)
    }

    /// The sum of the values that precede each report.
    pub fn part_02(lines: &Vec<&str>) -> (r: Option<i128>)
        ensures
            match r {
                Some(v) => backward_total(lines_view(lines@)) == Some(v as int),
                None => backward_total(lines_view(lines@)) is None,
            },
    {
        Day09::total(lines, false)
    }

    fn total(lines: &Vec<&str>, forward: bool) -> (r: Option<i128>)
        ensures
            forward ==> match r {
                Some(v) => forward_total(lines_view(lines@)) == Some(v as int),
                None => forward_total(lines_view(lines@)) is None,
            },
            !forward ==> match r {
                Some(v) => backward_total(lines_view(lines@)) == Some(v as int),
                None => backward_total(lines_view(lines@)) is None,
            },
    {
        let reports = parse_input(lines);
        let ghost g = lines_view(lines@);
        let mut total: i128 = 0;
        let mut i: usize = 0;
        while i < reports.len()
            invariant
                g == lines_view(lines@),
                reports@.len() == g.len(),
                forall|j: int| 0 <= j < reports@.len() ==> ints_view(#[trigger] reports@[j]@) == report_of(lines@[j]@),
                i <= reports.len(),
                forward ==> forward_total(g.take(i as int)) == Some(total as int),
                !forward ==> backward_total(g.take(i as int)) == Some(total as int),
            decreases reports.len() - i,
        {
            assert(g[i as int] == lines@[i as int]@);
            assert(g.take(i + 1).drop_last() =~= g.take(i as int));
            assert(g.take(i + 1).last() == g[i as int]);
            assert(ints_view(reports@[i as int]@) == report_of(g[i as int]));
            if extrapolate_checked(&reports[i]).is_none() {
                proof {
                    lemma_totals_stop(g, forward, i + 1, g.len() as int);
                    assert(g.take(g.len() as int) =~= g);
                }
                return None;
            }
            let v = if forward {
                process_extrapolated(&reports[i])
            } else {
                process_extrapolated_backward(&reports[i])
            };
            total = match total.checked_add(v) {
                Some(t) => t,
                None => {
                    proof {
                        lemma_totals_stop(g, forward, i + 1, g.len() as int);
                        assert(g.take(g.len() as int) =~= g);
                    }
                    return None;
                },
            };
            i = i + 1;
        }
        assert(g.take(reports.len() as int) =~= g);
        Some(total)
    }
}

} // verus!
