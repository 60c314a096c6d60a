//! Trebuchet calibration: each line's value is its first and last digit; in
//! the second part digits may also be spelled out.
use crate::clock::{decimal_i128, decimal_of, elapsed_since, nanos_of, start_clock};
use crate::text::{chars_of, is_digit, lines_spec, lines_view, split_lines};
use vstd::prelude::*;

verus! {

/// Largest line length handled; positions are `i32`.
pub const MAX_LINE: usize = 2147483647;

/// The position of the first digit at or after `i`, or -1.
pub open spec fn first_digit_from(s: Seq<char>, i: int) -> int
    decreases s.len() - i,
{
    if i < 0 || i >= s.len() {
        -1
    } else if is_digit(s[i]) {
        i
    } else {
        first_digit_from(s, i + 1)
    }
}

/// The position of the last digit before `k`, or -1.
pub open spec fn last_digit_before(s: Seq<char>, k: int) -> int
    decreases k,
{
    if k <= 0 || k > s.len() {
        -1
    } else if is_digit(s[k - 1]) {
        k - 1
    } else {
        last_digit_before(s, k - 1)
    }
}

pub open spec fn occurs_at(s: Seq<char>, w: Seq<char>, i: int) -> bool {
    0 <= i && i + w.len() <= s.len() && s.subrange(i, i + w.len()) == w
}

/// The first position at or after `i` where `w` occurs, or -1.
pub open spec fn first_from(s: Seq<char>, w: Seq<char>, i: int) -> int
    decreases s.len() - i,
{
    if i < 0 || i >= s.len() {
        -1
    } else if occurs_at(s, w, i) {
        i
    } else {
        first_from(s, w, i + 1)
    }
}

/// The last position before `k` where `w` occurs, or -1.
pub open spec fn last_before(s: Seq<char>, w: Seq<char>, k: int) -> int
    decreases k,
{
    if k <= 0 {
        -1
    } else if occurs_at(s, w, k - 1) {
        k - 1
    } else {
        last_before(s, w, k - 1)
    }
}

pub open spec fn digit_value(c: char) -> int {
    c as int - '0' as int
}

/// The first digit (position and value) and the last one; where there is
/// none, position `i32::MAX` and -1 respectively, value 0.
pub open spec fn digit_positions(s: Seq<char>) -> (int, int, int, int) {
    let f = first_digit_from(s, 0);
    let l = last_digit_before(s, s.len() as int);
    (
        if f >= 0 {
            f
        } else {
            i32::MAX as int
        },
        if f >= 0 {
            digit_value(s[f])
        } else {
            0
        },
        l,
        if l >= 0 {
            digit_value(s[l])
        } else {
            0
        },
    )
}

pub open spec fn spelled() -> Seq<Seq<char>> {
    seq![
        seq!['z', 'e', 'r', 'o'],
        seq!['o', 'n', 'e'],
        seq!['t', 'w', 'o'],
        seq!['t', 'h', 'r', 'e', 'e'],
        seq!['f', 'o', 'u', 'r'],
        seq!['f', 'i', 'v', 'e'],
        seq!['s', 'i', 'x'],
        seq!['s', 'e', 'v', 'e', 'n'],
        seq!['e', 'i', 'g', 'h', 't'],
        seq!['n', 'i', 'n', 'e'],
    ]
}

/// The first and last digit once the first `k` spelled digits are also
/// looked for, each word moving the first digit earlier or the last later.
pub open spec fn with_words(s: Seq<char>, k: int) -> (int, int, int, int)
    decreases k,
{
    if k <= 0 {
        digit_positions(s)
    } else {
        let (li, lv, ri, rv) = with_words(s, k - 1);
        let w = spelled()[k - 1];
        let f = first_from(s, w, 0);
        let l = last_before(s, w, s.len() as int);
        let (li2, lv2) = if f >= 0 && f < li {
            (f, k - 1)
        } else {
            (li, lv)
        };
        let (ri2, rv2) = if l >= 0 && l > ri {
            (l, k - 1)
        } else {
            (ri, rv)
        };
        (li2, lv2, ri2, rv2)
    }
}

pub open spec fn calibration(s: Seq<char>) -> int {
    digit_positions(s).1 * 10 + digit_positions(s).3
}

pub open spec fn spelled_calibration(s: Seq<char>) -> int {
    with_words(s, 10).1 * 10 + with_words(s, 10).3
}

pub open spec fn total(g: Seq<Seq<char>>, spelled_too: bool) -> int
    decreases g.len(),
{
    if g.len() == 0 {
        0
    } else {
        total(g.drop_last(), spelled_too) + if spelled_too {
            spelled_calibration(g.last())
        } else {
            calibration(g.last())
        }
    }
}

pub open spec fn lines_fit(g: Seq<Seq<char>>) -> bool {
    forall|i: int| 0 <= i < g.len() ==> (#[trigger] g[i]).len() <= MAX_LINE
}

pub proof fn lemma_total_grows(g: Seq<Seq<char>>, spelled_too: bool, i: int, j: int)
    requires
        0 <= i <= j <= g.len(),
    ensures
        total(g.take(i), spelled_too) <= total(g.take(j), spelled_too),
    decreases j - i,
{
    if j > i {
        lemma_total_grows(g, spelled_too, i, j - 1);
        assert(g.take(j).drop_last() =~= g.take(j - 1));
        let line = g.take(j).last();
        lemma_with_words(line, 10);
        lemma_first_digit(line, 0);
        lemma_last_digit(line, line.len() as int);
    }
}

pub proof fn lemma_first_digit(s: Seq<char>, i: int)
    requires
        0 <= i,
    ensures
        -1 <= first_digit_from(s, i) < s.len(),
        first_digit_from(s, i) >= 0 ==> first_digit_from(s, i) >= i && is_digit(s[first_digit_from(s, i)]),
    decreases s.len() - i,
{
    if i < s.len() && !is_digit(s[i]) {
        lemma_first_digit(s, i + 1);
    }
}

pub proof fn lemma_last_digit(s: Seq<char>, k: int)
    ensures
        -1 <= last_digit_before(s, k) < s.len(),
        last_digit_before(s, k) >= 0 ==> is_digit(s[last_digit_before(s, k)]),
    decreases k,
{
    if 0 < k <= s.len() && !is_digit(s[k - 1]) {
        lemma_last_digit(s, k - 1);
    }
}

pub proof fn lemma_first_from(s: Seq<char>, w: Seq<char>, i: int)
    requires
        0 <= i,
    ensures
        -1 <= first_from(s, w, i) < s.len(),
    decreases s.len() - i,
{
    if i < s.len() && !occurs_at(s, w, i) {
        lemma_first_from(s, w, i + 1);
    }
}

pub proof fn lemma_last_before(s: Seq<char>, w: Seq<char>, k: int)
    requires
        k <= s.len(),
    ensures
        -1 <= last_before(s, w, k) < s.len(),
    decreases k,
{
    if k > 0 && !occurs_at(s, w, k - 1) {
        lemma_last_before(s, w, k - 1);
    }
}

pub proof fn lemma_with_words(s: Seq<char>, k: int)
    requires
        0 <= k <= 10,
    ensures
        0 <= with_words(s, k).1 <= 9,
        0 <= with_words(s, k).3 <= 9,
        -1 <= with_words(s, k).2 < s.len(),
    decreases k,
{
    if k <= 0 {
        lemma_first_digit(s, 0);
        lemma_last_digit(s, s.len() as int);
    } else {
        lemma_with_words(s, k - 1);
        lemma_last_before(s, spelled()[k - 1], s.len() as int);
    }
}

/// Whether `w` occurs in `s` at `i`.
fn occurs_exec(s: &Vec<char>, w: &Vec<char>, i: usize) -> (r: bool)
    requires
        i <= s@.len(),
    ensures
        r == occurs_at(s@, w@, i as int),
{
    if s.len() - i < w.len() {
        return false;
    }
    let mut k: usize = 0;
    while k < w.len()
        invariant
            i + w.len() <= s.len(),
            k <= w@.len(),
            forall|j: int| 0 <= j < k ==> s@[i + j] == w@[j],
        decreases w.len() - k,
    {
        if s[i + k] != w[k] {
            assert(s@.subrange(i as int, i + w@.len())[k as int] != w@[k as int]);
            return false;
        }
        k = k + 1;
    }
    assert(s@.subrange(i as int, i + w@.len()) =~= w@);
    true
}

impl Day01 {
    /// The line's value from its digits, and where its first and last digit
    /// stand with their values.
    pub fn get_digit_input(line: &str) -> (r: (i32, [i32; 4]))
        requires
            line@.len() <= MAX_LINE,
        ensures
            r.0 == calibration(line@),
            r.1@ == seq![
                digit_positions(line@).0 as i32,
                digit_positions(line@).1 as i32,
                digit_positions(line@).2 as i32,
                digit_positions(line@).3 as i32,
            ],
    {
        let s = chars_of(line);
        let mut first: i32 = i32::MAX;
        let mut first_value: i32 = 0;
        let mut found = false;
        let mut i: usize = 0;
        while i < s.len() && !found
            invariant
                s@ == line@,
                s@.len() <= MAX_LINE,
                i <= s.len(),
                !found ==> first_digit_from(s@, 0) == first_digit_from(s@, i as int) && first == i32::MAX
                    && first_value == 0,
                found ==> first_digit_from(s@, 0) == first as int && 0 <= first < s@.len() && first_value
                    == digit_value(s@[first as int]),
            decreases s.len() - i, if found { 0int } else { 1int },
        {
            let c = s[i];
            if '0' <= c && c <= '9' {
                first = i as i32;
                first_value = (c as u32 - '0' as u32) as i32;
                found = true;
            } else {
                i = i + 1;
            }
        }
        let mut last: i32 = -1;
        let mut last_value: i32 = 0;
        let mut found_last = false;
        let mut k: usize = s.len();
        while k > 0 && !found_last
            invariant
                s@ == line@,
                s@.len() <= MAX_LINE,
                k <= s.len(),
                !found_last ==> last_digit_before(s@, s@.len() as int) == last_digit_before(s@, k as int)
                    && last == -1 && last_value == 0,
                found_last ==> last_digit_before(s@, s@.len() as int) == last as int && 0 <= last < s@.len()
                    && last_value == digit_value(s@[last as int]),
            decreases k, if found_last { 0int } else { 1int },
        {
            let c = s[k - 1];
            if '0' <= c && c <= '9' {
                last = (k - 1) as i32;
                last_value = (c as u32 - '0' as u32) as i32;
                found_last = true;
            } else {
                k = k - 1;
            }
        }
        proof {
            lemma_first_digit(s@, 0);
            lemma_last_digit(s@, s@.len() as int);
        }
        let result = first_value * 10 + last_value;
        let positions = [first, first_value, last, last_value];
        assert(positions@ =~= seq![first, first_value, last, last_value]);
        (result, positions)
    }
}

pub struct Day01 {}

fn first_from_exec(s: &Vec<char>, w: &Vec<char>) -> (r: i64)
    requires
        s@.len() <= MAX_LINE,
    ensures
        r == first_from(s@, w@, 0),
{
    let mut i: usize = 0;
    while i < s.len()
        invariant
            s@.len() <= MAX_LINE,
            i <= s.len(),
            first_from(s@, w@, 0) == first_from(s@, w@, i as int),
        decreases s.len() - i,
    {
        if occurs_exec(s, w, i) {
            return i as i64;
        }
        i = i + 1;
    }
    -1
}

fn last_before_exec(s: &Vec<char>, w: &Vec<char>) -> (r: i64)
    requires
        s@.len() <= MAX_LINE,
    ensures
        r == last_before(s@, w@, s@.len() as int),
{
    let mut k: usize = s.len();
    while k > 0
        invariant
            s@.len() <= MAX_LINE,
            k <= s.len(),
            last_before(s@, w@, s@.len() as int) == last_before(s@, w@, k as int),
        decreases k,
    {
        if occurs_exec(s, w, k - 1) {
            return (k - 1) as i64;
        }
        k = k - 1;
    }
    -1
}

fn spelled_words() -> (r: Vec<Vec<char>>)
    ensures
        r@.map_values(|w: Vec<char>| w@) == spelled(),
{
    let texts = ["zero", "one", "two", "three", "four", "five", "six", "seven", "eight", "nine"];
    proof {
        reveal_strlit("zero");
        reveal_strlit("one");
        reveal_strlit("two");
        reveal_strlit("three");
        reveal_strlit("four");
        reveal_strlit("five");
        reveal_strlit("six");
        reveal_strlit("seven");
        reveal_strlit("eight");
        reveal_strlit("nine");
    }
    let mut r: Vec<Vec<char>> = Vec::new();
    let mut i: usize = 0;
    while i < 10
        invariant
            i <= 10,
            texts@.len() == 10,
            texts@[0]@ == spelled()[0] && texts@[1]@ == spelled()[1] && texts@[2]@ == spelled()[2]
                && texts@[3]@ == spelled()[3] && texts@[4]@ == spelled()[4] && texts@[5]@ == spelled()[5]
                && texts@[6]@ == spelled()[6] && texts@[7]@ == spelled()[7] && texts@[8]@ == spelled()[8]
                && texts@[9]@ == spelled()[9],
            r@.map_values(|w: Vec<char>| w@) == spelled().take(i as int),
        decreases 10 - i,
    {
        let ghost prev = r@.map_values(|w: Vec<char>| w@);
        let w = chars_of(texts[i]);
        assert(w@ == spelled()[i as int]);
        let ghost wv = w@;
        r.push(w);
        assert(r@.map_values(|w: Vec<char>| w@) =~= prev.push(wv));
        assert(spelled().take(i + 1) =~= spelled().take(i as int).push(spelled()[i as int]));
        i = i + 1;
        assert(r@.map_values(|w: Vec<char>| w@) =~= spelled().take(i as int));
    }
    assert(spelled().take(10) =~= spelled());
    r
}

impl Day01 {
    /// The line's value from its first and last digit, spelled-out digits
    /// counting too.
    pub fn get_digit_and_letter(line: &str) -> (r: i32)
        requires
            line@.len() <= MAX_LINE,
        ensures
            r == spelled_calibration(line@),
    {
        let (_, indexes) = Day01::get_digit_input(line);
        let mut left_index: i64 = indexes[0] as i64;
        let mut left_value: i32 = indexes[1];
        let mut right_index: i64 = indexes[2] as i64;
        let mut right_value: i32 = indexes[3];
        let s = chars_of(line);
        let words = spelled_words();
        assert(words@.len() == 10) by {
            assert(words@.map_values(|w: Vec<char>| w@).len() == spelled().len());
        }
        proof {
            lemma_first_digit(s@, 0);
            lemma_last_digit(s@, s@.len() as int);
        }
        let mut k: usize = 0;
        while k < 10
            invariant
                s@ == line@,
                s@.len() <= MAX_LINE,
                words@.map_values(|w: Vec<char>| w@) == spelled(),
                words@.len() == 10,
                k <= 10,
                with_words(s@, k as int) == (left_index as int, left_value as int, right_index as int, right_value as int),
                -1 <= right_index < s@.len(),
                0 <= left_value <= 9,
            decreases 10 - k,
        {
            assert(words@[k as int]@ == words@.map_values(|w: Vec<char>| w@)[k as int]);
            let f = first_from_exec(&s, &words[k]);
            let l = last_before_exec(&s, &words[k]);
            proof {
                lemma_first_from(s@, spelled()[k as int], 0);
                lemma_last_before(s@, spelled()[k as int], s@.len() as int);
            }
            if f >= 0 && f < left_index {
                left_index = f;
                left_value = k as i32;
            }
            if l >= 0 && l > right_index {
                right_index = l;
                right_value = k as i32;
            }
            k = k + 1;
        }
        proof {
            lemma_with_words(s@, 10);
        }
        left_value * 10 + right_value
    }

    /// The sum of the lines' values from their digits.
    pub fn part_01(lines: &Vec<&str>) -> (r: Option<i32>)
        requires
            lines_fit(lines_view(lines@)),
        ensures
            match r {
                Some(v) => v == total(lines_view(lines@), false),
                None => total(lines_view(lines@), false) > i32::MAX,
            },
    {
        Day01::sum_lines(lines, false)
    }

    /// The sum of the lines' values, spelled-out digits counting too.
    pub fn part_02(lines: &Vec<&str>) -> (r: Option<i32>)
        requires
            lines_fit(lines_view(lines@)),
        ensures
            match r {
                Some(v) => v == total(lines_view(lines@), true),
                None => total(lines_view(lines@), true) > i32::MAX,
            },
    {
        Day01::sum_lines(lines, true)
    }

    fn sum_lines(lines: &Vec<&str>, spelled_too: bool) -> (r: Option<i32>)
        requires
            lines_fit(lines_view(lines@)),
        ensures
            match r {
                Some(v) => v == total(lines_view(lines@), spelled_too),
                None => total(lines_view(lines@), spelled_too) > i32::MAX,
            },
    {
        let ghost g = lines_view(lines@);
        let mut total_sum: i32 = 0;
        let mut i: usize = 0;
        while i < lines.len()
            invariant
                g == lines_view(lines@),
                lines_fit(g),
                i <= lines.len(),
                total_sum == total(g.take(i as int), spelled_too),
                0 <= total_sum,
            decreases lines.len() - i,
        {
            assert(g[i as int] == lines@[i as int]@);
            assert(g.take(i + 1).drop_last() =~= g.take(i as int));
            let v = if spelled_too {
                proof {
                    lemma_with_words(lines@[i as int]@, 10);
                }
                Day01::get_digit_and_letter(lines[i])
            } else {
                proof {
                    lemma_first_digit(lines@[i as int]@, 0);
                    lemma_last_digit(lines@[i as int]@, lines@[i as int]@.len() as int);
                }
                Day01::get_digit_input(lines[i]).0
            };
            if total_sum > i32::MAX - v {
                proof {
                    lemma_total_grows(g, spelled_too, i + 1, g.len() as int);
                    assert(g.take(g.len() as int) =~= g);
                }
                return None;
            }
            total_sum = total_sum + v;
            i = i + 1;
        }
        assert(g.take(lines.len() as int) =~= g);
        Some(total_sum)
    }

    /// Solves both parts on the text of a puzzle input, with the time each
    /// took; `None` where a line is too long for `i32` positions or a sum
    /// leaves `i32`.
    pub fn run(input: &str) -> (r: Option<(String, String, String, u128, u128)>)
        ensures
            r is Some <==> lines_fit(lines_spec(input@)) && total(lines_spec(input@), false) <= i32::MAX
                && total(lines_spec(input@), true) <= i32::MAX,
            r matches Some(t) ==> t.0@ == "Day_01"@ && t.1@ == decimal_of(total(lines_spec(input@), false))
                && t.2@ == decimal_of(total(lines_spec(input@), true)),
    {
        let lines = split_lines(input);
        let mut i: usize = 0;
        while i < lines.len()
            invariant
                lines_view(lines@) == lines_spec(input@),
                i <= lines.len(),
                forall|k: int| 0 <= k < i ==> (#[trigger] lines_view(lines@)[k]).len() <= MAX_LINE,
            decreases lines.len() - i,
        {
            assert(lines_view(lines@)[i as int] == lines@[i as int]@);
            if lines[i].unicode_len() > MAX_LINE {
                return None;
            }
            i = i + 1;
        }
        let start_1 = start_clock();
        let result_1 = Day01::part_01(&lines);
        let time_calculation_1 = elapsed_since(&start_1);
        let start_2 = start_clock();
        let result_2 = Day01::part_02(&lines);
        let time_calculation_2 = elapsed_since(&start_2);
        match (result_1, result_2) {
            (Some(a), Some(b)) => Some(
                (
                    "Day_01".to_owned(),
                    decimal_i128(a as i128),
                    decimal_i128(b as i128),
                    nanos_of(&time_calculation_1),
                    nanos_of(&time_calculation_2),
                ),
            ),
            _ => None,
        }
    }
}

} // verus!
