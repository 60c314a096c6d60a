//! Tuning trouble: the position where the last few characters of the
//! datastream are all different.
use crate::clock::{decimal_i128, decimal_of, elapsed_since, nanos_of, start_clock};
use crate::text::{chars_of, lines_spec, lines_view, split_lines};
use vstd::prelude::*;

verus! {

/// Largest stream length handled; positions are `i32`.
pub const MAX_STREAM: usize = 2147483647;

pub open spec fn all_distinct(s: Seq<char>) -> bool {
    forall|a: int, b: int| 0 <= a < b < s.len() ==> s[a] != s[b]
}

/// `k` characters in, the last `w` are all different, for the first time.
pub open spec fn first_marker(s: Seq<char>, w: int, k: int) -> bool {
    &&& w <= k <= s.len()
    &&& all_distinct(s.subrange(k - w, k))
    &&& forall|j: int| w <= j < k ==> !all_distinct(#[trigger] s.subrange(j - w, j))
}

/// No `w` consecutive characters are all different.
pub open spec fn no_marker(s: Seq<char>, w: int) -> bool {
    forall|j: int| w <= j <= s.len() ==> !all_distinct(#[trigger] s.subrange(j - w, j))
}

pub struct Day06 {}

impl Day06 {
    pub fn add_to_buffer(buffer: &mut Vec<char>, c: char)
        ensures
            final(buffer)@ == old(buffer)@.push(c),
    {
        buffer.push(c);
    }

    /// Drops the characters up to and including `incorrect_index`.
    pub fn remove_incorrect_buffer(buffer: &mut Vec<char>, incorrect_index: usize)
        requires
            incorrect_index < old(buffer)@.len(),
        ensures
            final(buffer)@ == old(buffer)@.skip(incorrect_index + 1),
    {
        let mut kept: Vec<char> = Vec::new();
        let n = buffer.len();
        assert(incorrect_index < n);
        let mut i: usize = incorrect_index + 1;
        while i < buffer.len()
            invariant
                incorrect_index + 1 <= i <= buffer@.len(),
                kept@ == buffer@.subrange(incorrect_index + 1, i as int),
            decreases buffer.len() - i,
        {
            kept.push(buffer[i]);
            i = i + 1;
            assert(kept@ =~= buffer@.subrange(incorrect_index + 1, i as int));
        }
        assert(kept@ =~= buffer@.skip(incorrect_index + 1));
        *buffer = kept;
    }

    /// Where `interested` stands in the buffer, if it does.
    pub fn check_common_character_on_buffer(buffer: &Vec<char>, interested: &char) -> (r: Option<usize>)
        ensures
            r matches Some(p) ==> p < buffer@.len() && buffer@[p as int] == *interested && forall|j: int| 0 <= j < p ==> buffer@[j] != *interested,
            r is None ==> forall|j: int| 0 <= j < buffer@.len() ==> buffer@[j] != *interested,
    {
        let mut i: usize = 0;
        while i < buffer.len()
            invariant
                i <= buffer.len(),
                forall|j: int| 0 <= j < i ==> buffer@[j] != *interested,
            decreases buffer.len() - i,
        {
            if buffer[i] == *interested {
                return Some(i);
            }
            i = i + 1;
        }
        None
    }

    /// How many characters are read until the last `window_size` are all
    /// different; the whole stream where that never happens.
    pub fn find_marker(input: &Vec<char>, window_size: usize) -> (r: usize)
        requires
            window_size >= 1,
        ensures
            first_marker(input@, window_size as int, r as int) || (r == input@.len() && no_marker(input@, window_size as int)),
    {
        let ghost s = input@;
        let ghost w = window_size as int;
        let mut buffer: Vec<char> = Vec::new();
        let ghost mut start: int = 0;
        let mut index: usize = 0;
        while index < input.len()
            invariant
                s == input@,
                w == window_size,
                w >= 1,
                0 <= start <= index <= s.len(),
                buffer@ == s.subrange(start, index as int),
                buffer@.len() <= w - 1,
                all_distinct(buffer@),
                start == 0 || buffer@.contains(s[start - 1]),
                forall|j: int| w <= j <= index ==> !all_distinct(#[trigger] s.subrange(j - w, j)),
            decreases s.len() - index,
        {
            let c = input[index];
            let ghost i = index as int;
            match Day06::check_common_character_on_buffer(&buffer, &c) {
                Some(pos) => {
                    proof {
                        if w <= i + 1 {
                            let win = s.subrange(i + 1 - w, i + 1);
                            assert(win[start + pos - (i + 1 - w)] == c);
                            assert(win[w - 1] == c);
                            assert(!all_distinct(win));
                        }
                    }
                    Day06::remove_incorrect_buffer(&mut buffer, pos);
                    proof {
                        start = start + pos + 1;
                    }
                    Day06::add_to_buffer(&mut buffer, c);
                    assert(buffer@ =~= s.subrange(start, i + 1));
                    assert(buffer@.contains(s[start - 1])) by {
                        assert(buffer@[buffer@.len() - 1] == c);
                    }
                },
                None => {
                    if buffer.len() == window_size - 1 {
                        index = index + 1;
                        proof {
                            assert(s.subrange(index - w, index as int) =~= buffer@.push(c));
                        }
                        return index;
                    }
                    proof {
                        if w <= i + 1 {
                            assert(start > 0);
                            let win = s.subrange(i + 1 - w, i + 1);
                            let k = choose|k: int| 0 <= k < buffer@.len() && buffer@[k] == s[start - 1];
                            assert(win[start - 1 - (i + 1 - w)] == s[start - 1]);
                            assert(win[start + k - (i + 1 - w)] == s[start - 1]);
                        }
                    }
                    let ghost old_buffer = buffer@;
                    Day06::add_to_buffer(&mut buffer, c);
                    assert(buffer@ =~= s.subrange(start, i + 1));
                    proof {
                        if start > 0 {
                            let k = choose|k: int| 0 <= k < old_buffer.len() && old_buffer[k] == s[start - 1];
                            assert(buffer@[k] == s[start - 1]);
                        }
                    }
                },
            }
            index = index + 1;
        }
        index
    }

    /// Solves both parts on the text of a puzzle input, with the time each
    /// took; `None` where there is no line or it is too long.
    pub fn run(input: &str) -> (r: Option<(String, String, String, u128, u128)>)
        ensures
            r is Some <==> lines_spec(input@).len() >= 1 && lines_spec(input@)[0].len() <= MAX_STREAM,
            r matches Some(t) ==> t.0@ == "Day_06"@ && lines_spec(input@).len() >= 1 && (exists|k: int|
                (first_marker(lines_spec(input@)[0], 4, k) || (k == lines_spec(input@)[0].len() && no_marker(lines_spec(input@)[0], 4)))
                    && t.1@ == decimal_of(k)) && (exists|k: int| (first_marker(lines_spec(input@)[0], 14, k) || (k
                == lines_spec(input@)[0].len() && no_marker(lines_spec(input@)[0], 14))) && t.2@ == decimal_of(k)),
    {
        let lines = split_lines(input);
        if lines.len() == 0 {
            return None;
        }
        assert(lines_view(lines@)[0] == lines@[0]@);
        if lines[0].unicode_len() > MAX_STREAM {
            return None;
        }
        assert(lines_view(lines@)[0] == lines@[0]@);
        let start_1 = start_clock();
        let result_1 = Day06::part_01(&lines);
        let time_calculation_1 = elapsed_since(&start_1);
        let start_2 = start_clock();
        let result_2 = Day06::part_02(&lines);
        let time_calculation_2 = elapsed_since(&start_2);
        Some(
            (
                "Day_06".to_owned(),
                decimal_i128(result_1 as i128),
                decimal_i128(result_2 as i128),
                nanos_of(&time_calculation_1),
                nanos_of(&time_calculation_2),
            ),
        )
    }

    /// The first position after which the last 4 characters differ.
    pub fn part_01(lines: &Vec<&str>) -> (r: i32)
        requires
            lines@.len() >= 1,
            lines@[0]@.len() <= MAX_STREAM,
        ensures
            first_marker(lines@[0]@, 4, r as int) || (r == lines@[0]@.len() && no_marker(lines@[0]@, 4)),
    {
        let s = chars_of(lines[0]);
        Day06::find_marker(&s, 4) as i32
    }

    /// The first position after which the last 14 characters differ.
    pub fn part_02(lines: &Vec<&str>) -> (r: i32)
        requires
            lines@.len() >= 1,
            lines@[0]@.len() <= MAX_STREAM,
        ensures
            first_marker(lines@[0]@, 14, r as int) || (r == lines@[0]@.len() && no_marker(lines@[0]@, 14)),
    {
        let s = chars_of(lines[0]);
        Day06::find_marker(&s, 14) as i32
    }
}

} // verus!
