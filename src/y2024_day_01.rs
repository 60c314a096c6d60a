//! Historian hysteria: two lists of location ids, paired smallest with
//! smallest, and a similarity score of how often each left id occurs on the
//! right.
use crate::clock::{decimal_i128, decimal_of, elapsed_since, nanos_of, start_clock};
use crate::text::{chars_of, chars_views, lines_spec, lines_view, parse_signed, signed_value, split_lines, words, words_exec};
use vstd::prelude::*;

verus! {

/// Largest number of lines handled: the similarity score, at most this count
/// squared times the largest `i32`, then fits `i128`.
pub const MAX_PAIRS: usize = 4294967295;

pub open spec fn number_of(w: Seq<char>) -> Option<int> {
    match signed_value(w) {
        Some(v) => if i32::MIN <= v <= i32::MAX {
            Some(v)
        } else {
            None
        },
        None => None,
    }
}

/// A line's pair: its first and last words as `i32`.
pub open spec fn pair_of(line: Seq<char>) -> Option<(int, int)> {
    let w = words(line);
    if w.len() >= 1 && number_of(w[0]) is Some && number_of(w.last()) is Some {
        Some((number_of(w[0])->Some_0, number_of(w.last())->Some_0))
    } else {
        None
    }
}

pub open spec fn pairs_of(g: Seq<Seq<char>>) -> Option<Seq<(int, int)>> {
    if forall|i: int| 0 <= i < g.len() ==> (#[trigger] pair_of(g[i])) is Some {
        Some(g.map_values(|l: Seq<char>| pair_of(l)->Some_0))
    } else {
        None
    }
}

pub open spec fn is_sorted(s: Seq<int>) -> bool {
    forall|i: int, j: int| 0 <= i < j < s.len() ==> s[i] <= s[j]
}

pub open spec fn ints_view(v: Seq<i32>) -> Seq<int> {
    v.map_values(|x: i32| x as int)
}

/// The sum of the distances of the pairs formed position by position.
pub open spec fn distance_sum(l: Seq<int>, r: Seq<int>) -> int
    decreases l.len(),
{
    if l.len() == 0 || r.len() == 0 {
        0
    } else {
        distance_sum(l.drop_last(), r.drop_last()) + if r.last() >= l.last() {
            r.last() - l.last()
        } else {
            l.last() - r.last()
        }
    }
}

/// How often `x` occurs in `s`.
pub open spec fn occurrences(s: Seq<int>, x: int) -> int
    decreases s.len(),
{
    if s.len() == 0 {
        0
    } else {
        occurrences(s.drop_last(), x) + if s.last() == x {
            1int
        } else {
            0int
        }
    }
}

/// The sum over the left list of each value times its occurrences on the right.
pub open spec fn similarity(l: Seq<int>, r: Seq<int>) -> int
    decreases l.len(),
{
    if l.len() == 0 {
        0
    } else {
        similarity(l.drop_last(), r) + occurrences(r, l.last()) * l.last()
    }
}

/// Sorts the values in place, ascending.
pub fn sort_values(v: &mut Vec<i32>)
    ensures
        ints_view(final(v)@).to_multiset() == ints_view(old(v)@).to_multiset(),
        is_sorted(ints_view(final(v)@)),
        final(v)@.len() == old(v)@.len(),
{
    let n = v.len();
    if n == 0 {
        assert(ints_view(v@) =~= Seq::<int>::empty());
        return;
    }
    let mut i: usize = 1;
    proof {
        assert(ints_view(v@) =~= ints_view(old(v)@));
        assert(ints_view(v@.take(1)).len() == 1);
    }
    while i < n
        invariant
            n == v@.len(),
            n == old(v)@.len(),
            1 <= i <= n,
            ints_view(v@).to_multiset() == ints_view(old(v)@).to_multiset(),
            is_sorted(ints_view(v@.take(i as int))),
        decreases n - i,
    {
        let mut j: usize = i;
        proof {
            assert forall|a: int, b: int| 0 <= a < b < i implies v@[a] <= v@[b] by {
                assert(ints_view(v@.take(i as int))[a] == v@[a] as int);
                assert(ints_view(v@.take(i as int))[b] == v@[b] as int);
            }
        }
        while j > 0 && v[j - 1] > v[j]
            invariant
                n == v@.len(),
                0 <= j <= i < n,
                ints_view(v@).to_multiset() == ints_view(old(v)@).to_multiset(),
                forall|a: int, b: int| 0 <= a < b <= i && b != j && a != j ==> v@[a] <= v@[b],
                forall|b: int| j < b <= i ==> v@[j as int] <= v@[b],
                forall|a: int| 0 <= a < j ==> forall|b: int| j < b <= i ==> #[trigger] v@[a] <= #[trigger] v@[b],
            decreases j,
        {
            let a = v[j - 1];
            let b = v[j];
            let ghost before = ints_view(v@);
            v.set(j - 1, b);
            v.set(j, a);
            proof {
                assert(ints_view(v@) =~= before.update(j - 1, b as int).update(j as int, a as int));
                lemma_swap_multiset(before, j - 1, j as int);
            }
            j = j - 1;
        }
        i = i + 1;
        proof {
            assert forall|p: int, q: int| 0 <= p < q < ints_view(v@.take(i as int)).len() implies ints_view(v@.take(i as int))[p] <= ints_view(v@.take(i as int))[q] by {
                assert(ints_view(v@.take(i as int))[p] == v@[p] as int);
                assert(ints_view(v@.take(i as int))[q] == v@[q] as int);
                if q == j && p < j {
                    assert(v@[p] <= v@[j - 1]) by {
                        if p < j - 1 {
                            assert(p != j && j - 1 != j);
                        }
                    }
                }
            }
        }
    }
    proof {
        if n > 0 {
            assert(v@.take(n as int) =~= v@);
        } else {
            assert(ints_view(v@) =~= Seq::<int>::empty());
        }
    }
}

pub proof fn lemma_swap_multiset(s: Seq<int>, i: int, j: int)
    requires
        0 <= i < j < s.len(),
    ensures
        s.update(i, s[j]).update(j, s[i]).to_multiset() == s.to_multiset(),
{
    broadcast use vstd::seq_lib::group_to_multiset_ensures;
    let t = s.update(i, s[j]);
    vstd::seq_lib::to_multiset_update(s, i, s[j]);
    vstd::seq_lib::to_multiset_update(t, j, s[i]);
    assert(s.to_multiset().remove(s[i]).insert(s[j]).remove(s[j]).insert(s[i]) =~= s.to_multiset());
}

pub open spec fn lefts(ps: Seq<(int, int)>) -> Seq<int> {
    ps.map_values(|p: (int, int)| p.0)
}

pub open spec fn rights(ps: Seq<(int, int)>) -> Seq<int> {
    ps.map_values(|p: (int, int)| p.1)
}

/// `l` and `r` are the two columns of the input, each sorted.
pub open spec fn sorted_columns(g: Seq<Seq<char>>, l: Seq<int>, r: Seq<int>) -> bool {
    pairs_of(g) matches Some(ps) && is_sorted(l) && is_sorted(r) && l.to_multiset() == lefts(
        ps,
    ).to_multiset() && r.to_multiset() == rights(ps).to_multiset() && l.len() == ps.len() && r.len()
        == ps.len()
}

fn pair_exec(line: &str) -> (r: Option<(i32, i32)>)
    ensures
        match r {
            Some(p) => pair_of(line@) == Some((p.0 as int, p.1 as int)),
            None => pair_of(line@) is None,
        },
{
    let ws = words_exec(&chars_of(line));
    let ghost w = chars_views(ws@);
    if ws.len() == 0 {
        return None;
    }
    assert(w[0] == ws@[0]@ && w.last() == ws@[ws.len() - 1]@);
    let first = parse_signed(&ws[0]);
    let last = parse_signed(&ws[ws.len() - 1]);
    match (first, last) {
        (Some(a), Some(b)) => {
            if a < i32::MIN as i128 || a > i32::MAX as i128 || b < i32::MIN as i128 || b > i32::MAX as i128 {
                return None;
            }
            Some((a as i32, b as i32))
        },
        _ => None,
    }
}

/// The two columns of the input, each sorted; `None` where a line holds no pair.
pub fn split_list_and_sorted(list: &Vec<&str>) -> (r: Option<(Vec<i32>, Vec<i32>)>)
    ensures
        r is Some <==> pairs_of(lines_view(list@)) is Some,
        r matches Some((l, rr)) ==> sorted_columns(lines_view(list@), ints_view(l@), ints_view(rr@)),
{
    let ghost g = lines_view(list@);
    let mut left_list: Vec<i32> = Vec::new();
    let mut right_list: Vec<i32> = Vec::new();
    let mut i: usize = 0;
    while i < list.len()
        invariant
            g == lines_view(list@),
            i <= list.len(),
            left_list@.len() == i,
            right_list@.len() == i,
            forall|k: int| 0 <= k < i ==> #[trigger] pair_of(g[k]) == Some((left_list@[k] as int, right_list@[k] as int)),
        decreases list.len() - i,
    {
        assert(g[i as int] == list@[i as int]@);
        match pair_exec(list[i]) {
            Some((a, b)) => {
                left_list.push(a);
                right_list.push(b);
            },
            None => {
                return None;
            },
        }
        i = i + 1;
    }
    let ghost ps = g.map_values(|l: Seq<char>| pair_of(l)->Some_0);
    assert(pairs_of(g) == Some(ps));
    assert(ints_view(left_list@) =~= lefts(ps));
    assert(ints_view(right_list@) =~= rights(ps));
    sort_values(&mut left_list);
    sort_values(&mut right_list);
    Some((left_list, right_list))
}

pub fn find_distance(left: i32, right: i32) -> (r: i64)
    ensures
        r == if right >= left {
            right - left
        } else {
            left - right
        },
{
    let d = right as i64 - left as i64;
    if d < 0 {
        -d
    } else {
        d
    }
}

/// `checked_value` times its occurrences in `list`.
pub fn calculate_similarity_score(checked_value: i32, list: &Vec<i32>) -> (r: i128)
    ensures
        r == occurrences(ints_view(list@), checked_value as int) * checked_value,
        -(list@.len() * 0x8000_0000) <= r <= list@.len() * 0x8000_0000,
{
    let ghost s = ints_view(list@);
    let mut count: i128 = 0;
    let mut i: usize = 0;
    while i < list.len()
        invariant
            s == ints_view(list@),
            i <= list.len(),
            count == occurrences(s.take(i as int), checked_value as int),
            0 <= count <= i,
        decreases list.len() - i,
    {
        assert(s.take(i + 1).drop_last() =~= s.take(i as int));
        if list[i] == checked_value {
            count = count + 1;
        }
        i = i + 1;
    }
    assert(s.take(list.len() as int) =~= s);
    let n = list.len();
    assert(-(n * 0x8000_0000) <= count * (checked_value as i128) <= n * 0x8000_0000) by (nonlinear_arith)
        requires
            0 <= count <= n,
            n <= 0x1_0000_0000_0000_0000,
            i32::MIN <= checked_value <= i32::MAX,
    ;
    count * (checked_value as i128)
}

pub struct Day01 {}

impl Day01 {
    /// Solves both parts on the text of a puzzle input, with the time each
    /// took; `None` where a line holds no pair or a sum does not fit.
    pub fn run(input: &str) -> (r: Option<(String, String, String, u128, u128)>)
        ensures
            r is Some <==> pairs_of(lines_spec(input@)) is Some && lines_spec(input@).len() <= MAX_PAIRS,
            r matches Some(t) ==> t.0@ == "Day_01"@ && (exists|l: Seq<int>, rr: Seq<int>| sorted_columns(lines_spec(input@), l, rr) && t.1@ == decimal_of(distance_sum(l, rr))) && (exists|l: Seq<int>, rr: Seq<int>| sorted_columns(lines_spec(input@), l, rr) && t.2@ == decimal_of(similarity(l, rr))),
    {
        let lines = split_lines(input);
        let start_1 = start_clock();
        let result_1 = Day01::part_01(&lines);
        let time_calculation_1 = elapsed_since(&start_1);
        let start_2 = start_clock();
        let result_2 = Day01::part_02(&lines);
        let time_calculation_2 = elapsed_since(&start_2);
        match (result_1, result_2) {
            (Some(a), Some(b)) => {
                Some(
                    (
                        "Day_01".to_owned(),
                        decimal_i128(a),
                        decimal_i128(b),
                        nanos_of(&time_calculation_1),
                        nanos_of(&time_calculation_2),
                    ),
                )
            },
            _ => None,
        }
    }

    /// The sum of the distances of the pairs, smallest with smallest.
    pub fn part_01(lines: &Vec<&str>) -> (r: Option<i128>)
        ensures
            r is Some <==> pairs_of(lines_view(lines@)) is Some && lines@.len() <= MAX_PAIRS,
            r matches Some(v) ==> exists|l: Seq<int>, rr: Seq<int>| sorted_columns(lines_view(lines@), l, rr) && v == distance_sum(l, rr),
    {
        if lines.len() > MAX_PAIRS {
            return None;
        }
        let (left_list, right_list) = match split_list_and_sorted(lines) {
            Some(p) => p,
            None => {
                return None;
            },
        };
        let ghost l = ints_view(left_list@);
        let ghost rr = ints_view(right_list@);
        let mut total: i128 = 0;
        let mut i: usize = 0;
        while i < left_list.len()
            invariant
                l == ints_view(left_list@),
                rr == ints_view(right_list@),
                left_list@.len() == right_list@.len(),
                i <= left_list.len(),
                total == distance_sum(l.take(i as int), rr.take(i as int)),
                0 <= total <= i * 0x1_0000_0000,
            decreases left_list.len() - i,
        {
            assert(l.take(i + 1).drop_last() =~= l.take(i as int));
            assert(rr.take(i + 1).drop_last() =~= rr.take(i as int));
            total = total + find_distance(left_list[i], right_list[i]) as i128;
            i = i + 1;
        }
        assert(l.take(left_list.len() as int) =~= l);
        assert(rr.take(left_list.len() as int) =~= rr);
        Some(total)
    }

    /// The similarity score; `None` where a line holds no pair or the sum
    /// leaves `i128`.
    pub fn part_02(lines: &Vec<&str>) -> (r: Option<i128>)
        ensures
            r is Some <==> pairs_of(lines_view(lines@)) is Some && lines@.len() <= MAX_PAIRS,
            r matches Some(v) ==> exists|l: Seq<int>, rr: Seq<int>| sorted_columns(lines_view(lines@), l, rr) && v == similarity(l, rr),
    {
        if lines.len() > MAX_PAIRS {
            return None;
        }
        let (left_list, right_list) = match split_list_and_sorted(lines) {
            Some(p) => p,
            None => {
                return None;
            },
        };
        let ghost l = ints_view(left_list@);
        let ghost rr = ints_view(right_list@);
        let n = right_list.len();
        let mut total: i128 = 0;
        let mut i: usize = 0;
        while i < left_list.len()
            invariant
                l == ints_view(left_list@),
                rr == ints_view(right_list@),
                n == right_list@.len(),
                n == left_list@.len(),
                n <= MAX_PAIRS,
                i <= left_list.len(),
                total == similarity(l.take(i as int), rr),
                -(i * (n * 0x8000_0000)) <= total <= i * (n * 0x8000_0000),
            decreases left_list.len() - i,
        {
            assert(l.take(i + 1).drop_last() =~= l.take(i as int));
            let score = calculate_similarity_score(left_list[i], &right_list);
            assert(-((i + 1) * (n * 0x8000_0000)) <= total + score <= (i + 1) * (n * 0x8000_0000)) by (nonlinear_arith)
                requires
                    -(i * (n * 0x8000_0000)) <= total <= i * (n * 0x8000_0000),
                    -(n * 0x8000_0000) <= score <= n * 0x8000_0000,
            ;
            assert((i + 1) * (n * 0x8000_0000) <= 4294967295 * (4294967295 * 0x8000_0000)) by (nonlinear_arith)
                requires
                    i + 1 <= n,
                    n <= 4294967295,
            ;
            total = total + score;
            i = i + 1;
        }
        assert(l.take(left_list.len() as int) =~= l);
        Some(total)
    }
}

} // verus!
