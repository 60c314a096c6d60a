//! Scratchcards: each card scores by how many of its numbers are winning
//! numbers, and wins copies of the cards that follow it.
use std::collections::VecDeque;
use crate::clock::{decimal_of, decimal_u128, elapsed_since, nanos_of, start_clock};
use crate::text::{
    chars_of, find_first, first_of, has_char, head_upto, i32s_view, lines_spec, lines_view,
    numbers_within, parse_i32_list, parse_signed, remove_char, signed_value, split_lines,
    split_spec, tail_from, without,
};
use vstd::prelude::*;

verus! {

/// Most matches a card may have: its points, `2^(matches - 1)`, are `u128`.
pub const MAX_MATCHES: usize = 128;


/// The number in a card's header, `Card <n>` with spaces anywhere.
pub open spec fn header_number(h: Seq<char>) -> Option<int> {
    let t = without(h, ' ');
    if t.len() >= 4 && t.take(4) == seq!['C', 'a', 'r', 'd'] {
        match signed_value(t.skip(4)) {
            Some(v) => if i32::MIN <= v <= i32::MAX {
                Some(v)
            } else {
                None
            },
            None => None,
        }
    } else {
        None
    }
}

/// A line `Card <n>: <rest>` split into its number and the rest.
pub open spec fn card_line(s: Seq<char>) -> Option<(int, Seq<char>)> {
    if has_char(s, ':') {
        let p = first_of(s, ':');
        if p + 1 < s.len() && s[p + 1] == ' ' {
            match header_number(s.take(p)) {
                Some(n) => Some((n, s.skip(p + 2))),
                None => None,
            }
        } else {
            None
        }
    } else {
        None
    }
}

pub open spec fn number_list(s: Seq<char>) -> Seq<int> {
    numbers_within(split_spec(s, ' '), i32::MIN as int, i32::MAX as int)
}

/// A card: its number, its winning numbers and the numbers it holds; the two
/// lists are separated by `|`.
pub open spec fn card_of(s: Seq<char>) -> Option<(int, Seq<int>, Seq<int>)> {
    match card_line(s) {
        Some((n, rest)) => if has_char(rest, '|') {
            let q = first_of(rest, '|');
            Some((n, number_list(rest.take(q)), number_list(rest.skip(q + 1))))
        } else {
            None
        },
        None => None,
    }
}

/// How many of `numbers` are among `winning`.
pub open spec fn matching(winning: Seq<int>, numbers: Seq<int>) -> int
    decreases numbers.len(),
{
    if numbers.len() == 0 {
        0
    } else {
        matching(winning, numbers.drop_last()) + if winning.contains(numbers.last()) {
            1int
        } else {
            0int
        }
    }
}

pub open spec fn points(m: int) -> int {
    if m > 0 {
        vstd::arithmetic::power2::pow2((m - 1) as nat) as int
    } else {
        0
    }
}

pub open spec fn card_fits(c: Option<(int, Seq<int>, Seq<int>)>) -> bool {
    c matches Some((_, w, n)) && n.len() <= i32::MAX && matching(w, n) <= MAX_MATCHES
}

/// Every line is a card, with at most `MAX_MATCHES` matches.
pub open spec fn cards_fit(g: Seq<Seq<char>>) -> bool {
    &&& forall|i: int| 0 <= i < g.len() ==> card_fits(#[trigger] card_of(g[i]))
}

pub open spec fn card_matching(s: Seq<char>) -> int {
    match card_of(s) {
        Some((_, w, n)) => matching(w, n),
        None => 0,
    }
}

/// The sum of the points of the cards; `None` where a partial sum leaves
/// `u128`.
pub open spec fn points_sum(g: Seq<Seq<char>>) -> Option<int>
    decreases g.len(),
{
    if g.len() == 0 {
        Some(0)
    } else {
        match points_sum(g.drop_last()) {
            Some(t) => if t + points(card_matching(g.last())) <= u128::MAX {
                Some(t + points(card_matching(g.last())))
            } else {
                None
            },
            None => None,
        }
    }
}

pub proof fn lemma_points_stop(g: Seq<Seq<char>>, i: int, j: int)
    requires
        1 <= i <= j <= g.len(),
        points_sum(g.take(i)) is None,
    ensures
        points_sum(g.take(j)) is None,
    decreases j - i,
{
    if j > i {
        lemma_points_stop(g, i, j - 1);
        assert(g.take(j).drop_last() =~= g.take(j - 1));
    }
}

/// Where the copies won by the card at index `i` end (exclusive): the cards
/// after it, one per match, up to the last card.
pub open spec fn copies_end(ms: Seq<int>, i: int) -> int {
    if i + 1 + ms[i] < ms.len() {
        i + 1 + ms[i]
    } else {
        ms.len() as int
    }
}

/// How many instances of the card at index `i` are processed: itself and
/// all that its copies win in turn.
pub open spec fn instances(ms: Seq<int>, i: int) -> int
    decreases ms.len() - i + 1, 0int,
{
    if 0 <= i < ms.len() && ms[i] >= 0 {
        1 + instances_in(ms, i + 1, copies_end(ms, i))
    } else {
        0
    }
}

/// The instances of the cards at indices `lo..hi`.
pub open spec fn instances_in(ms: Seq<int>, lo: int, hi: int) -> int
    decreases ms.len() - lo + 1, hi - lo,
{
    if 0 <= lo < hi <= ms.len() {
        instances(ms, lo) + instances_in(ms, lo + 1, hi)
    } else {
        0
    }
}

pub open spec fn matches_of(g: Seq<Seq<char>>) -> Seq<int> {
    g.map_values(|s: Seq<char>| card_matching(s))
}

/// The cards are numbered 1, 2, ... in order.
pub open spec fn numbered_in_order(g: Seq<Seq<char>>) -> bool {
    forall|i: int| 0 <= i < g.len() ==> card_numbered(#[trigger] card_of(g[i]), i + 1)
}

pub open spec fn card_numbered(c: Option<(int, Seq<int>, Seq<int>)>, n: int) -> bool {
    c matches Some((k, _, _)) && k == n
}

pub proof fn lemma_instances_nonneg(ms: Seq<int>, lo: int, hi: int)
    ensures
        instances_in(ms, lo, hi) >= 0,
    decreases ms.len() - lo + 1, hi - lo,
{
    if 0 <= lo < hi <= ms.len() {
        lemma_instances_nonneg(ms, lo + 1, hi);
        lemma_instances_positive(ms, lo);
    }
}

pub proof fn lemma_instances_positive(ms: Seq<int>, i: int)
    ensures
        instances(ms, i) >= 0,
    decreases ms.len() - i + 1, 0int,
{
    if 0 <= i < ms.len() && ms[i] >= 0 {
        lemma_instances_nonneg(ms, i + 1, copies_end(ms, i));
    }
}

/// A range's instances hold those of each card in it.
pub proof fn lemma_instances_in_bounds(ms: Seq<int>, lo: int, hi: int, t: int)
    requires
        0 <= lo <= t < hi <= ms.len(),
    ensures
        instances(ms, t) <= instances_in(ms, lo, hi),
    decreases hi - lo,
{
    lemma_instances_nonneg(ms, lo + 1, hi);
    lemma_instances_positive(ms, lo);
    if t > lo {
        lemma_instances_in_bounds(ms, lo + 1, hi, t);
    }
}

/// The card number and the text after `Card <n>: `.
pub fn parsing_card_number(line: &str) -> (r: Option<(i32, Vec<char>)>)
    ensures
        r is Some <==> card_line(line@) is Some,
        r matches Some((n, rest)) ==> card_line(line@) == Some((n as int, rest@)),
{
    let s = chars_of(line);
    match find_first(&s, ':') {
        None => None,
        Some(p) => {
            assert(p < s.len());
            if p + 1 < s.len() && s[p + 1] == ' ' {
                let header = head_upto(&s, p);
                let t = remove_char(&header, ' ');
                if t.len() >= 4 && t[0] == 'C' && t[1] == 'a' && t[2] == 'r' && t[3] == 'd' {
                    assert(t@.take(4) =~= seq!['C', 'a', 'r', 'd']);
                    let digits = tail_from(&t, 4);
                    match parse_signed(&digits) {
                        Some(v) => {
                            if i32::MIN as i128 <= v && v <= i32::MAX as i128 {
                                Some((v as i32, tail_from(&s, p + 2)))
                            } else {
                                None
                            }
                        },
                        None => None,
                    }
                } else {
                    proof {
                        if t@.len() >= 4 && t@.take(4) == seq!['C', 'a', 'r', 'd'] {
                            assert(t@[0] == t@.take(4)[0]);
                            assert(t@[1] == t@.take(4)[1]);
                            assert(t@[2] == t@.take(4)[2]);
                            assert(t@[3] == t@.take(4)[3]);
                        }
                    }
                    None
                }
            } else {
                None
            }
        },
    }
}

/// The numbers of a text, separated by spaces.
pub fn parsing_numbers(line: &str) -> (r: Vec<i32>)
    ensures
        i32s_view(r@) == number_list(line@),
{
    let s = chars_of(line);
    parse_i32_list(&s)
}

/// A card line: its number, its winning numbers and the numbers it holds.
pub fn parsing_card(input: &str) -> (r: Option<(i32, Vec<i32>, Vec<i32>)>)
    ensures
        r is Some <==> card_of(input@) is Some,
        r matches Some((n, w, h)) ==> card_of(input@) == Some((n as int, i32s_view(w@), i32s_view(h@))),
{
    match parsing_card_number(input) {
        None => None,
        Some((card_number, rest)) => {
            match find_first(&rest, '|') {
                None => None,
                Some(q) => {
                    let left = head_upto(&rest, q);
                    assert(q < rest.len());
                    let right = tail_from(&rest, q + 1);
                    let winning_numbers = parse_i32_list(&left);
                    let numbers = parse_i32_list(&right);
                    Some((card_number, winning_numbers, numbers))
                },
            }
        },
    }
}

/// How many of `numbers` are among the winning numbers.
pub fn count_matching_numbers(winning_numbers: &Vec<i32>, numbers: &Vec<i32>) -> (r: i32)
    requires
        numbers@.len() <= i32::MAX,
    ensures
        r == matching(i32s_view(winning_numbers@), i32s_view(numbers@)),
        0 <= r <= numbers@.len(),
{
    let ghost w = i32s_view(winning_numbers@);
    let ghost ns = i32s_view(numbers@);
    let mut total_matching: i32 = 0;
    let mut i: usize = 0;
    while i < numbers.len()
        invariant
            w == i32s_view(winning_numbers@),
            ns == i32s_view(numbers@),
            numbers@.len() <= i32::MAX,
            i <= numbers.len(),
            total_matching == matching(w, ns.take(i as int)),
            0 <= total_matching <= i,
        decreases numbers.len() - i,
    {
        assert(ns.take(i + 1).drop_last() =~= ns.take(i as int));
        let v = numbers[i];
        let mut found = false;
        let mut j: usize = 0;
        while j < winning_numbers.len()
            invariant
                w == i32s_view(winning_numbers@),
                j <= winning_numbers.len(),
                found == exists|k: int| 0 <= k < j && w[k] == v as int,
            decreases winning_numbers.len() - j,
        {
            if winning_numbers[j] == v {
                assert(w[j as int] == v as int);
                found = true;
            }
            j = j + 1;
        }
        assert(found == w.contains(ns[i as int]));
        if found {
            total_matching = total_matching + 1;
        }
        i = i + 1;
    }
    assert(ns.take(numbers.len() as int) =~= ns);
    total_matching
}

/// The points of a card with `total_matching` matches: one for the first,
/// doubled for each further one.
pub fn calculate_winning_points(total_matching: i32) -> (r: u128)
    requires
        total_matching <= 128,
    ensures
        r == points(total_matching as int),
{
    if total_matching > 0 {
        let mut p: u128 = 1;
        let mut k: i32 = 1;
        proof {
            vstd::arithmetic::power2::lemma2_to64();
        }
        while k < total_matching
            invariant
                1 <= k <= total_matching <= 128,
                p == vstd::arithmetic::power2::pow2((k - 1) as nat),
            decreases total_matching - k,
        {
            proof {
                vstd::arithmetic::power2::lemma_pow2_unfold(k as nat);
                vstd::arithmetic::power2::lemma_pow2_strictly_increases((k - 1) as nat, 127);
                assert(vstd::arithmetic::power2::pow2(127) == 0x80000000000000000000000000000000) by {
                    vstd::arithmetic::power2::lemma2_to64();
                    vstd::arithmetic::power2::lemma2_to64_rest();
                    vstd::arithmetic::power2::lemma_pow2_adds(64, 63);
                }
            }
            p = p * 2;
            k = k + 1;
        }
        p
    } else {
        0
    }
}

/// The points of a card.
pub fn validate_card_winning(winning_numbers: &Vec<i32>, numbers: &Vec<i32>) -> (r: u128)
    requires
        numbers@.len() <= i32::MAX,
        matching(i32s_view(winning_numbers@), i32s_view(numbers@)) <= 128,
    ensures
        r == points(matching(i32s_view(winning_numbers@), i32s_view(numbers@))),
{
    let total_matching = count_matching_numbers(winning_numbers, numbers);
    calculate_winning_points(total_matching)
}

/// The numbers of the cards that a card wins copies of: the next ones, one
/// per match, up to `last_card_number`; `None` when nothing matches.
pub fn get_copy_list(
    card_number: i32,
    last_card_number: i32,
    winning_numbers: &Vec<i32>,
    numbers: &Vec<i32>,
) -> (r: Option<VecDeque<i32>>)
    requires
        numbers@.len() <= i32::MAX,
        card_number + matching(i32s_view(winning_numbers@), i32s_view(numbers@)) <= i32::MAX,
    ensures
        r is None <==> matching(i32s_view(winning_numbers@), i32s_view(numbers@)) == 0,
        r matches Some(q) ==> q@ == Seq::new(
            copies_len(
                card_number as int,
                last_card_number as int,
                matching(i32s_view(winning_numbers@), i32s_view(numbers@)),
            ) as nat,
            |k: int| (card_number + k + 1) as i32,
        ),
{
    let total_matching = count_matching_numbers(winning_numbers, numbers);
    if total_matching <= 0 {
        return None;
    }
    let mut result: VecDeque<i32> = VecDeque::new();
    let mut count: i32 = 0;
    while count < total_matching
        invariant
            0 <= count <= total_matching,
            card_number + total_matching <= i32::MAX,
            count <= last_card_number - card_number || count == 0,
            total_matching as int == matching(i32s_view(winning_numbers@), i32s_view(numbers@)),
            result@ == Seq::new(count as nat, |k: int| (card_number + k + 1) as i32),
        decreases total_matching - count,
    {
        let copy_card_number = card_number + (count + 1);
        if copy_card_number > last_card_number {
            assert(count as int == copies_len(card_number as int, last_card_number as int, total_matching as int));
            return Some(result);
        }
        result.push_back(copy_card_number);
        count = count + 1;
        assert(result@ =~= Seq::new(count as nat, |k: int| (card_number + k + 1) as i32));
    }
    Some(result)
}

/// How many copies a card wins: one per match, but none past the last card.
pub open spec fn copies_len(card_number: int, last_card_number: int, m: int) -> int {
    if m <= last_card_number - card_number {
        m
    } else if last_card_number > card_number {
        last_card_number - card_number
    } else {
        0
    }
}

pub struct Day04 {}

impl Day04 {
    /// Solves both parts on the text of a puzzle input, with the time each
    /// took; `None` when a line is no card of the handled size, or the cards
    /// are not numbered 1, 2, ... in order, or the count of cards does not fit.
    pub fn run(input: &str) -> (r: Option<(String, String, String, u128, u128)>)
        ensures
            r is Some <==> cards_fit(lines_spec(input@)) && numbered_in_order(lines_spec(input@))
                && instances_in(matches_of(lines_spec(input@)), 0, lines_spec(input@).len() as int)
                <= u128::MAX && points_sum(lines_spec(input@)) is Some,
            r matches Some(t) ==> t.0@ == "Day_04"@ && t.1@ == decimal_of(points_sum(lines_spec(input@))->Some_0)
                && t.2@ == decimal_of(
                instances_in(matches_of(lines_spec(input@)), 0, lines_spec(input@).len() as int),
            ),
    {
        let lines = split_lines(input);
        if !cards_accepted(&lines) {
            return None;
        }
        let start_1 = start_clock();
        let result_1 = Day04::part_01(&lines);
        let time_calculation_1 = elapsed_since(&start_1);
        let start_2 = start_clock();
        let result_2 = Day04::part_02(&lines);
        let time_calculation_2 = elapsed_since(&start_2);
        match (result_1, result_2) {
            (Some(a), Some(v)) => Some(
                (
                    "Day_04".to_owned(),
                    decimal_u128(a),
                    decimal_u128(v),
                    nanos_of(&time_calculation_1),
                    nanos_of(&time_calculation_2),
                ),
            ),
            _ => None,
        }
    }

    /// The sum of the points of all cards.
    pub fn part_01(lines: &Vec<&str>) -> (r: Option<u128>)
        requires
            cards_fit(lines_view(lines@)),
        ensures
            match r {
                Some(v) => points_sum(lines_view(lines@)) == Some(v as int),
                None => points_sum(lines_view(lines@)) is None,
            },
    {
        let ghost g = lines_view(lines@);
        let mut total_points_sum: u128 = 0;
        let mut i: usize = 0;
        while i < lines.len()
            invariant
                g == lines_view(lines@),
                cards_fit(g),
                i <= lines.len(),
                points_sum(g.take(i as int)) == Some(total_points_sum as int),
            decreases lines.len() - i,
        {
            assert(g[i as int] == lines@[i as int]@);
            assert(card_fits(card_of(g[i as int])));
            assert(g.take(i + 1).drop_last() =~= g.take(i as int));
            assert(g.take(i + 1).last() == g[i as int]);
            let card = parsing_card(lines[i]);
            let mut points: u128 = 0;
            match card {
                Some((_, winning_numbers, numbers)) => {
                    let m = count_matching_numbers(&winning_numbers, &numbers);
                    points = calculate_winning_points(m);
                },
                None => {},
            }
            if total_points_sum > u128::MAX - points {
                proof {
                    lemma_points_stop(g, i + 1, g.len() as int);
                    assert(g.take(g.len() as int) =~= g);
                }
                return None;
            }
            total_points_sum = total_points_sum + points;
            i = i + 1;
        }
        assert(g.take(lines.len() as int) =~= g);
        Some(total_points_sum)
    }

    /// The number of cards in the end, originals and copies; `None` when the
    /// cards are not numbered 1, 2, ... in order or the count does not fit.
    pub fn part_02(lines: &Vec<&str>) -> (r: Option<u128>)
        requires
            cards_fit(lines_view(lines@)),
        ensures
            r is Some <==> numbered_in_order(lines_view(lines@)) && instances_in(
                matches_of(lines_view(lines@)),
                0,
                lines@.len() as int,
            ) <= u128::MAX,
            r matches Some(v) ==> v == instances_in(matches_of(lines_view(lines@)), 0, lines@.len() as int),
    {
        let ghost g = lines_view(lines@);
        let ghost ms = matches_of(g);
        let n = lines.len();
        let mut matches: Vec<usize> = Vec::new();
        let mut i: usize = 0;
        while i < n
            invariant
                g == lines_view(lines@),
                ms == matches_of(g),
                n == lines@.len(),
                cards_fit(g),
                i <= n,
                matches@.len() == i,
                forall|j: int| 0 <= j < i ==> #[trigger] matches@[j] as int == ms[j],
                forall|j: int| 0 <= j < i ==> #[trigger] matches@[j] <= MAX_MATCHES,
                forall|j: int| 0 <= j < i ==> card_numbered(#[trigger] card_of(g[j]), j + 1),
            decreases n - i,
        {
            assert(g[i as int] == lines@[i as int]@);
            assert(card_fits(card_of(g[i as int])));
            match parsing_card(lines[i]) {
                Some((card_number, winning_numbers, numbers)) => {
                    if card_number < 0 || card_number as usize != i + 1 {
                        assert(!card_numbered(card_of(g[i as int]), i + 1));
                        return None;
                    }
                    let m = count_matching_numbers(&winning_numbers, &numbers);
                    assert(ms[i as int] == card_matching(g[i as int]));
                    matches.push(m as usize);
                },
                None => {
                    return None;
                },
            }
            i = i + 1;
        }
        // counts_rev[j] holds the instances of the card at index n - 1 - j.
        let mut counts_rev: Vec<u128> = Vec::new();
        let mut k: usize = 0;
        while k < n
            invariant
                ms == matches_of(g),
                n == ms.len(),
                matches@.len() == n,
                forall|j: int| 0 <= j < n ==> #[trigger] matches@[j] as int == ms[j],
                forall|j: int| 0 <= j < n ==> #[trigger] matches@[j] <= MAX_MATCHES,
                numbered_in_order(g),
                g.len() == n,
                g == lines_view(lines@),
                k <= n,
                counts_rev@.len() == k,
                forall|j: int| 0 <= j < k ==> #[trigger] counts_rev@[j] as int == instances(ms, n - 1 - j),
            decreases n - k,
        {
            let idx = n - 1 - k;
            let end = if matches[idx] < n - 1 - idx {
                idx + 1 + matches[idx]
            } else {
                n
            };
            assert(end == copies_end(ms, idx as int));
            assert(ms[idx as int] == matches@[idx as int] as int);
            let mut acc: u128 = 1;
            let mut t: usize = idx + 1;
            while t < end
                invariant
                    idx + 1 <= t <= end <= n,
                    idx == n - 1 - k,
                    counts_rev@.len() == k,
                    forall|j: int| 0 <= j < k ==> #[trigger] counts_rev@[j] as int == instances(ms, n - 1 - j),
                    ms == matches_of(g),
                    n == ms.len(),
                    acc + instances_in(ms, t as int, end as int) == 1 + instances_in(ms, idx + 1, end as int),
                    acc >= 1,
                    numbered_in_order(g),
                    g.len() == n,
                    g == lines_view(lines@),
                    ms[idx as int] >= 0,
                    end == copies_end(ms, idx as int),
                decreases end - t,
            {
                let c = counts_rev[n - 1 - t];
                if acc > u128::MAX - c {
                    proof {
                        lemma_instances_nonneg(ms, t + 1, end as int);
                        lemma_overflow_total(ms, idx as int);
                        assert(c as int == instances(ms, t as int));
                        assert(instances_in(ms, t as int, end as int) == instances(ms, t as int) + instances_in(ms, t + 1, end as int));
                        assert(instances(ms, idx as int) == 1 + instances_in(ms, idx + 1, end as int));
                    }
                    return None;
                }
                acc = acc + c;
                t = t + 1;
            }
            proof {
                assert(ms[idx as int] >= 0);
            }
            counts_rev.push(acc);
            k = k + 1;
        }
        assert(numbered_in_order(g));
        let mut total: u128 = 0;
        let mut t: usize = 0;
        while t < n
            invariant
                t <= n,
                n == ms.len(),
                counts_rev@.len() == n,
                forall|j: int| 0 <= j < n ==> #[trigger] counts_rev@[j] as int == instances(ms, n - 1 - j),
                total + instances_in(ms, t as int, n as int) == instances_in(ms, 0, n as int),
                numbered_in_order(g),
                g.len() == n,
                g == lines_view(lines@),
                ms == matches_of(g),
            decreases n - t,
        {
            let c = counts_rev[n - 1 - t];
            if total > u128::MAX - c {
                proof {
                    lemma_instances_nonneg(ms, t + 1, n as int);
                    assert(c as int == instances(ms, t as int));
                    assert(instances_in(ms, t as int, n as int) == instances(ms, t as int) + instances_in(ms, t + 1, n as int));
                }
                return None;
            }
            total = total + c;
            t = t + 1;
        }
        Some(total)
    }
}

/// Where the instances of one card do not fit, the total does not either.
pub proof fn lemma_overflow_total(ms: Seq<int>, i: int)
    requires
        0 <= i < ms.len(),
    ensures
        instances(ms, i) <= instances_in(ms, 0, ms.len() as int),
{
    lemma_instances_in_bounds(ms, 0, ms.len() as int, i);
}

/// Whether every line is a card of the handled size.
fn cards_accepted(lines: &Vec<&str>) -> (r: bool)
    ensures
        r == cards_fit(lines_view(lines@)),
{
    let ghost g = lines_view(lines@);
    let mut i: usize = 0;
    while i < lines.len()
        invariant
            g == lines_view(lines@),
            i <= lines.len(),
            forall|j: int| 0 <= j < i ==> card_fits(#[trigger] card_of(g[j])),
        decreases lines.len() - i,
    {
        assert(g[i as int] == lines@[i as int]@);
        match parsing_card(lines[i]) {
            Some((_, w, n)) => {
                if n.len() > i32::MAX as usize {
                    return false;
                }
                let m = count_matching_numbers(&w, &n);
                if m > MAX_MATCHES as i32 {
                    return false;
                }
            },
            None => {
                return false;
            },
        }
        i = i + 1;
    }
    true
}

} // verus!
