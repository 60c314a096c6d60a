//! Hot springs: rows of springs, operational, damaged or unknown, with the
//! lengths of the runs of damaged ones; count the arrangements that fit.
use crate::clock::{decimal_of, decimal_u128, elapsed_since, nanos_of, start_clock};
use crate::text::{chars_of, lines_spec, lines_view, split_by, split_lines, split_spec, parse_unsigned, all_digits, digits_value};
use vstd::prelude::*;

verus! {

/// Largest hint handled, and largest number of hints and of springs: a sum of
/// two of them fits a 32-bit `usize`.
pub const MAX_HINT: usize = 2147483647;

#[derive(Clone, Copy, PartialEq, Eq, Structural, Debug)]
pub enum ConditionType {
    Operational,
    Damaged,
    Unknown,
}

pub open spec fn not_operational(v: ConditionType) -> bool {
    v != ConditionType::Operational
}

/// A run of `w` springs from `k` can all be damaged, with no damaged spring
/// just before or just after it.
pub open spec fn fits_at(c: Seq<ConditionType>, w: int, k: int) -> bool {
    &&& 0 <= k
    &&& k + w <= c.len()
    &&& forall|i: int| k <= i < k + w ==> not_operational(#[trigger] c[i])
    &&& (k == 0 || c[k - 1] != ConditionType::Damaged)
    &&& (k + w == c.len() || c[k + w] != ConditionType::Damaged)
}

/// The first start from `k` on, with the run ending by `right`, where a run of
/// `w` fits.
pub open spec fn first_fit(c: Seq<ConditionType>, w: int, k: int, right: int) -> Option<int>
    decreases right + 1 - k,
{
    if k < 0 || k > right || k + w > right {
        None
    } else if fits_at(c, w, k) {
        Some(k)
    } else {
        first_fit(c, w, k + 1, right)
    }
}

/// The length the hints from `i` on need at least: their runs and one
/// operational spring between each two.
pub open spec fn min_len(h: Seq<usize>, i: int) -> int
    decreases h.len() - i,
{
    if i < 0 || i >= h.len() {
        0
    } else if i == h.len() - 1 {
        h[i] as int
    } else {
        h[i] + 1 + min_len(h, i + 1)
    }
}

/// No spring in `a..b` is damaged (nor past the row).
pub open spec fn none_damaged(c: Seq<ConditionType>, a: int, b: int) -> bool {
    forall|i: int| a <= i < b ==> i < c.len() && #[trigger] c[i] != ConditionType::Damaged
}

/// The first `upto` hints can be placed in turn before `maxl`, each run where
/// it first fits, with no damaged spring left between them.
pub open spec fn follows(c: Seq<ConditionType>, h: Seq<usize>, upto: int, maxl: int, k: int, left: int) -> bool
    decreases upto - k,
{
    if k >= upto {
        none_damaged(c, left, maxl)
    } else if k < 0 || k >= h.len() {
        false
    } else {
        match first_fit(c, h[k] as int, left, maxl) {
            Some(s) => if none_damaged(c, left, s) {
                follows(c, h, upto, maxl, k + 1, s + h[k] + 1)
            } else {
                false
            },
            None => follows(c, h, upto, maxl, k + 1, left),
        }
    }
}

pub open spec fn assumed(v: ConditionType, damaged: bool) -> ConditionType {
    if v == ConditionType::Unknown {
        if damaged {
            ConditionType::Damaged
        } else {
            ConditionType::Operational
        }
    } else {
        v
    }
}

/// The row with the springs before `s` operational and those in `s..e`
/// damaged, where unknown.
pub open spec fn marked(c: Seq<ConditionType>, s: int, e: int) -> Seq<ConditionType> {
    Seq::new(c.len(), |i: int| if i < s { assumed(c[i], false) } else if i < e { assumed(c[i], true) } else { c[i] })
}

/// The row with the springs up to `s` operational, where unknown.
pub open spec fn unmarked(c: Seq<ConditionType>, s: int) -> Seq<ConditionType> {
    Seq::new(c.len(), |i: int| if i <= s { assumed(c[i], false) } else { c[i] })
}

/// The arrangements of the hints from `hi` on in `left..right`: the first
/// place the next run fits is either taken or passed over.
pub open spec fn arrangements(c: Seq<ConditionType>, h: Seq<usize>, hi: int, left: int, right: int) -> int
    decreases right - left,
{
    if left > right || min_len(h, hi) > right - left || !follows(c, h, hi, left, 0, 0) {
        0
    } else if hi < 0 || hi >= h.len() {
        if none_damaged(c, left, right) {
            1
        } else {
            0
        }
    } else {
        let w = h[hi] as int;
        match first_fit(c, w, left, right) {
            Some(s) => if w >= 1 && s >= left && s + w <= right {
                arrangements(marked(c, s, s + w), h, hi + 1, s + w, right) + arrangements(unmarked(c, s), h, hi, s + 1, right)
            } else {
                0
            },
            None => 0,
        }
    }
}

pub proof fn lemma_first_fit(c: Seq<ConditionType>, w: int, k: int, right: int)
    ensures
        first_fit(c, w, k, right) matches Some(s) ==> k <= s && s + w <= right && fits_at(c, w, s),
    decreases right + 1 - k,
{
    if !(k < 0 || k > right || k + w > right) && !fits_at(c, w, k) {
        lemma_first_fit(c, w, k + 1, right);
    }
}

pub fn assume_value(v: ConditionType, assume_damage: bool) -> (r: ConditionType)
    ensures
        r == assumed(v, assume_damage),
{
    if v == ConditionType::Unknown {
        if assume_damage {
            ConditionType::Damaged
        } else {
            ConditionType::Operational
        }
    } else {
        v
    }
}

/// Where, from `left_board` on and ending by `right_border`, a run of
/// `window_size` damaged springs first fits.
pub fn look_for_filling_index_ex(window_size: usize, conditions: &Vec<ConditionType>, left_board: usize, right_border: usize) -> (r: Option<usize>)
    requires
        right_border <= conditions@.len(),
    ensures
        match r {
            Some(k) => first_fit(conditions@, window_size as int, left_board as int, right_border as int) == Some(k as int),
            None => first_fit(conditions@, window_size as int, left_board as int, right_border as int) is None,
        },
{
    let mut k: usize = left_board;
    while k <= right_border && window_size <= right_border - k
        invariant
            right_border <= conditions@.len(),
            left_board <= k,
            first_fit(conditions@, window_size as int, left_board as int, right_border as int) == first_fit(conditions@, window_size as int, k as int, right_border as int),
        decreases right_border + 1 - k,
    {
        let mut ok = true;
        let mut i: usize = 0;
        while i < window_size
            invariant
                k + window_size <= right_border <= conditions@.len(),
                left_board <= k,
                first_fit(conditions@, window_size as int, left_board as int, right_border as int) == first_fit(conditions@, window_size as int, k as int, right_border as int),
                i <= window_size,
                ok == forall|j: int| k <= j < k + i ==> not_operational(#[trigger] conditions@[j]),
            decreases window_size - i,
        {
            if conditions[k + i] == ConditionType::Operational {
                ok = false;
            }
            i = i + 1;
        }
        let front = k == 0 || conditions[k - 1] != ConditionType::Damaged;
        let back = k + window_size == conditions.len() || conditions[k + window_size] != ConditionType::Damaged;
        if ok && front && back {
            assert(fits_at(conditions@, window_size as int, k as int));
            assert(first_fit(conditions@, window_size as int, k as int, right_border as int) == Some(k as int));
            return Some(k);
        }
        assert(!fits_at(conditions@, window_size as int, k as int));
        assert(first_fit(conditions@, window_size as int, k as int, right_border as int) == first_fit(conditions@, window_size as int, k + 1, right_border as int));
        if k == right_border {
            assert(first_fit(conditions@, window_size as int, k + 1, right_border as int) is None);
            return None;
        }
        k = k + 1;
    }
    None
}

/// The length the hints from `hints_index` on need at least.
pub fn get_minimum_length_of_conditions(hints: &Vec<usize>, hints_index: usize) -> (r: u128)
    requires
        hints@.len() <= MAX_HINT,
        forall|i: int| 0 <= i < hints@.len() ==> #[trigger] hints@[i] <= MAX_HINT,
    ensures
        r == min_len(hints@, hints_index as int),
{
    if hints_index >= hints.len() {
        return 0;
    }
    let mut total: u128 = hints[hints.len() - 1] as u128;
    let mut i: usize = hints.len() - 1;
    while i > hints_index
        invariant
            hints_index <= i < hints@.len(),
            hints@.len() <= MAX_HINT,
            forall|j: int| 0 <= j < hints@.len() ==> #[trigger] hints@[j] <= MAX_HINT,
            total == min_len(hints@, i as int),
            total <= (hints@.len() - i) * (MAX_HINT + 1),
        decreases i,
    {
        assert((hints@.len() - i + 1) * (MAX_HINT + 1) == (hints@.len() - i) * (MAX_HINT + 1) + (MAX_HINT + 1)) by (nonlinear_arith);
        assert((hints@.len() - i + 1) * (MAX_HINT + 1) <= 4611686018427387904) by (nonlinear_arith)
            requires
                hints@.len() - i + 1 <= MAX_HINT + 1,
        ;
        i = i - 1;
        total = total + hints[i] as u128 + 1;
    }
    total
}

fn none_damaged_exec(conditions: &Vec<ConditionType>, a: usize, b: usize) -> (r: bool)
    ensures
        r == none_damaged(conditions@, a as int, b as int),
{
    let mut i: usize = a;
    while i < b
        invariant
            a <= i,
            i <= b || i == a,
            forall|j: int| a <= j < i ==> j < conditions@.len() && #[trigger] conditions@[j] != ConditionType::Damaged,
        decreases b - i,
    {
        if i >= conditions.len() || conditions[i] == ConditionType::Damaged {
            assert(!(i < conditions@.len() && conditions@[i as int] != ConditionType::Damaged));
            return false;
        }
        i = i + 1;
    }
    true
}

/// Whether the first `hints_index` hints can be placed in turn before
/// `maximum_left`, each where it first fits, with no damaged spring left
/// between them or after the last.
pub fn follow_conditions(conditions: &Vec<ConditionType>, reference_hints: &Vec<usize>, hints_index: usize, maximum_left: usize) -> (r: bool)
    requires
        maximum_left <= conditions@.len() <= MAX_HINT,
        forall|i: int| 0 <= i < reference_hints@.len() ==> #[trigger] reference_hints@[i] <= MAX_HINT,
    ensures
        r == follows(conditions@, reference_hints@, hints_index as int, maximum_left as int, 0, 0),
{
    let mut left_border: usize = 0;
    let mut index: usize = 0;
    while index < hints_index
        invariant
            maximum_left <= conditions@.len() <= MAX_HINT,
            forall|i: int| 0 <= i < reference_hints@.len() ==> #[trigger] reference_hints@[i] <= MAX_HINT,
            index <= hints_index,
            left_border <= maximum_left + 1,
            follows(conditions@, reference_hints@, hints_index as int, maximum_left as int, 0, 0)
                == follows(conditions@, reference_hints@, hints_index as int, maximum_left as int, index as int, left_border as int),
        decreases hints_index - index,
    {
        if index >= reference_hints.len() {
            return false;
        }
        let window_size = reference_hints[index];
        match look_for_filling_index_ex(window_size, conditions, left_border, maximum_left) {
            Some(start_index) => {
                proof {
                    lemma_first_fit(conditions@, window_size as int, left_border as int, maximum_left as int);
                }
                if none_damaged_exec(conditions, left_border, start_index) {
                    left_border = start_index + window_size + 1;
                } else {
                    return false;
                }
            },
            None => {},
        }
        index = index + 1;
    }
    none_damaged_exec(conditions, left_border, maximum_left)
}

pub proof fn lemma_arrangements_nonneg(c: Seq<ConditionType>, h: Seq<usize>, hi: int, left: int, right: int)
    ensures
        arrangements(c, h, hi, left, right) >= 0,
    decreases right - left,
{
    if !(left > right || min_len(h, hi) > right - left || !follows(c, h, hi, left, 0, 0)) && 0 <= hi < h.len() {
        let w = h[hi] as int;
        if let Some(s) = first_fit(c, w, left, right) {
            if w >= 1 && s >= left && s + w <= right {
                lemma_arrangements_nonneg(marked(c, s, s + w), h, hi + 1, s + w, right);
                lemma_arrangements_nonneg(unmarked(c, s), h, hi, s + 1, right);
            }
        }
    }
}

pub open spec fn hints_fit(h: Seq<usize>) -> bool {
    &&& h.len() <= MAX_HINT
    &&& forall|i: int| 0 <= i < h.len() ==> 1 <= #[trigger] h[i] <= MAX_HINT
}

/// The arrangements of the hints from `hints_index` on within
/// `left_border..right_border`; `None` where their number leaves `u64`.
pub fn filling_ex(conditions: Vec<ConditionType>, reference_hints: &Vec<usize>, hints_index: usize, left_border: usize, right_border: usize) -> (r: Option<u64>)
    requires
        left_border <= right_border <= conditions@.len() <= MAX_HINT,
        hints_fit(reference_hints@),
    ensures
        match r {
            Some(v) => arrangements(conditions@, reference_hints@, hints_index as int, left_border as int, right_border as int) == v,
            None => arrangements(conditions@, reference_hints@, hints_index as int, left_border as int, right_border as int) > u64::MAX,
        },
    decreases right_border - left_border,
{
    let ghost c = conditions@;
    let ghost h = reference_hints@;
    let minimum_length = get_minimum_length_of_conditions(reference_hints, hints_index);
    let length = right_border - left_border;
    if minimum_length > length as u128 {
        return Some(0);
    }
    if !follow_conditions(&conditions, reference_hints, hints_index, left_border) {
        return Some(0);
    }
    if hints_index >= reference_hints.len() {
        if none_damaged_exec(&conditions, left_border, right_border) {
            return Some(1);
        } else {
            return Some(0);
        }
    }
    let window_size = reference_hints[hints_index];
    let start_index = match look_for_filling_index_ex(window_size, &conditions, left_border, right_border) {
        Some(s) => s,
        None => {
            return Some(0);
        },
    };
    proof {
        lemma_first_fit(c, window_size as int, left_border as int, right_border as int);
    }
    let end_index = start_index + window_size;
    let mut marked_conditions: Vec<ConditionType> = Vec::new();
    let mut unmarked_conditions: Vec<ConditionType> = Vec::new();
    let mut index: usize = 0;
    while index < conditions.len()
        invariant
            c == conditions@,
            index <= conditions.len(),
            marked_conditions@ == marked(c, start_index as int, end_index as int).take(index as int),
            unmarked_conditions@ == unmarked(c, start_index as int).take(index as int),
        decreases conditions.len() - index,
    {
        let v = conditions[index];
        let m = if index < start_index {
            assume_value(v, false)
        } else if index < end_index {
            assume_value(v, true)
        } else {
            v
        };
        let u = if index <= start_index {
            assume_value(v, false)
        } else {
            v
        };
        marked_conditions.push(m);
        unmarked_conditions.push(u);
        index = index + 1;
        assert(marked_conditions@ =~= marked(c, start_index as int, end_index as int).take(index as int));
        assert(unmarked_conditions@ =~= unmarked(c, start_index as int).take(index as int));
    }
    assert(marked_conditions@ =~= marked(c, start_index as int, end_index as int));
    assert(unmarked_conditions@ =~= unmarked(c, start_index as int));
    let result_2 = filling_ex(marked_conditions, reference_hints, hints_index + 1, end_index, right_border);
    let result_1 = filling_ex(unmarked_conditions, reference_hints, hints_index, start_index + 1, right_border);
    proof {
        lemma_arrangements_nonneg(marked(c, start_index as int, end_index as int), h, hints_index + 1, end_index as int, right_border as int);
        lemma_arrangements_nonneg(unmarked(c, start_index as int), h, hints_index as int, start_index + 1, right_border as int);
    }
    match (result_1, result_2) {
        (Some(a), Some(b)) => a.checked_add(b),
        _ => None,
    }
}

/// Largest row length, and number of hints, read from a line: five copies of
/// a row and the four springs between them stay within `MAX_HINT`.
pub const MAX_ROW: usize = 429496728;

pub open spec fn condition_of(ch: char) -> Option<ConditionType> {
    if ch == '.' {
        Some(ConditionType::Operational)
    } else if ch == '#' {
        Some(ConditionType::Damaged)
    } else if ch == '?' {
        Some(ConditionType::Unknown)
    } else {
        None
    }
}

pub open spec fn conditions_of(s: Seq<char>) -> Option<Seq<ConditionType>> {
    if forall|i: int| 0 <= i < s.len() ==> (#[trigger] condition_of(s[i])) is Some {
        Some(s.map_values(|ch: char| condition_of(ch)->Some_0))
    } else {
        None
    }
}

pub open spec fn hint_of(w: Seq<char>) -> Option<usize> {
    if w.len() > 0 && all_digits(w) && 1 <= digits_value(w) <= MAX_HINT {
        Some(digits_value(w) as usize)
    } else {
        None
    }
}

pub open spec fn hints_of(s: Seq<char>) -> Option<Seq<usize>> {
    let p = split_spec(s, ',');
    if forall|i: int| 0 <= i < p.len() ==> (#[trigger] hint_of(p[i])) is Some {
        Some(p.map_values(|w: Seq<char>| hint_of(w)->Some_0))
    } else {
        None
    }
}

/// A line `<springs> <hints>`; hints are from 1 to `MAX_HINT`, and a row
/// holds at most `MAX_ROW` springs and hints.
pub open spec fn row_of(line: Seq<char>) -> Option<(Seq<ConditionType>, Seq<usize>)> {
    let w = split_spec(line, ' ');
    if w.len() >= 2 && conditions_of(w[0]) is Some && hints_of(w[1]) is Some && w[0].len() <= MAX_ROW
        && hints_of(w[1])->Some_0.len() <= MAX_ROW {
        Some((conditions_of(w[0])->Some_0, hints_of(w[1])->Some_0))
    } else {
        None
    }
}

/// Five copies of the springs, joined by unknown springs, and five of the hints.
pub open spec fn unfolded(c: Seq<ConditionType>, h: Seq<usize>) -> (Seq<ConditionType>, Seq<usize>) {
    let u = seq![ConditionType::Unknown];
    (c + u + c + u + c + u + c + u + c, h + h + h + h + h)
}

pub open spec fn row_count(line: Seq<char>, unfold: bool) -> Option<int> {
    match row_of(line) {
        Some((c0, h0)) => {
            let (c, h) = if unfold { unfolded(c0, h0) } else { (c0, h0) };
            Some(arrangements(c, h, 0, 0, c.len() as int))
        },
        None => None,
    }
}

/// The sum over the lines; `None` where a line is no row or a sum leaves `u64`.
pub open spec fn total_count(g: Seq<Seq<char>>, unfold: bool) -> Option<int>
    decreases g.len(),
{
    if g.len() == 0 {
        Some(0)
    } else {
        match (total_count(g.drop_last(), unfold), row_count(g.last(), unfold)) {
            (Some(t), Some(v)) => if t + v <= u64::MAX {
                Some(t + v)
            } else {
                None
            },
            _ => None,
        }
    }
}

pub proof fn lemma_total_stops(g: Seq<Seq<char>>, unfold: bool, i: int, j: int)
    requires
        1 <= i <= j <= g.len(),
        total_count(g.take(i), unfold) is None,
    ensures
        total_count(g.take(j), unfold) is None,
    decreases j - i,
{
    if j > i {
        lemma_total_stops(g, unfold, i, j - 1);
        assert(g.take(j).drop_last() =~= g.take(j - 1));
    }
}

pub fn parse_conditions(input: &Vec<char>) -> (r: Option<Vec<ConditionType>>)
    ensures
        match r {
            Some(v) => conditions_of(input@) == Some(v@),
            None => conditions_of(input@) is None,
        },
{
    let mut r: Vec<ConditionType> = Vec::new();
    let mut i: usize = 0;
    while i < input.len()
        invariant
            i <= input.len(),
            r@.len() == i,
            forall|k: int| 0 <= k < i ==> condition_of(#[trigger] input@[k]) == Some(r@[k]),
        decreases input.len() - i,
    {
        let ch = input[i];
        let v = if ch == '.' {
            ConditionType::Operational
        } else if ch == '#' {
            ConditionType::Damaged
        } else if ch == '?' {
            ConditionType::Unknown
        } else {
            assert(condition_of(input@[i as int]) is None);
            return None;
        };
        r.push(v);
        i = i + 1;
    }
    assert(r@ =~= input@.map_values(|ch: char| condition_of(ch)->Some_0));
    Some(r)
}

pub fn parse_hint(input: &Vec<char>) -> (r: Option<Vec<usize>>)
    ensures
        match r {
            Some(v) => hints_of(input@) == Some(v@),
            None => hints_of(input@) is None,
        },
{
    let pieces = split_by(input, ',');
    let ghost ps = pieces@.map_values(|w: Vec<char>| w@);
    let mut r: Vec<usize> = Vec::new();
    let mut i: usize = 0;
    while i < pieces.len()
        invariant
            ps == pieces@.map_values(|w: Vec<char>| w@),
            ps == split_spec(input@, ','),
            i <= pieces.len(),
            r@.len() == i,
            forall|k: int| 0 <= k < i ==> hint_of(#[trigger] ps[k]) == Some(r@[k]),
        decreases pieces.len() - i,
    {
        assert(ps[i as int] == pieces@[i as int]@);
        match parse_unsigned(&pieces[i]) {
            Some(v) => {
                if v < 1 || v > MAX_HINT as u128 {
                    assert(hint_of(ps[i as int]) is None);
                    return None;
                }
                r.push(v as usize);
            },
            None => {
                assert(hint_of(ps[i as int]) is None);
                return None;
            },
        }
        i = i + 1;
    }
    assert(r@ =~= ps.map_values(|w: Seq<char>| hint_of(w)->Some_0));
    Some(r)
}

/// The springs and the hints of a line.
pub fn parse_line(input: &str) -> (r: Option<(Vec<ConditionType>, Vec<usize>)>)
    ensures
        match r {
            Some((c, h)) => row_of(input@) == Some((c@, h@)),
            None => row_of(input@) is None,
        },
{
    let values = split_by(&chars_of(input), ' ');
    let ghost ws = values@.map_values(|w: Vec<char>| w@);
    if values.len() < 2 {
        return None;
    }
    assert(ws[0] == values@[0]@ && ws[1] == values@[1]@);
    let conditions = match parse_conditions(&values[0]) {
        Some(c) => c,
        None => {
            return None;
        },
    };
    let hints = match parse_hint(&values[1]) {
        Some(h) => h,
        None => {
            return None;
        },
    };
    if values[0].len() > MAX_ROW || hints.len() > MAX_ROW {
        return None;
    }
    Some((conditions, hints))
}

/// Five copies of the springs joined by unknown springs, and five of the hints.
pub fn unfold(conditions: &Vec<ConditionType>, hints: &Vec<usize>) -> (r: (Vec<ConditionType>, Vec<usize>))
    requires
        conditions@.len() <= MAX_ROW,
        hints@.len() <= MAX_ROW,
    ensures
        (r.0@, r.1@) == unfolded(conditions@, hints@),
{
    let mut new_conditions: Vec<ConditionType> = Vec::new();
    let mut new_hints: Vec<usize> = Vec::new();
    let ghost u = seq![ConditionType::Unknown];
    let mut copy: usize = 0;
    while copy < 5
        invariant
            copy <= 5,
            u == seq![ConditionType::Unknown],
            conditions@.len() <= MAX_ROW,
            hints@.len() <= MAX_ROW,
            new_conditions@ == if copy == 0 { Seq::empty() } else if copy == 1 { conditions@ } else if copy == 2 { conditions@ + u + conditions@ } else if copy == 3 { conditions@ + u + conditions@ + u + conditions@ } else if copy == 4 { conditions@ + u + conditions@ + u + conditions@ + u + conditions@ } else { conditions@ + u + conditions@ + u + conditions@ + u + conditions@ + u + conditions@ },
            new_hints@ == if copy == 0 { Seq::empty() } else if copy == 1 { hints@ } else if copy == 2 { hints@ + hints@ } else if copy == 3 { hints@ + hints@ + hints@ } else if copy == 4 { hints@ + hints@ + hints@ + hints@ } else { hints@ + hints@ + hints@ + hints@ + hints@ },
            new_conditions@.len() <= copy * (MAX_ROW + 1),
            new_hints@.len() <= copy * MAX_ROW,
        decreases 5 - copy,
    {
        let ghost before_c = new_conditions@;
        let ghost before_h = new_hints@;
        if copy > 0 {
            new_conditions.push(ConditionType::Unknown);
        }
        let mut k: usize = 0;
        let ghost mid = new_conditions@;
        while k < conditions.len()
            invariant
                k <= conditions.len(),
                new_conditions@ == mid + conditions@.take(k as int),
            decreases conditions.len() - k,
        {
            new_conditions.push(conditions[k]);
            k = k + 1;
            assert(new_conditions@ =~= mid + conditions@.take(k as int));
        }
        assert(conditions@.take(conditions.len() as int) =~= conditions@);
        let mut k: usize = 0;
        while k < hints.len()
            invariant
                k <= hints.len(),
                new_hints@ == before_h + hints@.take(k as int),
            decreases hints.len() - k,
        {
            new_hints.push(hints[k]);
            k = k + 1;
            assert(new_hints@ =~= before_h + hints@.take(k as int));
        }
        assert(hints@.take(hints.len() as int) =~= hints@);
        proof {
            if copy == 0 {
                assert(new_conditions@ =~= conditions@);
                assert(new_hints@ =~= hints@);
            } else {
                assert(mid =~= before_c + u);
            }
        }
        copy = copy + 1;
    }
    (new_conditions, new_hints)
}

pub struct Day12 {}

impl Day12 {
    fn count(lines: &Vec<&str>, unfold_rows: bool) -> (r: Option<u64>)
        ensures
            match r {
                Some(v) => total_count(lines_view(lines@), unfold_rows) == Some(v as int),
                None => total_count(lines_view(lines@), unfold_rows) is None,
            },
    {
        let ghost g = lines_view(lines@);
        let mut total: u64 = 0;
        let mut i: usize = 0;
        while i < lines.len()
            invariant
                g == lines_view(lines@),
                i <= lines.len(),
                total_count(g.take(i as int), unfold_rows) == Some(total as int),
            decreases lines.len() - i,
        {
            assert(g.take(i + 1).drop_last() =~= g.take(i as int));
            assert(g.take(i + 1).last() == lines@[i as int]@);
            let (c0, h0) = match parse_line(lines[i]) {
                Some(p) => p,
                None => {
                    proof {
                        lemma_total_stops(g, unfold_rows, i + 1, g.len() as int);
                        assert(g.take(g.len() as int) =~= g);
                    }
                    return None;
                },
            };
            let (conditions, hints) = if unfold_rows {
                unfold(&c0, &h0)
            } else {
                (c0, h0)
            };
            assert forall|k: int| 0 <= k < hints@.len() implies 1 <= #[trigger] hints@[k] <= MAX_HINT by {
                if unfold_rows {
                    let n = h0@.len() as int;
                    assert(hints@ == h0@ + h0@ + h0@ + h0@ + h0@);
                    if k < n {
                        assert(hints@[k] == h0@[k]);
                    } else if k < 2 * n {
                        assert(hints@[k] == h0@[k - n]);
                    } else if k < 3 * n {
                        assert(hints@[k] == h0@[k - 2 * n]);
                    } else if k < 4 * n {
                        assert(hints@[k] == h0@[k - 3 * n]);
                    } else {
                        assert(hints@[k] == h0@[k - 4 * n]);
                    }
                }
            }
            let n = conditions.len();
            let value = filling_ex(conditions, &hints, 0, 0, n);
            match value {
                Some(v) => {
                    if total > u64::MAX - v {
                        proof {
                            lemma_total_stops(g, unfold_rows, i + 1, g.len() as int);
                            assert(g.take(g.len() as int) =~= g);
                        }
                        return None;
                    }
                    total = total + v;
                },
                None => {
                    proof {
                        lemma_total_stops(g, unfold_rows, i + 1, g.len() as int);
                        assert(g.take(g.len() as int) =~= g);
                    }
                    return None;
                },
            }
            i = i + 1;
        }
        assert(g.take(lines.len() as int) =~= g);
        Some(total)
    }

    /// The sum of the arrangements of each row.
    pub fn part_01(lines: &Vec<&str>) -> (r: Option<u64>)
        ensures
            match r {
                Some(v) => total_count(lines_view(lines@), false) == Some(v as int),
                None => total_count(lines_view(lines@), false) is None,
            },
    {
        Day12::count(lines, false)
    }

    /// The sum of the arrangements of each row unfolded five times.
    pub fn part_02(lines: &Vec<&str>) -> (r: Option<u64>)
        ensures
            match r {
                Some(v) => total_count(lines_view(lines@), true) == Some(v as int),
                None => total_count(lines_view(lines@), true) is None,
            },
    {
        Day12::count(lines, true)
    }

    /// Solves both parts on the text of a puzzle input, with the time each
    /// took; `None` where either part has no answer.
    pub fn run(input: &str) -> (r: Option<(String, String, String, u128, u128)>)
        ensures
            r is Some <==> total_count(lines_spec(input@), false) is Some && total_count(lines_spec(input@), true) is Some,
            r matches Some(t) ==> t.0@ == "Day_12"@ && t.1@ == decimal_of(total_count(lines_spec(input@), false)->Some_0)
                && t.2@ == decimal_of(total_count(lines_spec(input@), true)->Some_0),
    {
        let lines = split_lines(input);
        let start_1 = start_clock();
        let result_1 = Day12::part_01(&lines);
        let time_calculation_1 = elapsed_since(&start_1);
        let start_2 = start_clock();
        let result_2 = Day12::part_02(&lines);
        let time_calculation_2 = elapsed_since(&start_2);
        match (result_1, result_2) {
            (Some(a), Some(b)) => Some(
                (
                    "Day_12".to_owned(),
                    decimal_u128(a as u128),
                    decimal_u128(b as u128),
                    nanos_of(&time_calculation_1),
                    nanos_of(&time_calculation_2),
                ),
            ),
            _ => None,
        }
    }
}

} // verus!
