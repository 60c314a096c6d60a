//! Rucksack reorganisation: the item type two compartments share, and the one
//! three elves of a group share, each worth its priority.
use crate::clock::{decimal_i128, decimal_of, elapsed_since, nanos_of, start_clock};
use crate::text::{chars_of, head_upto, lines_spec, lines_view, split_lines, tail_from};
use vstd::prelude::*;

verus! {

/// Item types are characters below this code.
pub const TABLE_SIZE: usize = 125;


pub open spec fn has_item(s: Seq<char>, k: int) -> bool {
    exists|i: int| 0 <= i < s.len() && #[trigger] s[i] as u32 as int == k
}

pub open spec fn items_fit(s: Seq<char>) -> bool {
    forall|i: int| 0 <= i < s.len() ==> (#[trigger] s[i] as u32 as int) < TABLE_SIZE
}

/// Lower case letters are worth 1 to 26, upper case 27 to 52, others 0.
pub open spec fn priority(k: int) -> int {
    if 65 <= k <= 90 {
        k - 65 + 27
    } else if 97 <= k <= 122 {
        k - 97 + 1
    } else {
        0
    }
}

/// The priority of the smallest item code, below `n`, that every bag holds;
/// 0 where there is none.
pub open spec fn shared_priority(bags: Seq<Seq<char>>, n: int) -> int
    decreases n,
{
    if n <= 0 {
        0
    } else if shared_priority_exists(bags, n - 1) {
        shared_priority(bags, n - 1)
    } else if held_by_all(bags, n - 1) {
        priority(n - 1)
    } else {
        0
    }
}

/// Every bag holds item code `k`.
pub open spec fn held_by_all(bags: Seq<Seq<char>>, k: int) -> bool {
    forall|b: int| 0 <= b < bags.len() ==> has_item(#[trigger] bags[b], k)
}

/// Some item code below `n` is held by every bag.
pub open spec fn shared_priority_exists(bags: Seq<Seq<char>>, n: int) -> bool {
    exists|k: int| 0 <= k < n && #[trigger] held_by_all(bags, k)
}

pub open spec fn halves(s: Seq<char>) -> Seq<Seq<char>> {
    seq![s.take((s.len() / 2) as int), s.skip((s.len() / 2) as int)]
}

pub open spec fn compartment_sum(g: Seq<Seq<char>>) -> int
    decreases g.len(),
{
    if g.len() == 0 {
        0
    } else {
        compartment_sum(g.drop_last()) + shared_priority(halves(g.last()), TABLE_SIZE as int)
    }
}

/// The sum over the first `k` groups of three lines.
pub open spec fn group_sum(g: Seq<Seq<char>>, k: int) -> int
    decreases k,
{
    if k <= 0 {
        0
    } else {
        group_sum(g, k - 1) + shared_priority(g.subrange(3 * (k - 1), 3 * k), TABLE_SIZE as int)
    }
}

pub proof fn lemma_compartments_grow(g: Seq<Seq<char>>, i: int, j: int)
    requires
        0 <= i <= j <= g.len(),
    ensures
        compartment_sum(g.take(i)) <= compartment_sum(g.take(j)),
    decreases j - i,
{
    if j > i {
        lemma_compartments_grow(g, i, j - 1);
        assert(g.take(j).drop_last() =~= g.take(j - 1));
        lemma_priority_bound(halves(g.take(j).last()), TABLE_SIZE as int);
    }
}

pub proof fn lemma_groups_grow(g: Seq<Seq<char>>, i: int, j: int)
    requires
        0 <= i <= j,
    ensures
        group_sum(g, i) <= group_sum(g, j),
    decreases j - i,
{
    if j > i {
        lemma_groups_grow(g, i, j - 1);
        lemma_priority_bound(g.subrange(3 * (j - 1), 3 * j), TABLE_SIZE as int);
    }
}

pub open spec fn bags_fit(g: Seq<Seq<char>>) -> bool {
    &&& forall|i: int| 0 <= i < g.len() ==> items_fit(#[trigger] g[i])
}

pub struct Day03 {}

impl Day03 {
    /// Marks with 1 each item code the bag holds.
    pub fn item_inspect(bag: &Vec<char>) -> (r: Vec<u8>)
        requires
            items_fit(bag@),
        ensures
            r@.len() == TABLE_SIZE,
            forall|k: int| 0 <= k < TABLE_SIZE ==> #[trigger] r@[k] == if has_item(bag@, k) {
                1u8
            } else {
                0u8
            },
    {
        let mut container: Vec<u8> = Vec::new();
        let mut k: usize = 0;
        while k < TABLE_SIZE
            invariant
                k <= TABLE_SIZE,
                container@.len() == k,
                forall|j: int| 0 <= j < k ==> container@[j] == 0,
            decreases TABLE_SIZE - k,
        {
            container.push(0);
            k = k + 1;
        }
        let mut i: usize = 0;
        while i < bag.len()
            invariant
                items_fit(bag@),
                i <= bag.len(),
                container@.len() == TABLE_SIZE,
                forall|k: int| 0 <= k < TABLE_SIZE ==> #[trigger] container@[k] == if has_item(bag@.take(i as int), k) {
                    1u8
                } else {
                    0u8
                },
            decreases bag.len() - i,
        {
            let c = bag[i];
            assert((bag@[i as int] as u32 as int) < TABLE_SIZE);
            let code = c as u32 as usize;
            container.set(code, 1);
            i = i + 1;
            assert forall|k: int| 0 <= k < TABLE_SIZE implies #[trigger] container@[k] == if has_item(bag@.take(i as int), k) {
                1u8
            } else {
                0u8
            } by {
                let t = bag@.take(i as int);
                let p = bag@.take(i - 1);
                if has_item(p, k) {
                    let j = choose|j: int| 0 <= j < p.len() && #[trigger] p[j] as u32 as int == k;
                    assert(t[j] as u32 as int == k);
                }
                if has_item(t, k) && k != code {
                    let j = choose|j: int| 0 <= j < t.len() && #[trigger] t[j] as u32 as int == k;
                    assert(p[j] as u32 as int == k);
                }
                if k == code {
                    assert(t[i - 1] as u32 as int == k);
                }
            }
        }
        assert(bag@.take(bag.len() as int) =~= bag@);
        container
    }

    /// Adds the second table to the first, item code by item code.
    pub fn merge_container(first: &mut Vec<u8>, second: &Vec<u8>)
        requires
            old(first)@.len() == second@.len(),
            forall|k: int| 0 <= k < second@.len() ==> old(first)@[k] + second@[k] <= 255,
        ensures
            final(first)@.len() == old(first)@.len(),
            forall|k: int| 0 <= k < second@.len() ==> #[trigger] final(first)@[k] == old(first)@[k] + second@[k],
    {
        let ghost orig = first@;
        let mut index: usize = 0;
        while index < first.len()
            invariant
                first@.len() == orig.len(),
                orig.len() == second@.len(),
                index <= first.len(),
                forall|k: int| 0 <= k < second@.len() ==> orig[k] + second@[k] <= 255,
                forall|k: int| 0 <= k < index ==> #[trigger] first@[k] == orig[k] + second@[k],
                forall|k: int| index <= k < first@.len() ==> #[trigger] first@[k] == orig[k],
            decreases first.len() - index,
        {
            let v = first[index] + second[index];
            first.set(index, v);
            index = index + 1;
        }
    }

    pub fn calculate_value(index: usize) -> (r: u8)
        ensures
            r == priority(index as int),
    {
        if index >= 65 && index <= 90 {
            (index - 65 + 27) as u8
        } else if index >= 97 && index <= 122 {
            (index - 97 + 1) as u8
        } else {
            0
        }
    }

    /// The priority of the smallest item code that every bag holds.
    fn shared_value(bags: &Vec<Vec<char>>) -> (r: u8)
        requires
            1 <= bags@.len() <= 3,
            forall|b: int| 0 <= b < bags@.len() ==> items_fit(#[trigger] bags@[b]@),
        ensures
            r == shared_priority(bags@.map_values(|v: Vec<char>| v@), TABLE_SIZE as int),
    {
        let ghost bs = bags@.map_values(|v: Vec<char>| v@);
        let mut total = Day03::item_inspect(&bags[0]);
        assert(bs[0] == bags@[0]@);
        assert forall|k: int| 0 <= k < TABLE_SIZE implies (#[trigger] total@[k] == 1) == (forall|x: int| 0 <= x < 1 ==> has_item(#[trigger] bs[x], k)) by {
            if total@[k] == 1 {
                assert forall|x: int| 0 <= x < 1 implies has_item(#[trigger] bs[x], k) by {
                    assert(x == 0);
                }
            }
        }
        let mut b: usize = 1;
        while b < bags.len()
            invariant
                bs == bags@.map_values(|v: Vec<char>| v@),
                1 <= b <= bags@.len() <= 3,
                forall|x: int| 0 <= x < bags@.len() ==> items_fit(#[trigger] bags@[x]@),
                total@.len() == TABLE_SIZE,
                forall|k: int| 0 <= k < TABLE_SIZE ==> (#[trigger] total@[k] == b) == (forall|x: int| 0 <= x < b ==> has_item(#[trigger] bs[x], k)),
                forall|k: int| 0 <= k < TABLE_SIZE ==> #[trigger] total@[k] <= b,
            decreases bags.len() - b,
        {
            let next = Day03::item_inspect(&bags[b]);
            assert(bs[b as int] == bags@[b as int]@);
            let ghost before = total@;
            Day03::merge_container(&mut total, &next);
            proof {
                assert forall|k: int| 0 <= k < TABLE_SIZE implies (#[trigger] total@[k] == b + 1) == (forall|x: int| 0 <= x < b + 1 ==> has_item(#[trigger] bs[x], k)) by {
                    if forall|x: int| 0 <= x < b + 1 ==> has_item(#[trigger] bs[x], k) {
                        assert(forall|x: int| 0 <= x < b ==> has_item(#[trigger] bs[x], k));
                        assert(has_item(bs[b as int], k));
                    }
                    if total@[k] == b + 1 {
                        assert(before[k] == b);
                        assert forall|x: int| 0 <= x < b + 1 implies has_item(#[trigger] bs[x], k) by {
                            if x == b {
                                assert(next@[k] == 1);
                            }
                        }
                    }
                }
            }
            b = b + 1;
        }
        let n = bags.len();
        let mut index: usize = 0;
        while index < TABLE_SIZE
            invariant
                bs == bags@.map_values(|v: Vec<char>| v@),
                n == bs.len(),
                index <= TABLE_SIZE,
                total@.len() == TABLE_SIZE,
                forall|k: int| 0 <= k < TABLE_SIZE ==> (#[trigger] total@[k] == n) == held_by_all(bs, k),
                !shared_priority_exists(bs, index as int),
                shared_priority(bs, index as int) == 0,
            decreases TABLE_SIZE - index,
        {
            if total[index] as usize == n {
                proof {
                    assert(shared_priority(bs, index + 1) == priority(index as int));
                    lemma_shared_stays(bs, index + 1, TABLE_SIZE as int);
                }
                return Day03::calculate_value(index);
            }
            proof {
                assert(!shared_priority_exists(bs, index + 1)) by {
                    if shared_priority_exists(bs, index + 1) {
                        let k = choose|k: int| 0 <= k < index + 1 && #[trigger] held_by_all(bs, k);
                        if k < index {
                            assert(shared_priority_exists(bs, index as int));
                        } else {
                            assert(total@[k] == n);
                        }
                    }
                }
            }
            index = index + 1;
        }
        0
    }
}

impl Day03 {
    /// The sum of the priorities of the item type both halves of each bag hold.
    pub fn part_01(lines: &Vec<&str>) -> (r: Option<i32>)
        requires
            bags_fit(lines_view(lines@)),
        ensures
            match r {
                Some(v) => v == compartment_sum(lines_view(lines@)),
                None => compartment_sum(lines_view(lines@)) > i32::MAX,
            },
    {
        let ghost g = lines_view(lines@);
        let mut total_value: i32 = 0;
        let mut i: usize = 0;
        while i < lines.len()
            invariant
                g == lines_view(lines@),
                bags_fit(g),
                i <= lines.len(),
                total_value == compartment_sum(g.take(i as int)),
                0 <= total_value,
            decreases lines.len() - i,
        {
            assert(g.take(i + 1).drop_last() =~= g.take(i as int));
            assert(g[i as int] == lines@[i as int]@);
            let s = chars_of(lines[i]);
            let middle = s.len() / 2;
            let first = head_upto(&s, middle);
            let second = tail_from(&s, middle);
            let bags = vec![first, second];
            let ghost bs = bags@.map_values(|v: Vec<char>| v@);
            assert(bs =~= halves(s@));
            assert(items_fit(s@));
            assert forall|b: int| 0 <= b < bags@.len() implies items_fit(#[trigger] bags@[b]@) by {
                assert(bags@[b]@ == bs[b]);
                if b == 0 {
                    assert forall|k: int| 0 <= k < bs[0].len() implies (#[trigger] bs[0][k] as u32 as int) < TABLE_SIZE by {
                        assert(bs[0][k] == s@[k]);
                    }
                } else {
                    assert forall|k: int| 0 <= k < bs[1].len() implies (#[trigger] bs[1][k] as u32 as int) < TABLE_SIZE by {
                        assert(bs[1][k] == s@[middle + k]);
                    }
                }
            }
            let v = Day03::shared_value(&bags);
            proof {
                lemma_priority_bound(bs, TABLE_SIZE as int);
            }
            if total_value > i32::MAX - v as i32 {
                proof {
                    lemma_compartments_grow(g, i + 1, g.len() as int);
                    assert(g.take(g.len() as int) =~= g);
                }
                return None;
            }
            total_value = total_value + v as i32;
            i = i + 1;
        }
        assert(g.take(lines.len() as int) =~= g);
        Some(total_value)
    }

    /// The sum of the priorities of the item type each group of three bags
    /// shares; lines past the last full group are left out.
    pub fn part_02(lines: &Vec<&str>) -> (r: Option<i32>)
        requires
            bags_fit(lines_view(lines@)),
        ensures
            match r {
                Some(v) => v == group_sum(lines_view(lines@), (lines@.len() / 3) as int),
                None => group_sum(lines_view(lines@), (lines@.len() / 3) as int) > i32::MAX,
            },
    {
        let ghost g = lines_view(lines@);
        let groups = lines.len() / 3;
        let mut total_value: i32 = 0;
        let mut group: usize = 0;
        while group < groups
            invariant
                g == lines_view(lines@),
                bags_fit(g),
                groups == lines@.len() / 3,
                group <= groups,
                total_value == group_sum(g, group as int),
                0 <= total_value,
            decreases groups - group,
        {
            let n = lines.len();
            assert(group * 3 + 2 < n) by (nonlinear_arith)
                requires
                    group < groups,
                    groups == n / 3,
            ;
            let index = group * 3;
            let bags = vec![chars_of(lines[index]), chars_of(lines[index + 1]), chars_of(lines[index + 2])];
            let ghost bs = bags@.map_values(|v: Vec<char>| v@);
            assert(g[index as int] == lines@[index as int]@);
            assert(g[index + 1] == lines@[index + 1]@);
            assert(g[index + 2] == lines@[index + 2]@);
            assert(bs =~= g.subrange(3 * group, 3 * (group + 1)));
            assert forall|b: int| 0 <= b < bags@.len() implies items_fit(#[trigger] bags@[b]@) by {
                assert(bags@[b]@ == g[index + b]);
            }
            let v = Day03::shared_value(&bags);
            proof {
                lemma_priority_bound(bs, TABLE_SIZE as int);
            }
            if total_value > i32::MAX - v as i32 {
                proof {
                    lemma_groups_grow(g, group + 1, groups as int);
                }
                return None;
            }
            total_value = total_value + v as i32;
            group = group + 1;
        }
        Some(total_value)
    }

    /// Solves both parts on the text of a puzzle input, with the time each
    /// took; `None` where an item is not below code 125 or a sum leaves `i32`.
    pub fn run(input: &str) -> (r: Option<(String, String, String, u128, u128)>)
        ensures
            r is Some <==> bags_fit(lines_spec(input@)) && compartment_sum(lines_spec(input@)) <= i32::MAX
                && group_sum(lines_spec(input@), (lines_spec(input@).len() / 3) as int) <= i32::MAX,
            r matches Some(t) ==> t.0@ == "Day_03"@ && t.1@ == decimal_of(compartment_sum(lines_spec(input@)))
                && t.2@ == decimal_of(group_sum(lines_spec(input@), (lines_spec(input@).len() / 3) as int)),
    {
        let lines = split_lines(input);
        let mut i: usize = 0;
        while i < lines.len()
            invariant
                lines_view(lines@) == lines_spec(input@),
                i <= lines.len(),
                forall|k: int| 0 <= k < i ==> items_fit(#[trigger] lines_view(lines@)[k]),
            decreases lines.len() - i,
        {
            let s = chars_of(lines[i]);
            assert(lines_view(lines@)[i as int] == s@);
            let mut j: usize = 0;
            while j < s.len()
                invariant
                    lines_view(lines@) == lines_spec(input@),
                    i < lines.len(),
                    lines_view(lines@)[i as int] == s@,
                    j <= s.len(),
                    forall|k: int| 0 <= k < j ==> (#[trigger] s@[k] as u32 as int) < TABLE_SIZE,
                decreases s.len() - j,
            {
                if s[j] as u32 >= TABLE_SIZE as u32 {
                    assert(!items_fit(s@));
                    assert(!items_fit(lines_view(lines@)[i as int]));
                    return None;
                }
                j = j + 1;
            }
            i = i + 1;
        }
        let start_1 = start_clock();
        let result_1 = Day03::part_01(&lines);
        let time_calculation_1 = elapsed_since(&start_1);
        let start_2 = start_clock();
        let result_2 = Day03::part_02(&lines);
        let time_calculation_2 = elapsed_since(&start_2);
        match (result_1, result_2) {
            (Some(a), Some(b)) => Some(
                (
                    "Day_03".to_owned(),
                    decimal_i128(a as i128),
                    decimal_i128(b as i128),
                    nanos_of(&time_calculation_1),
                    nanos_of(&time_calculation_2),
                ),
            ),
            _ => None,
        }
    }
}

pub proof fn lemma_priority_bound(bags: Seq<Seq<char>>, n: int)
    ensures
        0 <= shared_priority(bags, n) <= 52,
    decreases n,
{
    if n > 0 {
        lemma_priority_bound(bags, n - 1);
    }
}

/// Once some item code below `n` is shared, looking further changes nothing.
pub proof fn lemma_shared_stays(bags: Seq<Seq<char>>, n: int, m: int)
    requires
        1 <= n <= m,
        shared_priority_exists(bags, n),
    ensures
        shared_priority(bags, m) == shared_priority(bags, n),
        shared_priority_exists(bags, m),
    decreases m - n,
{
    if m > n {
        lemma_shared_stays(bags, n, m - 1);
    }
}

} // verus!
