//! I was told there would be no math: wrapping paper and ribbon for boxes
//! given as `LxWxH`.
use crate::clock::{decimal_i128, decimal_of, elapsed_since, nanos_of, start_clock};
use crate::text::{chars_of, lines_spec, lines_view, parse_signed, signed_value, split_by, split_lines, split_spec};
use vstd::prelude::*;

verus! {

pub open spec fn min3(a: int, b: int, c: int) -> int {
    if a <= b && a <= c {
        a
    } else if b <= c {
        b
    } else {
        c
    }
}

pub open spec fn max3(a: int, b: int, c: int) -> int {
    if a >= b && a >= c {
        a
    } else if b >= c {
        b
    } else {
        c
    }
}

/// Twice the three side areas, and the smallest side once more.
pub open spec fn paper(w: int, h: int, l: int) -> int {
    2 * (w * h + h * l + l * w) + min3(w * h, h * l, l * w)
}

/// Twice the two smallest dimensions, and the volume for the bow.
pub open spec fn ribbon(w: int, h: int, l: int) -> int {
    2 * (w + h + l - max3(w, h, l)) + w * h * l
}

pub open spec fn number_of(w: Seq<char>) -> Option<int> {
    match signed_value(w) {
        Some(v) => if i32::MIN <= v <= i32::MAX {
            Some(v)
        } else {
            None
        },
        None => None,
    }
}

/// `LxWxH`: the first three pieces between `x`.
pub open spec fn box_of(line: Seq<char>) -> Option<(int, int, int)> {
    let p = split_spec(line, 'x');
    if p.len() >= 3 && number_of(p[0]) is Some && number_of(p[1]) is Some && number_of(p[2]) is Some {
        Some((number_of(p[0])->Some_0, number_of(p[1])->Some_0, number_of(p[2])->Some_0))
    } else {
        None
    }
}

pub open spec fn boxes_of(g: Seq<Seq<char>>) -> Option<Seq<(int, int, int)>> {
    if forall|i: int| 0 <= i < g.len() ==> (#[trigger] box_of(g[i])) is Some {
        Some(g.map_values(|l: Seq<char>| box_of(l)->Some_0))
    } else {
        None
    }
}

/// The sum over the boxes of `ribbon_too ? ribbon : paper`; `None` where a
/// partial sum leaves `i128`.
pub open spec fn order_total(bs: Seq<(int, int, int)>, ribbon_too: bool) -> Option<int>
    decreases bs.len(),
{
    if bs.len() == 0 {
        Some(0)
    } else {
        match order_total(bs.drop_last(), ribbon_too) {
            Some(t) => {
                let b = bs.last();
                let v = t + if ribbon_too {
                    ribbon(b.0, b.1, b.2)
                } else {
                    paper(b.0, b.1, b.2)
                };
                if i128::MIN <= v <= i128::MAX {
                    Some(v)
                } else {
                    None
                }
            },
            None => None,
        }
    }
}

/// Both totals of an input, where the lines are boxes and the totals fit.
pub open spec fn answers(g: Seq<Seq<char>>) -> Option<(int, int)> {
    match boxes_of(g) {
        Some(bs) => match (order_total(bs, false), order_total(bs, true)) {
            (Some(a), Some(b)) => Some((a, b)),
            _ => None,
        },
        None => None,
    }
}

pub proof fn lemma_products(w: int, h: int, l: int)
    requires
        i32::MIN <= w <= i32::MAX,
        i32::MIN <= h <= i32::MAX,
        i32::MIN <= l <= i32::MAX,
    ensures
        -0x4000_0000_0000_0000 <= w * h <= 0x4000_0000_0000_0000,
        -0x4000_0000_0000_0000 <= h * l <= 0x4000_0000_0000_0000,
        -0x4000_0000_0000_0000 <= l * w <= 0x4000_0000_0000_0000,
        -0x2000_0000_0000_0000_0000_0000 <= w * h * l <= 0x2000_0000_0000_0000_0000_0000,
{
    assert(-0x4000_0000_0000_0000 <= w * h <= 0x4000_0000_0000_0000) by (nonlinear_arith)
        requires
            i32::MIN <= w <= i32::MAX,
            i32::MIN <= h <= i32::MAX,
    ;
    assert(-0x4000_0000_0000_0000 <= h * l <= 0x4000_0000_0000_0000) by (nonlinear_arith)
        requires
            i32::MIN <= h <= i32::MAX,
            i32::MIN <= l <= i32::MAX,
    ;
    assert(-0x4000_0000_0000_0000 <= l * w <= 0x4000_0000_0000_0000) by (nonlinear_arith)
        requires
            i32::MIN <= l <= i32::MAX,
            i32::MIN <= w <= i32::MAX,
    ;
    assert(-0x2000_0000_0000_0000_0000_0000 <= (w * h) * l <= 0x2000_0000_0000_0000_0000_0000) by (nonlinear_arith)
        requires
            -0x4000_0000_0000_0000 <= w * h <= 0x4000_0000_0000_0000,
            i32::MIN <= l <= i32::MAX,
    ;
}

/// The wrapping paper a box needs.
pub fn surface_area(w: i32, h: i32, l: i32) -> (r: i128)
    ensures
        r == paper(w as int, h as int, l as int),
{
    proof {
        lemma_products(w as int, h as int, l as int);
    }
    let a = (w as i128) * (h as i128);
    let b = (h as i128) * (l as i128);
    let c = (l as i128) * (w as i128);
    let smallest = if a <= b && a <= c {
        a
    } else if b <= c {
        b
    } else {
        c
    };
    2 * (a + b + c) + smallest
}

/// The ribbon a box needs.
pub fn ribbon_length(w: i32, h: i32, l: i32) -> (r: i128)
    ensures
        r == ribbon(w as int, h as int, l as int),
{
    proof {
        lemma_products(w as int, h as int, l as int);
    }
    let (a, b, c) = (w as i128, h as i128, l as i128);
    let largest = if a >= b && a >= c {
        a
    } else if b >= c {
        b
    } else {
        c
    };
    2 * (a + b + c - largest) + a * b * c
}

fn box_exec(line: &str) -> (r: Option<(i32, i32, i32)>)
    ensures
        match r {
            Some(b) => box_of(line@) == Some((b.0 as int, b.1 as int, b.2 as int)),
            None => box_of(line@) is None,
        },
{
    let pieces = split_by(&chars_of(line), 'x');
    let ghost ps = pieces@.map_values(|w: Vec<char>| w@);
    if pieces.len() < 3 {
        return None;
    }
    assert(ps[0] == pieces@[0]@ && ps[1] == pieces@[1]@ && ps[2] == pieces@[2]@);
    let a = parse_signed(&pieces[0]);
    let b = parse_signed(&pieces[1]);
    let c = parse_signed(&pieces[2]);
    match (a, b, c) {
        (Some(x), Some(y), Some(z)) => {
            if x < i32::MIN as i128 || x > i32::MAX as i128 || y < i32::MIN as i128 || y > i32::MAX as i128
                || z < i32::MIN as i128 || z > i32::MAX as i128 {
                return None;
            }
            Some((x as i32, y as i32, z as i32))
        },
        _ => None,
    }
}

/// The boxes of the lines; `None` where a line is no box.
pub fn parsing(lines: &Vec<&str>) -> (r: Option<Vec<(i32, i32, i32)>>)
    ensures
        r is Some <==> boxes_of(lines_view(lines@)) is Some,
        r matches Some(v) ==> boxes_of(lines_view(lines@)) == Some(v@.map_values(|b: (i32, i32, i32)| (b.0 as int, b.1 as int, b.2 as int))),
{
    let ghost g = lines_view(lines@);
    let mut boxes: Vec<(i32, i32, i32)> = Vec::new();
    let mut i: usize = 0;
    while i < lines.len()
        invariant
            g == lines_view(lines@),
            i <= lines.len(),
            boxes@.len() == i,
            forall|k: int| 0 <= k < i ==> box_of(#[trigger] g[k]) == Some((boxes@[k].0 as int, boxes@[k].1 as int, boxes@[k].2 as int)),
        decreases lines.len() - i,
    {
        assert(g[i as int] == lines@[i as int]@);
        match box_exec(lines[i]) {
            Some(b) => {
                boxes.push(b);
            },
            None => {
                return None;
            },
        }
        i = i + 1;
    }
    assert(boxes@.map_values(|b: (i32, i32, i32)| (b.0 as int, b.1 as int, b.2 as int)) =~= g.map_values(|l: Seq<char>| box_of(l)->Some_0));
    Some(boxes)
}

pub struct Day02 {}

impl Day02 {
    fn total(lines: &Vec<&str>, ribbon_too: bool) -> (r: Option<i128>)
        ensures
            boxes_of(lines_view(lines@)) is None ==> r is None,
            boxes_of(lines_view(lines@)) matches Some(bs) ==> match r {
                Some(v) => order_total(bs, ribbon_too) == Some(v as int),
                None => order_total(bs, ribbon_too) is None,
            },
    {
        let boxes = match parsing(lines) {
            Some(b) => b,
            None => {
                return None;
            },
        };
        let ghost bs = boxes@.map_values(|b: (i32, i32, i32)| (b.0 as int, b.1 as int, b.2 as int));
        let mut total: i128 = 0;
        let mut i: usize = 0;
        while i < boxes.len()
            invariant
                bs == boxes@.map_values(|b: (i32, i32, i32)| (b.0 as int, b.1 as int, b.2 as int)),
                boxes_of(lines_view(lines@)) == Some(bs),
                i <= boxes.len(),
                order_total(bs.take(i as int), ribbon_too) == Some(total as int),
            decreases boxes.len() - i,
        {
            assert(bs.take(i + 1).drop_last() =~= bs.take(i as int));
            let (w, h, l) = boxes[i];
            let v = if ribbon_too {
                ribbon_length(w, h, l)
            } else {
                surface_area(w, h, l)
            };
            total = match total.checked_add(v) {
                Some(t) => t,
                None => {
                    proof {
                        lemma_total_stops(bs, ribbon_too, i as int + 1, bs.len() as int);
                        assert(bs.take(bs.len() as int) =~= bs);
                    }
                    return None;
                },
            };
            i = i + 1;
        }
        assert(bs.take(boxes.len() as int) =~= bs);
        Some(total)
    }

    /// The wrapping paper all boxes need.
    pub fn part_01(lines: &Vec<&str>) -> (r: Option<i128>)
        ensures
            boxes_of(lines_view(lines@)) is None ==> r is None,
            boxes_of(lines_view(lines@)) matches Some(bs) ==> match r {
                Some(v) => order_total(bs, false) == Some(v as int),
                None => order_total(bs, false) is None,
            },
    {
        Day02::total(lines, false)
    }

    /// The ribbon all boxes need.
    pub fn part_02(lines: &Vec<&str>) -> (r: Option<i128>)
        ensures
            boxes_of(lines_view(lines@)) is None ==> r is None,
            boxes_of(lines_view(lines@)) matches Some(bs) ==> match r {
                Some(v) => order_total(bs, true) == Some(v as int),
                None => order_total(bs, true) is None,
            },
    {
        Day02::total(lines, true)
    }

    /// Solves both parts on the text of a puzzle input, with the time each
    /// took; `None` where a line is no box or a total does not fit.
    pub fn run(input: &str) -> (r: Option<(String, String, String, u128, u128)>)
        ensures
            r is Some <==> answers(lines_spec(input@)) is Some,
            r matches Some(t) ==> t.0@ == "Day_02"@ && t.1@ == decimal_of(answers(lines_spec(input@))->Some_0.0)
                && t.2@ == decimal_of(answers(lines_spec(input@))->Some_0.1),
    {
        let lines = split_lines(input);
        let start_1 = start_clock();
        let result_1 = Day02::part_01(&lines);
        let time_calculation_1 = elapsed_since(&start_1);
        let start_2 = start_clock();
        let result_2 = Day02::part_02(&lines);
        let time_calculation_2 = elapsed_since(&start_2);
        match (result_1, result_2) {
            (Some(a), Some(b)) => Some(
                (
                    "Day_02".to_owned(),
                    decimal_i128(a),
                    decimal_i128(b),
                    nanos_of(&time_calculation_1),
                    nanos_of(&time_calculation_2),
                ),
            ),
            _ => None,
        }
    }
}

pub proof fn lemma_total_stops(bs: Seq<(int, int, int)>, ribbon_too: bool, i: int, j: int)
    requires
        1 <= i <= j <= bs.len(),
        order_total(bs.take(i), ribbon_too) is None,
    ensures
        order_total(bs.take(j), ribbon_too) is None,
    decreases j - i,
{
    if j > i {
        lemma_total_stops(bs, ribbon_too, i, j - 1);
        assert(bs.take(j).drop_last() =~= bs.take(j - 1));
    }
}

} // verus!
