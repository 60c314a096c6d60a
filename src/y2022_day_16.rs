//! Proboscidea volcanium: valves opened along a walk release pressure for the
//! minutes that remain; these are the measures the search for the best walk
//! uses.
use vstd::prelude::*;

verus! {

pub const TOTAL_MINUTES: i32 = 30;


/// A step of a walk: the valve opened, the minute it opens, its flow rate and
/// what it releases until the last minute.
pub type Step = (String, i32, i32, i32);

/// The best walk found so far.
pub struct OptimalResult {
    pub total_process: i32,
    pub path: Vec<Step>,
    pub travel_path: Vec<String>,
}

/// The sum of the flow rates of the valves.
pub open spec fn rate_sum(valves: Seq<(String, i32)>) -> int
    decreases valves.len(),
{
    if valves.len() == 0 {
        0
    } else {
        rate_sum(valves.drop_last()) + valves.last().1
    }
}

/// What a walk releases until the last minute.
pub open spec fn path_total(path: Seq<Step>) -> int
    decreases path.len(),
{
    if path.len() == 0 {
        0
    } else {
        path_total(path.drop_last()) + path.last().3
    }
}

/// What a walk has released by minute `m`.
pub open spec fn path_total_at(path: Seq<Step>, m: int) -> int
    decreases path.len(),
{
    if path.len() == 0 {
        0
    } else {
        path_total_at(path.drop_last(), m) + path.last().2 * (m - path.last().1)
    }
}

/// The most a walk could still release from minute `minutes` on: all it has
/// released so far, and every valve, open or not, flowing for the rest.
pub open spec fn best_possible(
    opened: Seq<(String, i32)>,
    unopened: Seq<(String, i32)>,
    path: Seq<Step>,
    minutes: int,
) -> int {
    path_total_at(path, minutes) + rate_sum(opened) * (TOTAL_MINUTES - minutes) + rate_sum(unopened) * (
    TOTAL_MINUTES - minutes)
}

pub open spec fn in_i128(v: int) -> bool {
    i128::MIN <= v <= i128::MAX
}

/// The sums and products that the bound on what a walk could release passes
/// through fit in `i128`.
pub open spec fn best_possible_fits(
    opened: Seq<(String, i32)>,
    unopened: Seq<(String, i32)>,
    path: Seq<Step>,
    minutes: int,
) -> bool {
    &&& in_i128(rate_sum(opened) * (TOTAL_MINUTES - minutes))
    &&& in_i128(rate_sum(unopened) * (TOTAL_MINUTES - minutes))
    &&& in_i128(path_total_at(path, minutes) + rate_sum(opened) * (TOTAL_MINUTES - minutes))
    &&& in_i128(best_possible(opened, unopened, path, minutes))
}

pub proof fn lemma_rate_sum_bound(valves: Seq<(String, i32)>)
    ensures
        -0x8000_0000 * valves.len() <= rate_sum(valves) <= 0x8000_0000 * valves.len(),
    decreases valves.len(),
{
    if valves.len() > 0 {
        lemma_rate_sum_bound(valves.drop_last());
    }
}

/// The sum of the flow rates of the valves.
pub fn calculate_releasing_pressure_from_valves(opened_valves: &Vec<(String, i32)>) -> (r: i128)
    ensures
        r == rate_sum(opened_valves@),
{
    let ghost vs = opened_valves@;
    let mut total_pressure: i128 = 0;
    let mut i: usize = 0;
    while i < opened_valves.len()
        invariant
            vs == opened_valves@,
            i <= opened_valves.len(),
            total_pressure == rate_sum(vs.take(i as int)),
            -0x8000_0000 * i <= total_pressure <= 0x8000_0000 * i,
        decreases opened_valves.len() - i,
    {
        assert(vs.take(i + 1).drop_last() =~= vs.take(i as int));
        total_pressure = total_pressure + opened_valves[i].1 as i128;
        i = i + 1;
    }
    assert(vs.take(opened_valves.len() as int) =~= vs);
    total_pressure
}

/// What a walk releases until the last minute.
pub fn calculate_release_pressure_from_path(path: &Vec<Step>) -> (r: i128)
    ensures
        r == path_total(path@),
{
    let ghost ps = path@;
    let mut total_released_pressure: i128 = 0;
    let mut i: usize = 0;
    while i < path.len()
        invariant
            ps == path@,
            i <= path.len(),
            total_released_pressure == path_total(ps.take(i as int)),
            -0x8000_0000 * i <= total_released_pressure <= 0x8000_0000 * i,
        decreases path.len() - i,
    {
        assert(ps.take(i + 1).drop_last() =~= ps.take(i as int));
        total_released_pressure = total_released_pressure + path[i].3 as i128;
        i = i + 1;
    }
    assert(ps.take(path.len() as int) =~= ps);
    total_released_pressure
}

/// What a walk has released by minute `current_minutes`.
pub fn calculate_release_pressure_from_path_at(path: &Vec<Step>, current_minutes: i32) -> (r: i128)
    ensures
        r == path_total_at(path@, current_minutes as int),
        -0x8000_0000_0000_0000 * path@.len() <= r <= 0x8000_0000_0000_0000 * path@.len(),
{
    let ghost ps = path@;
    let mut total_released_pressure: i128 = 0;
    let mut i: usize = 0;
    while i < path.len()
        invariant
            ps == path@,
            i <= path.len(),
            total_released_pressure == path_total_at(ps.take(i as int), current_minutes as int),
            -0x8000_0000_0000_0000 * i <= total_released_pressure <= 0x8000_0000_0000_0000 * i,
        decreases path.len() - i,
    {
        assert(ps.take(i + 1).drop_last() =~= ps.take(i as int));
        let (_, minutes, flow_rate, _) = path[i];
        let active_minutes = current_minutes as i128 - minutes as i128;
        assert(-0x8000_0000_0000_0000 <= (flow_rate as i128) * active_minutes <= 0x8000_0000_0000_0000) by (nonlinear_arith)
            requires
                i32::MIN <= flow_rate <= i32::MAX,
                -0x1_0000_0000 <= active_minutes <= 0x1_0000_0000,
        ;
        total_released_pressure = total_released_pressure + (flow_rate as i128) * active_minutes;
        i = i + 1;
    }
    assert(ps.take(path.len() as int) =~= ps);
    total_released_pressure
}

/// Whether a walk, from minute `minutes` on, could still release more than
/// the best one found.
pub fn validate_possible_result(
    optimal_result: &OptimalResult,
    opened_valves: &Vec<(String, i32)>,
    unopened_valves: &Vec<(String, i32)>,
    current_path: &Vec<Step>,
    minutes: i32,
) -> (r: bool)
    requires
        best_possible_fits(opened_valves@, unopened_valves@, current_path@, minutes as int),
    ensures
        r == (path_total(optimal_result.path@) < best_possible(
            opened_valves@,
            unopened_valves@,
            current_path@,
            minutes as int,
        )),
{
    let minute_left = TOTAL_MINUTES as i128 - minutes as i128;
    let opened_release_value = calculate_releasing_pressure_from_valves(opened_valves);
    let unopened_release_value = calculate_releasing_pressure_from_valves(unopened_valves);
    let so_far = calculate_release_pressure_from_path_at(current_path, minutes);
    let possible_value = so_far + opened_release_value * minute_left + unopened_release_value
        * minute_left;
    calculate_release_pressure_from_path(&optimal_result.path) < possible_value
}

} // verus!
