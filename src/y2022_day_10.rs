//! Cathode-ray tube: a one-register CPU runs `addx` and `noop`, its signal is
//! sampled at given cycles, and its register moves a sprite drawn on a
//! 40-pixel-wide screen.
use crate::clock::{decimal_i128, decimal_of, elapsed_since, nanos_of, start_clock};
use crate::text::{string_of, chars_of, lines_spec, lines_view, parse_signed, signed_value, split_by, split_lines, split_spec};
use vstd::prelude::*;

verus! {

#[derive(Clone, Copy, PartialEq, Eq, Structural, Debug)]
pub enum Instructions {
    /// Adds the value to the register once the given number of cycles pass.
    ADDX(i32, usize),
    NOOP,
}

/// The CPU between instructions.
pub ghost struct Cpu {
    pub cycle: int,
    pub x: int,
    pub registered: Seq<int>,
}

pub open spec fn in_i32(v: int) -> bool {
    i32::MIN <= v <= i32::MAX
}

pub open spec fn is_registered(cycle: int) -> bool {
    cycle == 20 || cycle == 60 || cycle == 100 || cycle == 140 || cycle == 180 || cycle == 220
}

/// One cycle: the signal is sampled where the cycle is one of the sampled
/// ones; past cycle 220 nothing more is counted. `None` where a signal
/// leaves `i32`.
pub open spec fn tick(st: Cpu) -> Option<Cpu> {
    if st.cycle > 220 {
        Some(st)
    } else if is_registered(st.cycle) {
        if in_i32(st.x * st.cycle) {
            Some(Cpu { cycle: st.cycle + 1, registered: st.registered.push(st.x * st.cycle), ..st })
        } else {
            None
        }
    } else {
        Some(Cpu { cycle: st.cycle + 1, ..st })
    }
}

pub open spec fn ticks(st: Cpu, n: nat) -> Option<Cpu>
    decreases n,
{
    if n == 0 {
        Some(st)
    } else {
        match ticks(st, (n - 1) as nat) {
            Some(s) => tick(s),
            None => None,
        }
    }
}

pub open spec fn step(st: Cpu, ins: Instructions) -> Option<Cpu> {
    match ins {
        Instructions::ADDX(v, n) => match ticks(st, n as nat) {
            Some(s) => if in_i32(s.x + v) {
                Some(Cpu { x: s.x + v, ..s })
            } else {
                None
            },
            None => None,
        },
        Instructions::NOOP => tick(st),
    }
}

pub open spec fn start_cpu() -> Cpu {
    Cpu { cycle: 1, x: 1, registered: Seq::empty() }
}

/// The CPU after the first `k` instructions; the run stops once past cycle 220.
pub open spec fn run_upto(ins: Seq<Instructions>, k: nat) -> Option<Cpu>
    decreases k,
{
    if k == 0 {
        Some(start_cpu())
    } else {
        match run_upto(ins, (k - 1) as nat) {
            Some(p) => if p.cycle > 220 {
                Some(p)
            } else {
                step(p, ins[k - 1])
            },
            None => None,
        }
    }
}

pub proof fn lemma_run_stops(ins: Seq<Instructions>, i: nat, j: nat)
    requires
        i <= j,
        run_upto(ins, i) is None,
    ensures
        run_upto(ins, j) is None,
    decreases j - i,
{
    if j > i {
        lemma_run_stops(ins, i, (j - 1) as nat);
    }
}

pub proof fn lemma_run_stays(ins: Seq<Instructions>, i: nat, j: nat)
    requires
        i <= j,
        run_upto(ins, i) matches Some(p) && p.cycle > 220,
    ensures
        run_upto(ins, j) == run_upto(ins, i),
    decreases j - i,
{
    if j > i {
        lemma_run_stays(ins, i, (j - 1) as nat);
    }
}

pub fn is_cycle_registered(cycle: usize) -> (r: bool)
    ensures
        r == is_registered(cycle as int),
{
    cycle == 20 || cycle == 60 || cycle == 100 || cycle == 140 || cycle == 180 || cycle == 220
}

/// Runs the instructions; the final register and the signals sampled at
/// cycles 20, 60, ..., 220. `None` where the register or a signal leaves `i32`.
pub fn process(instructions: &Vec<Instructions>) -> (r: Option<(i32, Vec<i32>)>)
    ensures
        r is Some <==> run_upto(instructions@, instructions@.len() as nat) is Some,
        r matches Some((x, regs)) ==> run_upto(instructions@, instructions@.len() as nat) matches Some(c)
            && c.x == x as int && c.registered == regs@.map_values(|v: i32| v as int),
{
    let ghost ins = instructions@;
    let mut registered_values: Vec<i32> = Vec::new();
    let mut cycle: usize = 1;
    let mut cpu_value: i32 = 1;
    let mut i: usize = 0;
    assert(registered_values@.map_values(|v: i32| v as int) =~= Seq::<int>::empty());
    while i < instructions.len()
        invariant
            ins == instructions@,
            i <= instructions.len(),
            cycle <= 220,
            run_upto(ins, i as nat) == Some(
                Cpu {
                    cycle: cycle as int,
                    x: cpu_value as int,
                    registered: registered_values@.map_values(|v: i32| v as int),
                },
            ),
        decreases instructions.len() - i,
    {
        let ghost before = Cpu {
            cycle: cycle as int,
            x: cpu_value as int,
            registered: registered_values@.map_values(|v: i32| v as int),
        };
        let (ticks_left, value) = match instructions[i] {
            Instructions::ADDX(value, total_cycles) => (total_cycles, Some(value)),
            Instructions::NOOP => (1, None),
        };
        let mut t: usize = 0;
        while t < ticks_left
            invariant
                ins == instructions@,
                i < ins.len(),
                before.cycle <= 220,
                run_upto(ins, i as nat) == Some(before),
                match ins[i as int] {
                    Instructions::ADDX(v, n) => ticks_left == n && value == Some(v),
                    Instructions::NOOP => ticks_left == 1 && value is None,
                },
                t <= ticks_left,
                cycle <= 221,
                ticks(before, t as nat) == Some(
                    Cpu {
                        cycle: cycle as int,
                        x: cpu_value as int,
                        registered: registered_values@.map_values(|v: i32| v as int),
                    },
                ),
            decreases ticks_left - t,
        {
            if cycle <= 220 {
                if is_cycle_registered(cycle) {
                    assert(-0x8000_0000 * 221 <= (cpu_value as i64) * (cycle as i64) <= 0x7fff_ffff * 221) by (nonlinear_arith)
                        requires
                            i32::MIN <= cpu_value <= i32::MAX,
                            0 <= cycle <= 221,
                    ;
                    let signal = (cpu_value as i64) * (cycle as i64);
                    if signal < i32::MIN as i64 || signal > i32::MAX as i64 {
                        proof {
                            lemma_ticks_stop(before, (t + 1) as nat, ticks_left as nat);
                            assert(run_upto(ins, (i + 1) as nat) is None);
                            lemma_run_stops(ins, (i + 1) as nat, ins.len() as nat);
                        }
                        return None;
                    }
                    let ghost prev = registered_values@.map_values(|v: i32| v as int);
                    registered_values.push(signal as i32);
                    assert(registered_values@.map_values(|v: i32| v as int) =~= prev.push(
                        cpu_value as int * cycle as int,
                    ));
                }
                cycle = cycle + 1;
            }
            t = t + 1;
        }
        match value {
            Some(v) => {
                if (cpu_value as i64) + (v as i64) < i32::MIN as i64 || (cpu_value as i64) + (
                v as i64) > i32::MAX as i64 {
                    proof {
                        assert(run_upto(ins, (i + 1) as nat) is None);
                        lemma_run_stops(ins, (i + 1) as nat, ins.len() as nat);
                    }
                    return None;
                }
                cpu_value = cpu_value + v;
            },
            None => {},
        }
        i = i + 1;
        if cycle > 220 {
            proof {
                lemma_run_stays(ins, i as nat, ins.len() as nat);
            }
            return Some((cpu_value, registered_values));
        }
    }
    Some((cpu_value, registered_values))
}

pub proof fn lemma_ticks_stop(st: Cpu, i: nat, j: nat)
    requires
        i <= j,
        ticks(st, i) is None,
    ensures
        ticks(st, j) is None,
    decreases j - i,
{
    if j > i {
        lemma_ticks_stop(st, i, (j - 1) as nat);
    }
}

/// The screen being drawn between instructions.
pub ghost struct Screen {
    pub cycle: int,
    pub sprite: int,
    pub canvas: Seq<char>,
}

/// The pixel drawn at a cycle: lit where the sprite's three pixels cover the
/// column being drawn.
pub open spec fn pixel(sprite: int, cycle: int) -> char {
    let column = (cycle - 1) % 40;
    if column >= sprite && column < sprite + 3 {
        '#'
    } else {
        '.'
    }
}

/// One cycle of drawing: a pixel, and a new line once a row of 40 is full.
pub open spec fn draw(st: Screen) -> Option<Screen> {
    if st.cycle + 1 > i32::MAX {
        None
    } else {
        let c = st.cycle + 1;
        let canvas = st.canvas.push(pixel(st.sprite, st.cycle));
        Some(
            Screen {
                cycle: c,
                canvas: if c > 40 && c % 40 == 1 {
                    canvas.push('\n')
                } else {
                    canvas
                },
                ..st
            },
        )
    }
}

pub open spec fn draws(st: Screen, n: nat) -> Option<Screen>
    decreases n,
{
    if n == 0 {
        Some(st)
    } else {
        match draws(st, (n - 1) as nat) {
            Some(s) => draw(s),
            None => None,
        }
    }
}

pub open spec fn render_step(st: Screen, ins: Instructions) -> Option<Screen> {
    match ins {
        Instructions::ADDX(v, n) => match draws(st, n as nat) {
            Some(s) => if in_i32(s.sprite + v) {
                Some(Screen { sprite: s.sprite + v, ..s })
            } else {
                None
            },
            None => None,
        },
        Instructions::NOOP => draw(st),
    }
}

/// The screen after the first `k` instructions.
pub open spec fn render_upto(ins: Seq<Instructions>, k: nat) -> Option<Screen>
    decreases k,
{
    if k == 0 {
        Some(Screen { cycle: 1, sprite: 0, canvas: Seq::empty() })
    } else {
        match render_upto(ins, (k - 1) as nat) {
            Some(p) => render_step(p, ins[k - 1]),
            None => None,
        }
    }
}

pub proof fn lemma_render_stops(ins: Seq<Instructions>, i: nat, j: nat)
    requires
        i <= j,
        render_upto(ins, i) is None,
    ensures
        render_upto(ins, j) is None,
    decreases j - i,
{
    if j > i {
        lemma_render_stops(ins, i, (j - 1) as nat);
    }
}

pub proof fn lemma_draws_stop(st: Screen, i: nat, j: nat)
    requires
        i <= j,
        draws(st, i) is None,
    ensures
        draws(st, j) is None,
    decreases j - i,
{
    if j > i {
        lemma_draws_stop(st, i, (j - 1) as nat);
    }
}

pub fn get_render_value(sprite_position: i32, cycle: i32) -> (r: char)
    requires
        cycle >= 1,
    ensures
        r == pixel(sprite_position as int, cycle as int),
{
    let column = (cycle - 1) % 40;
    if column as i64 >= sprite_position as i64 && (column as i64) < sprite_position as i64 + 3 {
        '#'
    } else {
        '.'
    }
}

/// Starts a new line where `cycle` begins a row after the first.
pub fn add_new_line_on_canvas(canvas: &mut Vec<char>, cycle: i32)
    ensures
        final(canvas)@ == if cycle > 40 && cycle % 40 == 1 {
            old(canvas)@.push('\n')
        } else {
            old(canvas)@
        },
{
    if cycle > 40 && cycle % 40 == 1 {
        canvas.push('\n');
    }
}

pub fn increase_cycle(canvas: &mut Vec<char>, cycle: &mut i32)
    requires
        *old(cycle) < i32::MAX,
    ensures
        *final(cycle) == *old(cycle) + 1,
        final(canvas)@ == if *final(cycle) > 40 && *final(cycle) % 40 == 1 {
            old(canvas)@.push('\n')
        } else {
            old(canvas)@
        },
{
    *cycle = *cycle + 1;
    add_new_line_on_canvas(canvas, *cycle);
}

/// Draws the screen as the instructions move the sprite; `None` where the
/// cycle count or the sprite leaves `i32`.
pub fn rendering(instructions: &Vec<Instructions>) -> (r: Option<String>)
    ensures
        r is Some <==> render_upto(instructions@, instructions@.len() as nat) is Some,
        r matches Some(text) ==> render_upto(instructions@, instructions@.len() as nat) matches Some(sc)
            && text@ == sc.canvas,
{
    let ghost ins = instructions@;
    let mut sprite_position: i32 = 0;
    let mut cycle: i32 = 1;
    let mut canvas: Vec<char> = Vec::new();
    let mut i: usize = 0;
    while i < instructions.len()
        invariant
            ins == instructions@,
            i <= instructions.len(),
            cycle >= 1,
            render_upto(ins, i as nat) == Some(
                Screen { cycle: cycle as int, sprite: sprite_position as int, canvas: canvas@ },
            ),
        decreases instructions.len() - i,
    {
        let ghost before = Screen {
            cycle: cycle as int,
            sprite: sprite_position as int,
            canvas: canvas@,
        };
        let (count, value) = match instructions[i] {
            Instructions::ADDX(value, total_cycle) => (total_cycle, Some(value)),
            Instructions::NOOP => (1, None),
        };
        let mut t: usize = 0;
        while t < count
            invariant
                ins == instructions@,
                i < ins.len(),
                render_upto(ins, i as nat) == Some(before),
                match ins[i as int] {
                    Instructions::ADDX(v, n) => count == n && value == Some(v),
                    Instructions::NOOP => count == 1 && value is None,
                },
                t <= count,
                cycle >= 1,
                sprite_position as int == before.sprite,
                draws(before, t as nat) == Some(
                    Screen { cycle: cycle as int, sprite: sprite_position as int, canvas: canvas@ },
                ),
            decreases count - t,
        {
            if cycle == i32::MAX {
                proof {
                    lemma_draws_stop(before, (t + 1) as nat, count as nat);
                    assert(render_upto(ins, (i + 1) as nat) is None);
                    lemma_render_stops(ins, (i + 1) as nat, ins.len() as nat);
                }
                return None;
            }
            let render_value = get_render_value(sprite_position, cycle);
            canvas.push(render_value);
            increase_cycle(&mut canvas, &mut cycle);
            t = t + 1;
        }
        match value {
            Some(v) => {
                if (sprite_position as i64) + (v as i64) < i32::MIN as i64 || (sprite_position as i64)
                    + (v as i64) > i32::MAX as i64 {
                    proof {
                        assert(render_upto(ins, (i + 1) as nat) is None);
                        lemma_render_stops(ins, (i + 1) as nat, ins.len() as nat);
                    }
                    return None;
                }
                sprite_position = sprite_position + v;
            },
            None => {},
        }
        i = i + 1;
    }
    Some(string_of(&canvas))
}

/// `addx <n>` or `noop`; `None` for any other line.
pub open spec fn instruction_of(line: Seq<char>) -> Option<Instructions> {
    let w = split_spec(line, ' ');
    if w[0] == seq!['a', 'd', 'd', 'x'] {
        if w.len() >= 2 {
            match signed_value(w[1]) {
                Some(v) => if in_i32(v) {
                    Some(Instructions::ADDX(v as i32, 2))
                } else {
                    None
                },
                None => None,
            }
        } else {
            None
        }
    } else if w[0] == seq!['n', 'o', 'o', 'p'] {
        Some(Instructions::NOOP)
    } else {
        None
    }
}

/// The instructions of the lines; `None` where a line is no instruction.
pub fn parsing_input(lines: &Vec<&str>) -> (r: Option<Vec<Instructions>>)
    ensures
        r is Some <==> forall|i: int| 0 <= i < lines@.len() ==> (#[trigger] instruction_of(lines@[i]@)) is Some,
        r matches Some(v) ==> v@.len() == lines@.len() && forall|i: int| 0 <= i < lines@.len()
            ==> instruction_of(lines@[i]@) == Some(#[trigger] v@[i]),
{
    let mut result: Vec<Instructions> = Vec::new();
    let mut i: usize = 0;
    while i < lines.len()
        invariant
            i <= lines.len(),
            result@.len() == i,
            forall|j: int| 0 <= j < i ==> instruction_of(lines@[j]@) == Some(#[trigger] result@[j]),
        decreases lines.len() - i,
    {
        let s = chars_of(lines[i]);
        let words = split_by(&s, ' ');
        proof {
            crate::text::lemma_split_nonempty(s@, ' ');
        }
        let ghost ws = words@.map_values(|w: Vec<char>| w@);
        let ghost li = lines@[i as int]@;
        assert(s@ == li);
        assert(ws == split_spec(li, ' '));
        assert(ws[0] == words@[0]@);
        let w0 = &words[0];
        if w0.len() == 4 && w0[0] == 'a' && w0[1] == 'd' && w0[2] == 'd' && w0[3] == 'x' {
            assert(w0@ =~= seq!['a', 'd', 'd', 'x']);
            if words.len() < 2 {
                assert(instruction_of(li) is None);
                return None;
            }
            assert(ws[1] == words@[1]@);
            match parse_signed(&words[1]) {
                Some(v) => {
                    if v < i32::MIN as i128 || v > i32::MAX as i128 {
                        assert(instruction_of(li) is None);
                        return None;
                    }
                    result.push(Instructions::ADDX(v as i32, 2));
                },
                None => {
                    assert(instruction_of(li) is None);
                    return None;
                },
            }
        } else if w0.len() == 4 && w0[0] == 'n' && w0[1] == 'o' && w0[2] == 'o' && w0[3] == 'p' {
            assert(w0@ =~= seq!['n', 'o', 'o', 'p']);
            assert(w0@ != seq!['a', 'd', 'd', 'x']);
            result.push(Instructions::NOOP);
        } else {
            proof {
                if w0@ == seq!['a', 'd', 'd', 'x'] {
                    assert(w0@[0] == 'a' && w0@[1] == 'd' && w0@[2] == 'd' && w0@[3] == 'x');
                }
                if w0@ == seq!['n', 'o', 'o', 'p'] {
                    assert(w0@[0] == 'n' && w0@[1] == 'o' && w0@[2] == 'o' && w0@[3] == 'p');
                }
            }
            assert(instruction_of(li) is None);
            return None;
        }
        i = i + 1;
    }
    assert forall|j: int| 0 <= j < lines@.len() implies (#[trigger] instruction_of(lines@[j]@)) is Some by {
        assert(instruction_of(lines@[j]@) == Some(result@[j]));
    }
    Some(result)
}

pub open spec fn program_of(g: Seq<Seq<char>>) -> Option<Seq<Instructions>> {
    if forall|i: int| 0 <= i < g.len() ==> (#[trigger] instruction_of(g[i])) is Some {
        Some(g.map_values(|l: Seq<char>| instruction_of(l)->Some_0))
    } else {
        None
    }
}

pub open spec fn seq_sum(s: Seq<int>) -> int
    decreases s.len(),
{
    if s.len() == 0 {
        0
    } else {
        seq_sum(s.drop_last()) + s.last()
    }
}

/// The sum of the sampled signals.
pub open spec fn signal_sum(g: Seq<Seq<char>>) -> Option<int> {
    match program_of(g) {
        Some(ins) => match run_upto(ins, ins.len() as nat) {
            Some(c) => if in_i32(seq_sum(c.registered)) {
                Some(seq_sum(c.registered))
            } else {
                None
            },
            None => None,
        },
        None => None,
    }
}

/// The screen the program draws.
pub open spec fn screen_of(g: Seq<Seq<char>>) -> Option<Seq<char>> {
    match program_of(g) {
        Some(ins) => match render_upto(ins, ins.len() as nat) {
            Some(sc) => Some(sc.canvas),
            None => None,
        },
        None => None,
    }
}

fn program_exec(lines: &Vec<&str>) -> (r: Option<Vec<Instructions>>)
    ensures
        r is Some <==> program_of(lines_view(lines@)) is Some,
        r matches Some(v) ==> program_of(lines_view(lines@)) == Some(v@),
{
    let ghost g = lines_view(lines@);
    let r = parsing_input(lines);
    proof {
        assert forall|i: int| 0 <= i < g.len() implies #[trigger] g[i] == lines@[i]@ by {}
        if r is Some {
            assert(r->Some_0@ =~= g.map_values(|l: Seq<char>| instruction_of(l)->Some_0));
        } else {
            let i = choose|i: int| 0 <= i < lines@.len() && !(#[trigger] instruction_of(lines@[i]@) is Some);
            assert(g[i] == lines@[i]@);
        }
    }
    r
}

pub struct Day10 {}

impl Day10 {
    /// Solves both parts on the text of a puzzle input, with the time each
    /// took: the sum of the signals, and the screen; `None` where either has
    /// no answer.
    pub fn run(input: &str) -> (r: Option<(String, String, String, u128, u128)>)
        ensures
            r is Some <==> signal_sum(lines_spec(input@)) is Some && screen_of(lines_spec(input@)) is Some,
            r matches Some(t) ==> t.0@ == "Day_10"@ && t.1@ == decimal_of(signal_sum(lines_spec(input@))->Some_0)
                && t.2@ == screen_of(lines_spec(input@))->Some_0,
    {
        let lines = split_lines(input);
        let start_1 = start_clock();
        let result_1 = Day10::part_01(&lines);
        let time_calculation_1 = elapsed_since(&start_1);
        let start_2 = start_clock();
        let result_2 = Day10::part_02(&lines);
        let time_calculation_2 = elapsed_since(&start_2);
        match (result_1, result_2) {
            (Some(a), Some(b)) => Some(
                (
                    "Day_10".to_owned(),
                    decimal_i128(a as i128),
                    b,
                    nanos_of(&time_calculation_1),
                    nanos_of(&time_calculation_2),
                ),
            ),
            _ => None,
        }
    }

    /// The sum of the signals sampled at cycles 20, 60, ..., 220.
    pub fn part_01(lines: &Vec<&str>) -> (r: Option<i32>)
        ensures
            match r {
                Some(v) => signal_sum(lines_view(lines@)) == Some(v as int),
                None => signal_sum(lines_view(lines@)) is None,
            },
    {
        let instructions = match program_exec(lines) {
            Some(v) => v,
            None => {
                return None;
            },
        };
        let (_, registered_values) = match process(&instructions) {
            Some(p) => p,
            None => {
                return None;
            },
        };
        let ghost regs = registered_values@.map_values(|v: i32| v as int);
        let mut total: i128 = 0;
        let mut i: usize = 0;
        while i < registered_values.len()
            invariant
                regs == registered_values@.map_values(|v: i32| v as int),
                i <= registered_values.len(),
                total == seq_sum(regs.take(i as int)),
                -0x8000_0000 * i <= total <= 0x7fff_ffff * i,
            decreases registered_values.len() - i,
        {
            assert(regs.take(i + 1).drop_last() =~= regs.take(i as int));
            total = total + registered_values[i] as i128;
            i = i + 1;
        }
        assert(regs.take(registered_values.len() as int) =~= regs);
        if total < i32::MIN as i128 || total > i32::MAX as i128 {
            return None;
        }
        Some(total as i32)
    }

    /// The screen the program draws.
    pub fn part_02(lines: &Vec<&str>) -> (r: Option<String>)
        ensures
            r is Some <==> screen_of(lines_view(lines@)) is Some,
            r matches Some(text) ==> screen_of(lines_view(lines@)) == Some(text@),
    {
        let instructions = match program_exec(lines) {
            Some(v) => v,
            None => {
                return None;
            },
        };
        rendering(&instructions)
    }
}

} // verus!
