//! Haunted wasteland: a walk through a network of named nodes, turning left
//! or right as a repeating list of commands says, until a node ending in `Z`.
use crate::clock::{decimal_of, decimal_u128, elapsed_since, nanos_of, start_clock};
use crate::num_bridge::{gcd, gcd_u128, lcm, lcm_u128};
use crate::text::{
    chars_of, copy_chars, find_first, first_of, has_char, head_upto, lines_spec, lines_view,
    remove_char, same_chars, split_by, split_lines, split_spec, tail_from, without,
};
use vstd::prelude::*;

verus! {

pub const LEFT: i32 = -1;

pub const RIGHT: i32 = -3;

/// A node: its name and the names to its left and right.
pub type Node = (Vec<char>, Vec<char>, Vec<char>);

pub open spec fn nodes_view(v: Seq<Node>) -> Seq<(Seq<char>, Seq<char>, Seq<char>)> {
    v.map_values(|n: Node| (n.0@, n.1@, n.2@))
}

pub open spec fn command_of(c: char) -> i32 {
    if c == 'L' {
        LEFT
    } else if c == 'R' {
        RIGHT
    } else {
        0
    }
}

/// `AAA = (BBB, CCC)`: the name before `=`, and the two names in the
/// parentheses; spaces are ignored.
pub open spec fn node_line(s: Seq<char>) -> Option<(Seq<char>, Seq<char>, Seq<char>)> {
    if has_char(s, '=') {
        let p = first_of(s, '=');
        let key = without(s.take(p), ' ');
        let rest = without(without(without(s.skip(p + 1), '('), ')'), ' ');
        let parts = split_spec(rest, ',');
        if parts.len() >= 2 {
            Some((key, parts[0], parts[1]))
        } else {
            None
        }
    } else {
        None
    }
}

/// The index of the node named `key`; the last one where several are.
pub open spec fn lookup_index(ns: Seq<(Seq<char>, Seq<char>, Seq<char>)>, key: Seq<char>) -> int
    decreases ns.len(),
{
    if ns.len() == 0 {
        -1
    } else if ns.last().0 == key {
        ns.len() - 1
    } else {
        lookup_index(ns.drop_last(), key)
    }
}

/// Where the walk from `start` stands after `k` moves; `None` once it meets a
/// missing node or a command that is neither left nor right.
pub open spec fn position(
    ns: Seq<(Seq<char>, Seq<char>, Seq<char>)>,
    cmds: Seq<i32>,
    start: Seq<char>,
    k: nat,
) -> Option<Seq<char>>
    decreases k,
{
    if k == 0 {
        Some(start)
    } else {
        match position(ns, cmds, start, (k - 1) as nat) {
            Some(n) => {
                let idx = lookup_index(ns, n);
                if idx < 0 || cmds.len() == 0 {
                    None
                } else {
                    let c = cmds[(k - 1) % cmds.len() as int];
                    if c == LEFT {
                        Some(ns[idx].1)
                    } else if c == RIGHT {
                        Some(ns[idx].2)
                    } else {
                        None
                    }
                }
            },
            None => None,
        }
    }
}

pub open spec fn ends_with(name: Seq<char>, c: char) -> bool {
    name.len() > 0 && name.last() == c
}

/// The walk stands on a node ending in `Z` after `k` moves.
pub open spec fn reached(
    ns: Seq<(Seq<char>, Seq<char>, Seq<char>)>,
    cmds: Seq<i32>,
    start: Seq<char>,
    k: nat,
) -> bool {
    position(ns, cmds, start, k) matches Some(n) && ends_with(n, 'Z')
}

/// The number of moves the walk takes to a node ending in `Z`, looking no
/// further than `bound` moves.
pub open spec fn steps_within(
    ns: Seq<(Seq<char>, Seq<char>, Seq<char>)>,
    cmds: Seq<i32>,
    start: Seq<char>,
    bound: nat,
    v: nat,
) -> bool {
    &&& 1 <= v <= bound
    &&& reached(ns, cmds, start, v)
    &&& forall|j: nat| 1 <= j < v ==> !#[trigger] reached(ns, cmds, start, j)
}

pub open spec fn never_within(
    ns: Seq<(Seq<char>, Seq<char>, Seq<char>)>,
    cmds: Seq<i32>,
    start: Seq<char>,
    bound: nat,
) -> bool {
    forall|j: nat| 1 <= j <= bound ==> !#[trigger] reached(ns, cmds, start, j)
}

pub proof fn lemma_lookup_suffix(ns: Seq<(Seq<char>, Seq<char>, Seq<char>)>, key: Seq<char>, i: int)
    requires
        0 <= i <= ns.len(),
        forall|j: int| i <= j < ns.len() ==> (#[trigger] ns[j]).0 != key,
    ensures
        lookup_index(ns, key) == lookup_index(ns.take(i), key),
    decreases ns.len() - i,
{
    if i < ns.len() {
        lemma_lookup_suffix(ns.drop_last(), key, i);
        assert(ns.drop_last().take(i) =~= ns.take(i));
    } else {
        assert(ns.take(i) =~= ns);
    }
}

pub proof fn lemma_lookup_range(ns: Seq<(Seq<char>, Seq<char>, Seq<char>)>, key: Seq<char>)
    ensures
        -1 <= lookup_index(ns, key) < ns.len(),
        lookup_index(ns, key) >= 0 ==> ns[lookup_index(ns, key)].0 == key,
    decreases ns.len(),
{
    if ns.len() > 0 {
        lemma_lookup_range(ns.drop_last(), key);
    }
}

/// The index of the node named `key`, the last where several are.
pub fn find_node(references: &Vec<Node>, key: &Vec<char>) -> (r: Option<usize>)
    ensures
        r is None <==> lookup_index(nodes_view(references@), key@) < 0,
        r matches Some(i) ==> i as int == lookup_index(nodes_view(references@), key@),
{
    let ghost ns = nodes_view(references@);
    let mut i: usize = references.len();
    while i > 0
        invariant
            ns == nodes_view(references@),
            i <= references.len(),
            forall|j: int| i <= j < ns.len() ==> (#[trigger] ns[j]).0 != key@,
        decreases i,
    {
        let j = i - 1;
        if same_chars(&references[j].0, key) {
            proof {
                lemma_lookup_suffix(ns, key@, i as int);
                assert(ns.take(i as int).last() == ns[j as int]);
            }
            return Some(j);
        }
        i = j;
    }
    proof {
        lemma_lookup_suffix(ns, key@, 0);
    }
    None
}

/// `L` is left, `R` right, anything else 0.
pub fn parse_commands(input: &str) -> (r: Vec<i32>)
    ensures
        r@ == input@.map_values(|c: char| command_of(c)),
{
    let s = chars_of(input);
    let mut r: Vec<i32> = Vec::new();
    let mut i: usize = 0;
    while i < s.len()
        invariant
            s@ == input@,
            i <= s.len(),
            r@ == input@.take(i as int).map_values(|c: char| command_of(c)),
        decreases s.len() - i,
    {
        let c = s[i];
        let v = if c == 'L' {
            LEFT
        } else if c == 'R' {
            RIGHT
        } else {
            0
        };
        r.push(v);
        i = i + 1;
        assert(r@ =~= input@.take(i as int).map_values(|c: char| command_of(c)));
    }
    assert(input@.take(s.len() as int) =~= input@);
    r
}

fn parse_node(line: &str) -> (r: Option<Node>)
    ensures
        r is Some <==> node_line(line@) is Some,
        r matches Some(n) ==> node_line(line@) == Some((n.0@, n.1@, n.2@)),
{
    let s = chars_of(line);
    let p = match find_first(&s, '=') {
        Some(p) => p,
        None => {
            return None;
        },
    };
    assert(p < s.len());
    let key = remove_char(&head_upto(&s, p), ' ');
    let rest = remove_char(&remove_char(&remove_char(&tail_from(&s, p + 1), '('), ')'), ' ');
    let mut parts = split_by(&rest, ',');
    if parts.len() < 2 {
        return None;
    }
    let ghost ps = parts@.map_values(|w: Vec<char>| w@);
    let right = copy_chars(&parts[1]);
    let left = copy_chars(&parts[0]);
    assert(ps[0] == left@ && ps[1] == right@);
    Some((key, left, right))
}

/// The nodes of the lines; `None` where a line is no node.
pub fn parse_references(input: &Vec<&str>) -> (r: Option<Vec<Node>>)
    ensures
        r is Some <==> forall|i: int| 0 <= i < input@.len() ==> (#[trigger] node_line(input@[i]@)) is Some,
        r matches Some(v) ==> v@.len() == input@.len() && forall|i: int| 0 <= i < input@.len()
            ==> node_line(input@[i]@) == Some(#[trigger] nodes_view(v@)[i]),
{
    let mut r: Vec<Node> = Vec::new();
    let mut i: usize = 0;
    while i < input.len()
        invariant
            i <= input.len(),
            r@.len() == i,
            forall|j: int| 0 <= j < i ==> node_line(input@[j]@) == Some(#[trigger] nodes_view(r@)[j]),
        decreases input.len() - i,
    {
        match parse_node(input[i]) {
            Some(n) => {
                let ghost prev = nodes_view(r@);
                r.push(n);
                assert(nodes_view(r@) =~= prev.push((n.0@, n.1@, n.2@)));
            },
            None => {
                return None;
            },
        }
        i = i + 1;
    }
    proof {
        assert forall|j: int| 0 <= j < input@.len() implies (#[trigger] node_line(input@[j]@)) is Some by {
            assert(node_line(input@[j]@) == Some(nodes_view(r@)[j]));
        }
    }
    Some(r)
}

/// The input: commands on the first line, nodes from the third on.
pub open spec fn input_nodes(lines: Seq<Seq<char>>) -> Seq<Seq<char>> {
    if lines.len() >= 2 {
        lines.skip(2)
    } else {
        Seq::empty()
    }
}

pub open spec fn nodes_of(lines: Seq<Seq<char>>) -> Option<Seq<(Seq<char>, Seq<char>, Seq<char>)>> {
    let ls = input_nodes(lines);
    if lines.len() >= 1 && forall|i: int| 0 <= i < ls.len() ==> (#[trigger] node_line(ls[i])) is Some {
        Some(ls.map_values(|l: Seq<char>| node_line(l)->Some_0))
    } else {
        None
    }
}

pub open spec fn commands_of(lines: Seq<Seq<char>>) -> Seq<i32> {
    lines[0].map_values(|c: char| command_of(c))
}

/// The commands and the nodes of an input.
pub fn parse_input(input: &Vec<&str>) -> (r: Option<(Vec<i32>, Vec<Node>)>)
    ensures
        r is Some <==> nodes_of(lines_view(input@)) is Some,
        r matches Some((c, n)) ==> c@ == commands_of(lines_view(input@)) && nodes_of(
            lines_view(input@),
        ) == Some(nodes_view(n@)),
{
    let ghost g = lines_view(input@);
    if input.len() == 0 {
        return None;
    }
    let mut references: Vec<&str> = Vec::new();
    let mut i: usize = 2;
    while i < input.len()
        invariant
            2 <= i,
            i <= input.len() || input.len() < 2,
            input.len() >= 2 ==> lines_view(references@) == g.subrange(2, i as int),
            input.len() < 2 ==> references@.len() == 0,
            g == lines_view(input@),
        decreases input.len() - i,
    {
        let ghost prev = lines_view(references@);
        references.push(input[i]);
        assert(g[i as int] == input@[i as int]@);
        assert(lines_view(references@) =~= prev.push(input@[i as int]@));
        i = i + 1;
        assert(lines_view(references@) =~= g.subrange(2, i as int));
    }
    let ghost ls = input_nodes(g);
    assert(lines_view(references@) =~= ls);
    let commands = parse_commands(input[0]);
    assert(g[0] == input@[0]@);
    match parse_references(&references) {
        Some(nodes) => {
            assert forall|j: int| 0 <= j < ls.len() implies (#[trigger] node_line(ls[j])) is Some by {
                assert(ls[j] == references@[j]@);
                assert(node_line(references@[j]@) == Some(nodes_view(nodes@)[j]));
            }
            assert(nodes_view(nodes@) =~= ls.map_values(|l: Seq<char>| node_line(l)->Some_0)) by {
                assert forall|j: int| 0 <= j < ls.len() implies nodes_view(nodes@)[j] == ls.map_values(|l: Seq<char>| node_line(l)->Some_0)[j] by {
                    assert(ls[j] == references@[j]@);
                    assert(node_line(references@[j]@) == Some(nodes_view(nodes@)[j]));
                }
            }
            Some((commands, nodes))
        },
        None => {
            proof {
                let j = choose|j: int| 0 <= j < references@.len() && !(#[trigger] node_line(references@[j]@) is Some);
                assert(ls[j] == references@[j]@);
            }
            None
        },
    }
}

/// How many moves the walk from `start_value` takes to a node ending in `Z`,
/// looking no further than as many moves as there are node and command
/// pairs; `None` where it gets no such node in that many.
pub fn find_total_steps(commands: &Vec<i32>, references: &Vec<Node>, start_value: &Vec<char>) -> (r:
    Option<u128>)
    ensures
        r matches Some(v) ==> steps_within(
            nodes_view(references@),
            commands@,
            start_value@,
            (references@.len() * commands@.len()) as nat,
            v as nat,
        ),
        r is None ==> never_within(
            nodes_view(references@),
            commands@,
            start_value@,
            (references@.len() * commands@.len()) as nat,
        ),
{
    let ghost ns = nodes_view(references@);
    let ghost cmds = commands@;
    let ghost start = start_value@;
    let n = commands.len();
    assert((references.len() as u128) * (n as u128) <= u128::MAX) by (nonlinear_arith)
        requires
            references.len() <= usize::MAX,
            n <= usize::MAX,
    ;
    let bound: u128 = (references.len() as u128) * (n as u128);
    let mut current = copy_chars(start_value);
    let mut total_step: u128 = 0;
    let mut index: usize = 0;
    while total_step < bound
        invariant
            ns == nodes_view(references@),
            cmds == commands@,
            start == start_value@,
            n == cmds.len(),
            bound == (references@.len() * commands@.len()),
            total_step <= bound,
            n > 0 ==> index as int == (total_step as int) % (n as int),
            position(ns, cmds, start, total_step as nat) == Some(current@),
            forall|j: nat| 1 <= j <= total_step ==> !#[trigger] reached(ns, cmds, start, j),
        decreases bound - total_step,
    {
        proof {
            lemma_lookup_range(ns, current@);
            if n == 0 {
                assert(references@.len() * 0 == 0);
            }
        }
        let idx = match find_node(references, &current) {
            Some(i) => i,
            None => {
                proof {
                    assert(position(ns, cmds, start, (total_step + 1) as nat) is None);
                    assert(position(ns, cmds, start, (total_step + 1) as nat) is None);
                lemma_walk_stops(ns, cmds, start, total_step as nat + 1, bound as nat);
                    assert forall|j: nat| 1 <= j <= bound implies !#[trigger] reached(ns, cmds, start, j) by {
                        if j > total_step {
                            assert(position(ns, cmds, start, j) is None);
                        }
                    }
                }
                return None;
            },
        };
        let command = commands[index];
        let next = if command == LEFT {
            copy_chars(&references[idx].1)
        } else if command == RIGHT {
            copy_chars(&references[idx].2)
        } else {
            proof {
                assert(position(ns, cmds, start, (total_step + 1) as nat) is None);
                lemma_walk_stops(ns, cmds, start, total_step as nat + 1, bound as nat);
                assert forall|j: nat| 1 <= j <= bound implies !#[trigger] reached(ns, cmds, start, j) by {
                    if j > total_step {
                        assert(position(ns, cmds, start, j) is None);
                    }
                }
            }
            return None;
        };
        total_step = total_step + 1;
        assert(position(ns, cmds, start, total_step as nat) == Some(next@));
        if next.len() > 0 && next[next.len() - 1] == 'Z' {
            return Some(total_step);
        }
        current = next;
        index = if index + 1 < n {
            index + 1
        } else {
            0
        };
        proof {
            lemma_mod_step(total_step as int - 1, n as int);
        }
    }
    None
}

pub proof fn lemma_mod_step(a: int, n: int)
    requires
        a >= 0,
        n > 0,
    ensures
        (a + 1) % n == if a % n + 1 < n {
            a % n + 1
        } else {
            0
        },
{
    vstd::arithmetic::div_mod::lemma_fundamental_div_mod(a, n);
    vstd::arithmetic::div_mod::lemma_mod_pos_bound(a, n);
    let q = a / n;
    let r = a % n;
    assert(a == q * n + r) by (nonlinear_arith)
        requires
            a == n * q + r,
    ;
    if r + 1 < n {
        vstd::arithmetic::div_mod::lemma_fundamental_div_mod_converse(a + 1, n, q, r + 1);
    } else {
        assert(a + 1 == (q + 1) * n + 0) by (nonlinear_arith)
            requires
                a == q * n + r,
                r + 1 == n,
        ;
        vstd::arithmetic::div_mod::lemma_fundamental_div_mod_converse(a + 1, n, q + 1, 0);
    }
}

/// Once the walk stops, no later move reaches a node.
pub proof fn lemma_walk_stops(
    ns: Seq<(Seq<char>, Seq<char>, Seq<char>)>,
    cmds: Seq<i32>,
    start: Seq<char>,
    k: nat,
    bound: nat,
)
    requires
        k >= 1,
        position(ns, cmds, start, k) is None,
    ensures
        forall|j: nat| k <= j <= bound ==> #[trigger] position(ns, cmds, start, j) is None,
    decreases bound - k,
{
    if k < bound {
        assert(position(ns, cmds, start, k + 1) is None);
        lemma_walk_stops(ns, cmds, start, k + 1, bound);
    }
    assert forall|j: nat| k <= j <= bound implies #[trigger] position(ns, cmds, start, j) is None by {
        if j > k {
            assert(k + 1 <= j);
        }
    }
}

/// The names of the nodes that end with `c`, in order.
pub open spec fn keys_ending(ns: Seq<(Seq<char>, Seq<char>, Seq<char>)>, c: char) -> Seq<Seq<char>>
    decreases ns.len(),
{
    if ns.len() == 0 {
        Seq::empty()
    } else {
        let p = keys_ending(ns.drop_last(), c);
        if ends_with(ns.last().0, c) {
            p.push(ns.last().0)
        } else {
            p
        }
    }
}

pub open spec fn chars_views(v: Seq<Vec<char>>) -> Seq<Seq<char>> {
    v.map_values(|w: Vec<char>| w@)
}

fn keys_ending_with(references: &Vec<Node>, c: char) -> (r: Vec<Vec<char>>)
    ensures
        chars_views(r@) == keys_ending(nodes_view(references@), c),
{
    let ghost ns = nodes_view(references@);
    let mut r: Vec<Vec<char>> = Vec::new();
    let mut i: usize = 0;
    while i < references.len()
        invariant
            ns == nodes_view(references@),
            i <= references.len(),
            chars_views(r@) == keys_ending(ns.take(i as int), c),
        decreases references.len() - i,
    {
        assert(ns.take(i + 1).drop_last() =~= ns.take(i as int));
        let key = &references[i].0;
        assert(ns.take(i + 1).last().0 == key@);
        if key.len() > 0 && key[key.len() - 1] == c {
            let ghost prev = chars_views(r@);
            r.push(copy_chars(key));
            assert(chars_views(r@) =~= prev.push(key@));
        }
        i = i + 1;
    }
    assert(ns.take(references.len() as int) =~= ns);
    r
}

/// The names of the nodes that end with `A`, where the walks start.
pub fn find_all_start_values(references: &Vec<Node>) -> (r: Vec<Vec<char>>)
    ensures
        chars_views(r@) == keys_ending(nodes_view(references@), 'A'),
{
    keys_ending_with(references, 'A')
}

/// The names of the nodes that end with `Z`, where the walks end.
pub fn find_all_end_values(references: &Vec<Node>) -> (r: Vec<Vec<char>>)
    ensures
        chars_views(r@) == keys_ending(nodes_view(references@), 'Z'),
{
    keys_ending_with(references, 'Z')
}

/// The least common multiple of all the values, folded from the left.
pub open spec fn lcm_fold(s: Seq<nat>) -> nat
    decreases s.len(),
{
    if s.len() <= 1 {
        if s.len() == 1 {
            s[0]
        } else {
            1
        }
    } else {
        lcm(lcm_fold(s.drop_last()), s.last())
    }
}

/// Every step of the fold fits in `u128`.
pub open spec fn lcm_fits(s: Seq<nat>) -> bool
    decreases s.len(),
{
    if s.len() <= 1 {
        true
    } else {
        lcm_fits(s.drop_last()) && lcm(lcm_fold(s.drop_last()), s.last()) <= u128::MAX
    }
}

pub proof fn lemma_gcd_zero(a: nat, b: nat)
    requires
        gcd(a, b) == 0,
    ensures
        a == 0 && b == 0,
    decreases b,
{
    if b != 0 {
        lemma_gcd_zero(b, a % b);
    }
}

pub proof fn lemma_fits_stop(s: Seq<nat>, i: int, j: int)
    requires
        2 <= i <= j <= s.len(),
        !lcm_fits(s.take(i)),
    ensures
        !lcm_fits(s.take(j)),
    decreases j - i,
{
    if j > i {
        lemma_fits_stop(s, i, j - 1);
        assert(s.take(j).drop_last() =~= s.take(j - 1));
    }
}

/// The walks of an input start at every node ending in `A`, each within the
/// bound, and the answer folds their step counts.
pub open spec fn walks_within(
    ns: Seq<(Seq<char>, Seq<char>, Seq<char>)>,
    cmds: Seq<i32>,
    st: Seq<nat>,
) -> bool {
    let starts = keys_ending(ns, 'A');
    &&& st.len() == starts.len()
    &&& forall|i: int| 0 <= i < st.len() ==> steps_within(ns, cmds, starts[i], (ns.len() * cmds.len()) as nat, #[trigger] st[i])
}

pub open spec fn start_name() -> Seq<char> {
    seq!['A', 'A', 'A']
}

/// The walk from `AAA` reaches a node ending in `Z` within the bound.
pub open spec fn part_one_reached(g: Seq<Seq<char>>) -> bool {
    &&& nodes_of(g) is Some
    &&& exists|v: nat| #[trigger] steps_within(nodes_of(g)->Some_0, commands_of(g), start_name(), (nodes_of(g)->Some_0.len() * commands_of(g).len()) as nat, v)
}

/// Every walk from a node ending in `A` reaches one ending in `Z` within the
/// bound, there is such a walk, and the folded multiple fits in `u128`.
pub open spec fn part_two_reached(g: Seq<Seq<char>>) -> bool {
    &&& nodes_of(g) is Some
    &&& exists|st: Seq<nat>| #[trigger] walks_within(nodes_of(g)->Some_0, commands_of(g), st) && st.len() > 0 && lcm_fits(st)
}

/// A walk that reaches no node within the bound has no step count.
pub proof fn lemma_never_blocks(
    ns: Seq<(Seq<char>, Seq<char>, Seq<char>)>,
    cmds: Seq<i32>,
    start: Seq<char>,
    b: nat,
)
    requires
        never_within(ns, cmds, start, b),
    ensures
        forall|v: nat| !#[trigger] steps_within(ns, cmds, start, b, v),
{
    assert forall|v: nat| !#[trigger] steps_within(ns, cmds, start, b, v) by {
        if steps_within(ns, cmds, start, b, v) {
            assert(reached(ns, cmds, start, v));
        }
    }
}

pub struct Day08 {}

impl Day08 {
    /// Solves both parts on the text of a puzzle input, with the time each
    /// took; `None` where either part has no answer.
    pub fn run(input: &str) -> (r: Option<(String, String, String, u128, u128)>)
        ensures
            r is Some <==> part_one_reached(lines_spec(input@)) && part_two_reached(lines_spec(input@)),
            r matches Some(t) ==> t.0@ == "Day_08"@ && (nodes_of(lines_spec(input@)) matches Some(ns) && (exists|v: nat| steps_within(ns, commands_of(lines_spec(input@)), seq!['A', 'A', 'A'], (ns.len() * commands_of(lines_spec(input@)).len()) as nat, v) && t.1@ == decimal_of(v as int)) && (exists|st: Seq<nat>| walks_within(ns, commands_of(lines_spec(input@)), st) && st.len() > 0 && lcm_fits(st) && t.2@ == decimal_of(lcm_fold(st) as int))),
    {
        let lines = split_lines(input);
        let start_1 = start_clock();
        let result_1 = Day08::part_01(&lines);
        let time_calculation_1 = elapsed_since(&start_1);
        let start_2 = start_clock();
        let result_2 = Day08::part_02(&lines);
        let time_calculation_2 = elapsed_since(&start_2);
        match (result_1, result_2) {
            (Some(a), Some(b)) => Some(
                (
                    "Day_08".to_owned(),
                    decimal_u128(a),
                    decimal_u128(b),
                    nanos_of(&time_calculation_1),
                    nanos_of(&time_calculation_2),
                ),
            ),
            _ => None,
        }
    }

    /// The moves from `AAA` to a node ending in `Z`.
    pub fn part_01(lines: &Vec<&str>) -> (r: Option<u128>)
        ensures
            r is Some <==> part_one_reached(lines_view(lines@)),
            r matches Some(v) ==> nodes_of(lines_view(lines@)) matches Some(ns) && steps_within(
                ns,
                commands_of(lines_view(lines@)),
                seq!['A', 'A', 'A'],
                (ns.len() * commands_of(lines_view(lines@)).len()) as nat,
                v as nat,
            ),
            r is None ==> (nodes_of(lines_view(lines@)) matches Some(ns) ==> never_within(
                ns,
                commands_of(lines_view(lines@)),
                seq!['A', 'A', 'A'],
                (ns.len() * commands_of(lines_view(lines@)).len()) as nat,
            )),
    {
        let (commands, references) = match parse_input(lines) {
            Some(p) => p,
            None => {
                return None;
            },
        };
        let start: Vec<char> = vec!['A', 'A', 'A'];
        assert(start@ =~= seq!['A', 'A', 'A']);
        let r = find_total_steps(&commands, &references, &start);
        proof {
            let g = lines_view(lines@);
            let ns = nodes_view(references@);
            let b = (ns.len() * commands@.len()) as nat;
            assert(start_name() == seq!['A', 'A', 'A']);
            assert(nodes_of(g) == Some(ns) && commands_of(g) == commands@);
            if r is Some {
                let v = r->Some_0 as nat;
                assert(steps_within(ns, commands_of(g), start_name(), (ns.len() * commands_of(g).len()) as nat, v));
                assert(nodes_of(g)->Some_0 == ns);
                assert(steps_within(nodes_of(g)->Some_0, commands_of(g), start_name(), (nodes_of(g)->Some_0.len() * commands_of(g).len()) as nat, v));
                assert(part_one_reached(g));
            } else {
                lemma_never_blocks(ns, commands@, start_name(), b);
                assert(!part_one_reached(g));
            }
        }
        r
    }

    /// The least common multiple of the moves of every walk that starts at a
    /// node ending in `A`.
    pub fn part_02(lines: &Vec<&str>) -> (r: Option<u128>)
        ensures
            r is Some <==> part_two_reached(lines_view(lines@)),
            r matches Some(v) ==> nodes_of(lines_view(lines@)) matches Some(ns) && exists|st: Seq<nat>|
                walks_within(ns, commands_of(lines_view(lines@)), st) && st.len() > 0 && lcm_fits(st)
                    && v == lcm_fold(st),
            r is None ==> (nodes_of(lines_view(lines@)) matches Some(ns) ==> keys_ending(ns, 'A').len()
                == 0 || (exists|i: int| 0 <= i < keys_ending(ns, 'A').len() && never_within(ns, commands_of(lines_view(lines@)), #[trigger] keys_ending(ns, 'A')[i], (ns.len() * commands_of(lines_view(lines@)).len()) as nat)) || (forall|st: Seq<nat>| #[trigger] walks_within(ns, commands_of(lines_view(lines@)), st) ==> !lcm_fits(st))),
    {
        let (commands, references) = match parse_input(lines) {
            Some(p) => p,
            None => {
                return None;
            },
        };
        let ghost ns = nodes_view(references@);
        let ghost cmds = commands@;
        let start_values = find_all_start_values(&references);
        let ghost starts = keys_ending(ns, 'A');
        let mut total_steps: Vec<u128> = Vec::new();
        let mut i: usize = 0;
        while i < start_values.len()
            invariant
                ns == nodes_view(references@),
                cmds == commands@,
                starts == keys_ending(ns, 'A'),
                nodes_of(lines_view(lines@)) == Some(ns),
                cmds == commands_of(lines_view(lines@)),
                chars_views(start_values@) == starts,
                i <= start_values.len(),
                total_steps@.len() == i,
                forall|k: int| 0 <= k < i ==> steps_within(ns, cmds, starts[k], (ns.len() * cmds.len()) as nat, #[trigger] total_steps@[k] as nat),
            decreases start_values.len() - i,
        {
            assert(starts[i as int] == start_values@[i as int]@);
            match find_total_steps(&commands, &references, &start_values[i]) {
                Some(v) => {
                    total_steps.push(v);
                },
                None => {
                    assert(never_within(ns, cmds, keys_ending(ns, 'A')[i as int], (ns.len() * cmds.len()) as nat));
                    proof {
                        lemma_never_blocks(ns, cmds, starts[i as int], (ns.len() * cmds.len()) as nat);
                        assert(!part_two_reached(lines_view(lines@))) by {
                            if part_two_reached(lines_view(lines@)) {
                                let w = choose|w: Seq<nat>| #[trigger] walks_within(ns, cmds, w) && w.len() > 0 && lcm_fits(w);
                                assert(steps_within(ns, cmds, starts[i as int], (ns.len() * cmds.len()) as nat, w[i as int]));
                            }
                        }
                    }
                    return None;
                },
            }
            i = i + 1;
        }
        let ghost st = total_steps@.map_values(|v: u128| v as nat);
        assert(walks_within(ns, cmds, st));
        if total_steps.len() == 0 {
            assert(!part_two_reached(lines_view(lines@))) by {
                if part_two_reached(lines_view(lines@)) {
                    let w = choose|w: Seq<nat>| #[trigger] walks_within(ns, cmds, w) && w.len() > 0 && lcm_fits(w);
                    assert(w.len() == starts.len());
                }
            }
            return None;
        }
        let mut first = total_steps[0];
        let mut k: usize = 1;
        assert(st.take(1) =~= seq![st[0]]);
        while k < total_steps.len()
            invariant
                st == total_steps@.map_values(|v: u128| v as nat),
                walks_within(ns, cmds, st),
                nodes_of(lines_view(lines@)) == Some(ns),
                cmds == commands_of(lines_view(lines@)),
                1 <= k <= total_steps.len(),
                lcm_fits(st.take(k as int)),
                first as nat == lcm_fold(st.take(k as int)),
            decreases total_steps.len() - k,
        {
            let x = total_steps[k];
            assert(st.take(k + 1).drop_last() =~= st.take(k as int));
            assert(st.take(k + 1).last() == x as nat);
            let g = gcd_u128(first, x);
            if g == 0 {
                proof {
                    lemma_gcd_zero(first as nat, x as nat);
                }
                first = lcm_u128(first, x);
            } else {
                let q = x / g;
                match first.checked_mul(q) {
                    Some(_) => {
                        first = lcm_u128(first, x);
                    },
                    None => {
                        proof {
                            lemma_fits_stop(st, k + 1, st.len() as int);
                            assert(st.take(st.len() as int) =~= st);
                            lemma_walks_unique(ns, cmds, st);
                            assert(!part_two_reached(lines_view(lines@))) by {
                                if part_two_reached(lines_view(lines@)) {
                                    let w = choose|w: Seq<nat>| #[trigger] walks_within(ns, cmds, w) && w.len() > 0 && lcm_fits(w);
                                    assert(w == st);
                                }
                            }
                        }
                        return None;
                    },
                }
            }
            k = k + 1;
        }
        assert(st.take(total_steps.len() as int) =~= st);
        assert(walks_within(ns, cmds, st) && st.len() > 0 && lcm_fits(st));
        assert(nodes_of(lines_view(lines@))->Some_0 == ns);
        assert(walks_within(nodes_of(lines_view(lines@))->Some_0, commands_of(lines_view(lines@)), st));
        assert(part_two_reached(lines_view(lines@)));
        Some(first)
    }
}

/// The step counts of the walks are determined: each is the least that
/// reaches a node ending in `Z`.
pub proof fn lemma_walks_unique(
    ns: Seq<(Seq<char>, Seq<char>, Seq<char>)>,
    cmds: Seq<i32>,
    st: Seq<nat>,
)
    requires
        walks_within(ns, cmds, st),
    ensures
        forall|other: Seq<nat>| #[trigger] walks_within(ns, cmds, other) ==> other == st,
{
    assert forall|other: Seq<nat>| #[trigger] walks_within(ns, cmds, other) implies other == st by {
        let starts = keys_ending(ns, 'A');
        let b = (ns.len() * cmds.len()) as nat;
        assert forall|i: int| 0 <= i < st.len() implies other[i] == st[i] by {
            assert(steps_within(ns, cmds, starts[i], b, st[i]));
            assert(steps_within(ns, cmds, starts[i], b, other[i]));
            if other[i] < st[i] {
                assert(!reached(ns, cmds, starts[i], other[i]));
            }
            if st[i] < other[i] {
                assert(!reached(ns, cmds, starts[i], st[i]));
            }
        }
        assert(other =~= st);
    }
}

} // verus!
