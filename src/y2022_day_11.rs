//! Monkey in the middle: monkeys pass items around, each inspecting, raising
//! the worry level of, and throwing every item it holds, round after round.
use crate::clock::{decimal_of, decimal_u128, elapsed_since, nanos_of, start_clock};
use crate::text::{
    lower_of, lowercase, string_of,
    all_digits, chars_of, digits_value, find_first, first_of, has_char, lines_spec, lines_view,
    parse_unsigned, remove_char, split_by, split_lines, split_spec, tail_from, without,
};
use vstd::prelude::*;

verus! {

#[derive(Clone, Copy, PartialEq, Eq, Debug)]
pub enum Operations {
    Multiply(u128),
    MultiplyItSelf,
    Add(u128),
}

pub struct Monkey {
    pub name: String,
    pub items: Vec<u128>,
    pub test_divisible: u128,
    pub operation: Operations,
    pub true_throw: usize,
    pub false_throw: usize,
    pub total_inspected: u128,
}

/// What a monkey is, in mathematical terms.
pub ghost struct MonkeyState {
    pub name: Seq<char>,
    pub items: Seq<int>,
    pub divisor: int,
    pub operation: Operations,
    pub on_true: int,
    pub on_false: int,
    pub inspected: int,
}

pub open spec fn u128s_view(v: Seq<u128>) -> Seq<int> {
    v.map_values(|w: u128| w as int)
}

impl Monkey {
    pub open spec fn state(&self) -> MonkeyState {
        MonkeyState {
            name: self.name@,
            items: u128s_view(self.items@),
            divisor: self.test_divisible as int,
            operation: self.operation,
            on_true: self.true_throw as int,
            on_false: self.false_throw as int,
            inspected: self.total_inspected as int,
        }
    }
}

pub open spec fn states(ms: Seq<Monkey>) -> Seq<MonkeyState> {
    ms.map_values(|m: Monkey| m.state())
}

/// The worry level once the monkey's operation is applied.
pub open spec fn worry(op: Operations, w: int) -> int {
    match op {
        Operations::Multiply(v) => w * v,
        Operations::MultiplyItSelf => w * w,
        Operations::Add(v) => w + v,
    }
}

/// Relief after an inspection: the worry is divided by three where `modulus`
/// is 0, and else taken modulo `modulus`.
pub open spec fn relieved(w: int, modulus: int) -> int {
    if modulus == 0 {
        w / 3
    } else {
        w % modulus
    }
}

/// The monkey an item goes to; a monkey whose divisor is 0 divides nothing.
pub open spec fn throw_target(m: MonkeyState, w: int) -> int {
    if m.divisor != 0 && w % m.divisor == 0 {
        m.on_true
    } else {
        m.on_false
    }
}

/// Where each item of a monkey goes, and with which worry level, in order.
pub open spec fn thrown(m: MonkeyState, modulus: int) -> Seq<(int, int)> {
    Seq::new(
        m.items.len(),
        |k: int|
            {
                let w = relieved(worry(m.operation, m.items[k]), modulus);
                (throw_target(m, w), w)
            },
    )
}

/// A monkey can take its turn without a worry level or its count leaving `u128`.
pub open spec fn monkey_fits(m: MonkeyState) -> bool {
    &&& m.inspected + m.items.len() <= u128::MAX
    &&& forall|k: int| 0 <= k < m.items.len() ==> worry(m.operation, #[trigger] m.items[k]) <= u128::MAX
}

/// The monkey after its turn: no items left, each of them counted.
pub open spec fn emptied(m: MonkeyState) -> MonkeyState {
    MonkeyState { items: Seq::empty(), inspected: m.inspected + m.items.len(), ..m }
}

/// The monkeys once the first `k` throws reach their targets; a throw to a
/// monkey that does not exist is lost.
pub open spec fn catch_all(s: Seq<MonkeyState>, throws: Seq<(int, int)>, k: int) -> Seq<MonkeyState>
    decreases k,
{
    if k <= 0 {
        s
    } else {
        let prev = catch_all(s, throws, k - 1);
        let (t, w) = throws[k - 1];
        if 0 <= t < prev.len() {
            prev.update(t, MonkeyState { items: prev[t].items.push(w), ..prev[t] })
        } else {
            prev
        }
    }
}

/// The monkeys after monkey `idx` takes its turn.
pub open spec fn turn(s: Seq<MonkeyState>, idx: int, modulus: int) -> Seq<MonkeyState> {
    let throws = thrown(s[idx], modulus);
    catch_all(s.update(idx, emptied(s[idx])), throws, throws.len() as int)
}

/// The monkeys after the first `k` of them take their turns.
pub open spec fn round_upto(s: Seq<MonkeyState>, k: int, modulus: int) -> Seq<MonkeyState>
    decreases k,
{
    if k <= 0 {
        s
    } else {
        turn(round_upto(s, k - 1, modulus), k - 1, modulus)
    }
}

pub open spec fn round_fits_upto(s: Seq<MonkeyState>, k: int, modulus: int) -> bool
    decreases k,
{
    if k <= 0 {
        true
    } else {
        round_fits_upto(s, k - 1, modulus) && monkey_fits(round_upto(s, k - 1, modulus)[k - 1])
    }
}

/// The monkeys after `r` rounds.
pub open spec fn rounds(s: Seq<MonkeyState>, r: int, modulus: int) -> Seq<MonkeyState>
    decreases r,
{
    if r <= 0 {
        s
    } else {
        let p = rounds(s, r - 1, modulus);
        round_upto(p, p.len() as int, modulus)
    }
}

pub open spec fn rounds_fit(s: Seq<MonkeyState>, r: int, modulus: int) -> bool
    decreases r,
{
    if r <= 0 {
        true
    } else {
        let p = rounds(s, r - 1, modulus);
        rounds_fit(s, r - 1, modulus) && round_fits_upto(p, p.len() as int, modulus)
    }
}

/// The two largest of at least two counts, the larger first.
pub open spec fn largest_two(c: Seq<int>) -> (int, int)
    decreases c.len(),
{
    if c.len() <= 2 {
        if c[0] >= c[1] {
            (c[0], c[1])
        } else {
            (c[1], c[0])
        }
    } else {
        let (a, b) = largest_two(c.drop_last());
        let x = c.last();
        if x > a {
            (x, a)
        } else if x > b {
            (a, x)
        } else {
            (a, b)
        }
    }
}

/// The product of the two largest counts (of the one count, or of none).
pub open spec fn monkey_business(c: Seq<int>) -> int {
    if c.len() == 0 {
        1
    } else if c.len() == 1 {
        c[0]
    } else {
        largest_two(c).0 * largest_two(c).1
    }
}

pub open spec fn inspected_counts(s: Seq<MonkeyState>) -> Seq<int> {
    s.map_values(|m: MonkeyState| m.inspected)
}

pub open spec fn divisor_product(s: Seq<MonkeyState>) -> int
    decreases s.len(),
{
    if s.len() == 0 {
        1
    } else {
        divisor_product(s.drop_last()) * s.last().divisor
    }
}

pub proof fn lemma_catch_all_len(s: Seq<MonkeyState>, throws: Seq<(int, int)>, k: int)
    ensures
        catch_all(s, throws, k).len() == s.len(),
    decreases k,
{
    if k > 0 {
        lemma_catch_all_len(s, throws, k - 1);
    }
}

pub proof fn lemma_round_upto_len(s: Seq<MonkeyState>, k: int, modulus: int)
    requires
        k <= s.len(),
    ensures
        round_upto(s, k, modulus).len() == s.len(),
    decreases k,
{
    if k > 0 {
        lemma_round_upto_len(s, k - 1, modulus);
        let p = round_upto(s, k - 1, modulus);
        let throws = thrown(p[k - 1], modulus);
        lemma_catch_all_len(p.update(k - 1, emptied(p[k - 1])), throws, throws.len() as int);
    }
}

pub proof fn lemma_rounds_len(s: Seq<MonkeyState>, r: int, modulus: int)
    ensures
        rounds(s, r, modulus).len() == s.len(),
    decreases r,
{
    if r > 0 {
        lemma_rounds_len(s, r - 1, modulus);
        let p = rounds(s, r - 1, modulus);
        lemma_round_upto_len(p, p.len() as int, modulus);
    }
}

impl Monkey {
    /// The worry level of an item once the operation is applied.
    pub fn worry_level(&self, item: u128) -> (r: u128)
        requires
            worry(self.operation, item as int) <= u128::MAX,
        ensures
            r == worry(self.operation, item as int),
    {
        match self.operation {
            Operations::MultiplyItSelf => item * item,
            Operations::Add(value) => item + value,
            Operations::Multiply(value) => item * value,
        }
    }

    /// Whether the monkey can take its turn: every worry level and the new
    /// inspection count fit in `u128`.
    pub fn can_inspect(&self) -> (r: bool)
        ensures
            r == monkey_fits(self.state()),
    {
        let ghost m = self.state();
        let mut i: usize = 0;
        while i < self.items.len()
            invariant
                m == self.state(),
                i <= self.items.len(),
                forall|k: int| 0 <= k < i ==> worry(m.operation, #[trigger] m.items[k]) <= u128::MAX,
            decreases self.items.len() - i,
        {
            let item = self.items[i];
            assert(m.items[i as int] == item as int);
            let ok = match self.operation {
                Operations::MultiplyItSelf => item.checked_mul(item).is_some(),
                Operations::Add(value) => item.checked_add(value).is_some(),
                Operations::Multiply(value) => item.checked_mul(value).is_some(),
            };
            if !ok {
                return false;
            }
            i = i + 1;
        }
        self.total_inspected <= u128::MAX - self.items.len() as u128
    }

    pub fn get_bore(&self, worry_level: u128) -> (r: u128)
        ensures
            r == worry_level / 3,
    {
        worry_level / 3
    }

    /// The monkey an item goes to, with its worry level.
    pub fn test(&self, worry_level: u128) -> (r: (usize, u128))
        ensures
            r.0 as int == throw_target(self.state(), worry_level as int),
            r.1 == worry_level,
    {
        if self.test_divisible != 0 && worry_level % self.test_divisible == 0 {
            (self.true_throw, worry_level)
        } else {
            (self.false_throw, worry_level)
        }
    }

    /// Inspects every item in turn and empties the monkey; `modulus` 0
    /// divides each worry level by three, any other takes it modulo `modulus`.
    fn inspect_all(&mut self, modulus: u128) -> (r: Vec<(usize, u128)>)
        requires
            monkey_fits(old(self).state()),
        ensures
            r@.map_values(|p: (usize, u128)| (p.0 as int, p.1 as int)) == thrown(old(self).state(), modulus as int),
            final(self).state() == emptied(old(self).state()),
    {
        let ghost m = self.state();
        let mut result: Vec<(usize, u128)> = Vec::new();
        let mut i: usize = 0;
        while i < self.items.len()
            invariant
                m == self.state(),
                monkey_fits(m),
                i <= self.items.len(),
                result@.len() == i,
                forall|k: int| 0 <= k < i ==> (#[trigger] result@[k]).0 as int == thrown(m, modulus as int)[k].0
                    && result@[k].1 as int == thrown(m, modulus as int)[k].1,
            decreases self.items.len() - i,
        {
            let item = self.items[i];
            assert(m.items[i as int] == item as int);
            let worry_level = self.worry_level(item);
            let relief = if modulus == 0 {
                self.get_bore(worry_level)
            } else {
                worry_level % modulus
            };
            let throw_data = self.test(relief);
            result.push(throw_data);
            i = i + 1;
        }
        self.total_inspected = self.total_inspected + self.items.len() as u128;
        self.items = Vec::new();
        assert(self.state().items =~= Seq::<int>::empty());
        assert(result@.map_values(|p: (usize, u128)| (p.0 as int, p.1 as int)) =~= thrown(
            m,
            modulus as int,
        ));
        result
    }

    /// Inspects every item, dividing each worry level by three.
    pub fn inspect(&mut self) -> (r: Vec<(usize, u128)>)
        requires
            monkey_fits(old(self).state()),
        ensures
            r@.map_values(|p: (usize, u128)| (p.0 as int, p.1 as int)) == thrown(old(self).state(), 0),
            final(self).state() == emptied(old(self).state()),
    {
        self.inspect_all(0)
    }

    /// Inspects every item, keeping each worry level modulo `common_modular`.
    pub fn less_worry_inspect(&mut self, common_modular: u128) -> (r: Vec<(usize, u128)>)
        requires
            common_modular > 0,
            monkey_fits(old(self).state()),
        ensures
            r@.map_values(|p: (usize, u128)| (p.0 as int, p.1 as int)) == thrown(
                old(self).state(),
                common_modular as int,
            ),
            final(self).state() == emptied(old(self).state()),
    {
        self.inspect_all(common_modular)
    }
}

/// One round: each monkey in order inspects and throws all its items; `false`
/// where a worry level or a count leaves `u128`, the monkeys then being
/// unspecified.
fn round_with(monkeys: &mut Vec<Monkey>, modulus: u128) -> (r: bool)
    ensures
        r == round_fits_upto(states(old(monkeys)@), old(monkeys)@.len() as int, modulus as int),
        r ==> states(final(monkeys)@) == round_upto(
            states(old(monkeys)@),
            old(monkeys)@.len() as int,
            modulus as int,
        ),
        final(monkeys)@.len() == old(monkeys)@.len(),
{
    let ghost s0 = states(monkeys@);
    let n = monkeys.len();
    let mut index: usize = 0;
    while index < n
        invariant
            n == monkeys@.len(),
            n == old(monkeys)@.len(),
            s0 == states(old(monkeys)@),
            s0.len() == n,
            index <= n,
            round_fits_upto(s0, index as int, modulus as int),
            states(monkeys@) == round_upto(s0, index as int, modulus as int),
        decreases n - index,
    {
        let ghost before = states(monkeys@);
        proof {
            lemma_round_upto_len(s0, index as int, modulus as int);
            assert(before[index as int] == monkeys@[index as int].state());
        }
        if !monkeys[index].can_inspect() {
            proof {
                assert(!monkey_fits(before[index as int]));
                assert(!monkey_fits(round_upto(s0, index as int, modulus as int)[index as int]));
                lemma_round_fits_stops(s0, index as int, n as int, modulus as int);
            }
            return false;
        }
        let result = monkeys[index].inspect_all(modulus);
        let ghost throws = thrown(before[index as int], modulus as int);
        assert(states(monkeys@) =~= before.update(index as int, emptied(before[index as int])));
        let mut j: usize = 0;
        while j < result.len()
            invariant
                n == monkeys@.len(),
                before.len() == n,
                index < n,
                j <= result.len(),
                throws.len() == result@.len(),
                forall|k: int| 0 <= k < result@.len() ==> (#[trigger] result@[k]).0 as int == throws[k].0
                    && result@[k].1 as int == throws[k].1,
                states(monkeys@) == catch_all(
                    before.update(index as int, emptied(before[index as int])),
                    throws,
                    j as int,
                ),
            decreases result.len() - j,
        {
            let (received_monkey_index, item) = result[j];
            let ghost prev = states(monkeys@);
            proof {
                lemma_catch_all_len(before.update(index as int, emptied(before[index as int])), throws, j as int);
            }
            if received_monkey_index < monkeys.len() {
                monkeys[received_monkey_index].items.push(item);
                assert(u128s_view(monkeys@[received_monkey_index as int].items@) =~= prev[received_monkey_index as int].items.push(item as int));
                assert(states(monkeys@) =~= prev.update(
                    received_monkey_index as int,
                    MonkeyState {
                        items: prev[received_monkey_index as int].items.push(item as int),
                        ..prev[received_monkey_index as int]
                    },
                ));
            }
            j = j + 1;
        }
        index = index + 1;
    }
    true
}

/// Once a turn overflows, the round does.
pub proof fn lemma_round_fits_stops(s: Seq<MonkeyState>, k: int, n: int, modulus: int)
    requires
        0 <= k < n,
        !monkey_fits(round_upto(s, k, modulus)[k]),
    ensures
        !round_fits_upto(s, n, modulus),
    decreases n - k,
{
    if n > k + 1 {
        lemma_round_fits_stops(s, k, n - 1, modulus);
    }
}

/// One round, each worry level divided by three after each inspection.
pub fn round(monkeys: &mut Vec<Monkey>) -> (r: bool)
    ensures
        r == round_fits_upto(states(old(monkeys)@), old(monkeys)@.len() as int, 0),
        r ==> states(final(monkeys)@) == round_upto(states(old(monkeys)@), old(monkeys)@.len() as int, 0),
        final(monkeys)@.len() == old(monkeys)@.len(),
{
    round_with(monkeys, 0)
}

/// One round, each worry level kept modulo `common_modular`.
pub fn round_with_less_worry(monkeys: &mut Vec<Monkey>, common_modular: u128) -> (r: bool)
    requires
        common_modular > 0,
    ensures
        r == round_fits_upto(
            states(old(monkeys)@),
            old(monkeys)@.len() as int,
            common_modular as int,
        ),
        r ==> states(final(monkeys)@) == round_upto(
            states(old(monkeys)@),
            old(monkeys)@.len() as int,
            common_modular as int,
        ),
        final(monkeys)@.len() == old(monkeys)@.len(),
{
    round_with(monkeys, common_modular)
}

/// Plays `count` rounds; `false` where one of them overflows.
fn play(monkeys: &mut Vec<Monkey>, count: usize, modulus: u128) -> (r: bool)
    ensures
        r == rounds_fit(states(old(monkeys)@), count as int, modulus as int),
        r ==> states(final(monkeys)@) == rounds(states(old(monkeys)@), count as int, modulus as int),
{
    let ghost s0 = states(monkeys@);
    let mut k: usize = 0;
    while k < count
        invariant
            k <= count,
            s0 == states(old(monkeys)@),
            rounds_fit(s0, k as int, modulus as int),
            states(monkeys@) == rounds(s0, k as int, modulus as int),
        decreases count - k,
    {
        proof {
            lemma_rounds_len(s0, k as int, modulus as int);
        }
        let ghost p = states(monkeys@);
        assert(p.len() == monkeys@.len());
        let ok = round_with(monkeys, modulus);
        if !ok {
            proof {
                assert(!round_fits_upto(p, p.len() as int, modulus as int));
                assert(rounds(s0, k as int, modulus as int) == p);
                assert(!rounds_fit(s0, k + 1, modulus as int));
                lemma_rounds_fit_stops(s0, k as int + 1, count as int, modulus as int);
            }
            return false;
        }
        k = k + 1;
    }
    true
}

pub proof fn lemma_rounds_fit_stops(s: Seq<MonkeyState>, k: int, n: int, modulus: int)
    requires
        1 <= k <= n,
        !rounds_fit(s, k, modulus),
    ensures
        !rounds_fit(s, n, modulus),
    decreases n - k,
{
    if n > k {
        lemma_rounds_fit_stops(s, k, n - 1, modulus);
    }
}

/// The product of the two largest inspection counts; `None` where it does
/// not fit.
pub fn most_active_product(monkeys: &Vec<Monkey>) -> (r: Option<u128>)
    ensures
        r is Some <==> monkey_business(inspected_counts(states(monkeys@))) <= u128::MAX,
        r matches Some(v) ==> v == monkey_business(inspected_counts(states(monkeys@))),
{
    let ghost c = inspected_counts(states(monkeys@));
    let n = monkeys.len();
    if n == 0 {
        return Some(1);
    }
    if n == 1 {
        return Some(monkeys[0].total_inspected);
    }
    let (mut a, mut b) = if monkeys[0].total_inspected >= monkeys[1].total_inspected {
        (monkeys[0].total_inspected, monkeys[1].total_inspected)
    } else {
        (monkeys[1].total_inspected, monkeys[0].total_inspected)
    };
    assert(c.take(2).drop_last() =~= c.take(1));
    assert((a as int, b as int) == largest_two(c.take(2)));
    let mut i: usize = 2;
    while i < n
        invariant
            n == monkeys@.len(),
            c == inspected_counts(states(monkeys@)),
            2 <= i <= n,
            (a as int, b as int) == largest_two(c.take(i as int)),
        decreases n - i,
    {
        let x = monkeys[i].total_inspected;
        assert(c.take(i + 1).drop_last() =~= c.take(i as int));
        assert(c.take(i + 1).last() == x as int);
        if x > a {
            b = a;
            a = x;
        } else if x > b {
            b = x;
        }
        i = i + 1;
    }
    assert(c.take(n as int) =~= c);
    a.checked_mul(b)
}

/// A run of decimal digits that fits in `u128`.
pub open spec fn unsigned_of(w: Seq<char>) -> Option<int> {
    if w.len() > 0 && all_digits(w) && digits_value(w) <= u128::MAX {
        Some(digits_value(w))
    } else {
        None
    }
}

pub open spec fn last_word(s: Seq<char>) -> Seq<char> {
    split_spec(s, ' ').last()
}

pub open spec fn item_values(pieces: Seq<Seq<char>>) -> Option<Seq<int>>
    decreases pieces.len(),
{
    if pieces.len() == 0 {
        Some(Seq::empty())
    } else {
        match item_values(pieces.drop_last()) {
            Some(p) => match unsigned_of(pieces.last()) {
                Some(v) => Some(p.push(v)),
                None => None,
            },
            None => None,
        }
    }
}

/// `Starting items: 79, 98`: the numbers after the colon, spaces ignored.
pub open spec fn items_line(s: Seq<char>) -> Option<Seq<int>> {
    if has_char(s, ':') {
        item_values(split_spec(without(s.skip(first_of(s, ':') + 1), ' '), ','))
    } else {
        None
    }
}

/// `Operation: new = old * 19`: the last two words; `*` with a word that is
/// no number squares the worry level.
pub open spec fn operation_line(s: Seq<char>) -> Option<Operations> {
    let w = split_spec(s, ' ');
    if w.len() >= 2 {
        let o = w[w.len() - 2];
        let v = w.last();
        if o == seq!['*'] {
            match unsigned_of(v) {
                Some(x) => Some(Operations::Multiply(x as u128)),
                None => Some(Operations::MultiplyItSelf),
            }
        } else if o == seq!['+'] {
            match unsigned_of(v) {
                Some(x) => Some(Operations::Add(x as u128)),
                None => None,
            }
        } else {
            None
        }
    } else {
        None
    }
}

pub open spec fn index_of_word(s: Seq<char>) -> Option<int> {
    match unsigned_of(last_word(s)) {
        Some(v) => if v <= usize::MAX {
            Some(v)
        } else {
            None
        },
        None => None,
    }
}

/// A monkey written as six lines: its name (before the colon, lower-cased), items, operation, divisor and the
/// two monkeys it throws to; the numbers are the last word of their lines.
pub open spec fn monkey_of(g: Seq<Seq<char>>) -> Option<MonkeyState> {
    if g.len() >= 6 && items_line(g[1]) is Some && operation_line(g[2]) is Some && unsigned_of(
        last_word(g[3]),
    ) is Some && index_of_word(g[4]) is Some && index_of_word(g[5]) is Some {
        Some(
            MonkeyState {
                name: lower_of(split_spec(g[0], ':')[0]),
                items: items_line(g[1])->Some_0,
                divisor: unsigned_of(last_word(g[3]))->Some_0,
                operation: operation_line(g[2])->Some_0,
                on_true: index_of_word(g[4])->Some_0,
                on_false: index_of_word(g[5])->Some_0,
                inspected: 0,
            },
        )
    } else {
        None
    }
}

/// The lines split into groups at each empty line.
pub open spec fn groups_of(lines: Seq<Seq<char>>) -> Seq<Seq<Seq<char>>>
    decreases lines.len(),
{
    if lines.len() == 0 {
        seq![Seq::empty()]
    } else {
        let p = groups_of(lines.drop_last());
        if lines.last().len() == 0 {
            p.push(Seq::empty())
        } else {
            p.update(p.len() - 1, p.last().push(lines.last()))
        }
    }
}

/// The monkeys of an input, one per group of lines; `None` where a group is
/// no monkey.
pub open spec fn monkeys_of(lines: Seq<Seq<char>>) -> Option<Seq<MonkeyState>> {
    let gs = groups_of(lines);
    if forall|k: int| 0 <= k < gs.len() ==> (#[trigger] monkey_of(gs[k])) is Some {
        Some(gs.map_values(|g: Seq<Seq<char>>| monkey_of(g)->Some_0))
    } else {
        None
    }
}

pub open spec fn part_one_answer(lines: Seq<Seq<char>>) -> Option<int> {
    match monkeys_of(lines) {
        Some(s) => if rounds_fit(s, 20, 0) && monkey_business(inspected_counts(rounds(s, 20, 0)))
            <= u128::MAX {
            Some(monkey_business(inspected_counts(rounds(s, 20, 0))))
        } else {
            None
        },
        None => None,
    }
}

pub open spec fn part_two_answer(lines: Seq<Seq<char>>) -> Option<int> {
    match monkeys_of(lines) {
        Some(s) => {
            let m = divisor_product(s);
            if 0 < m <= u128::MAX && rounds_fit(s, 10000, m) && monkey_business(
                inspected_counts(rounds(s, 10000, m)),
            ) <= u128::MAX {
                Some(monkey_business(inspected_counts(rounds(s, 10000, m))))
            } else {
                None
            }
        },
        None => None,
    }
}

pub open spec fn groups_view(gs: Seq<Vec<&str>>) -> Seq<Seq<Seq<char>>> {
    gs.map_values(|g: Vec<&str>| lines_view(g@))
}

/// The lines split into groups at each empty line.
pub fn split_groups<'a>(lines: &Vec<&'a str>) -> (r: Vec<Vec<&'a str>>)
    ensures
        groups_view(r@) == groups_of(lines_view(lines@)),
{
    let ghost ls = lines_view(lines@);
    let mut groups: Vec<Vec<&'a str>> = Vec::new();
    let mut group: Vec<&'a str> = Vec::new();
    let mut i: usize = 0;
    assert(ls.take(0) =~= Seq::<Seq<char>>::empty());
    assert(lines_view(group@) =~= Seq::<Seq<char>>::empty());
    assert(groups_view(groups@).push(lines_view(group@)) =~= groups_of(ls.take(0)));
    while i < lines.len()
        invariant
            ls == lines_view(lines@),
            i <= lines.len(),
            groups_view(groups@).push(lines_view(group@)) == groups_of(ls.take(i as int)),
        decreases lines.len() - i,
    {
        let ghost before = groups_view(groups@).push(lines_view(group@));
        assert(ls.take(i + 1).drop_last() =~= ls.take(i as int));
        assert(ls[i as int] == lines@[i as int]@);
        let line = lines[i];
        if line.unicode_len() == 0 {
            let ghost gv = lines_view(group@);
            groups.push(group);
            group = Vec::new();
            assert(lines_view(group@) =~= Seq::<Seq<char>>::empty());
            assert(groups_view(groups@) =~= before.drop_last().push(gv));
            assert(groups_view(groups@).push(lines_view(group@)) =~= before.push(Seq::empty()));
        } else {
            let ghost gv = lines_view(group@);
            group.push(line);
            assert(lines_view(group@) =~= gv.push(line@));
            assert(groups_view(groups@).push(lines_view(group@)) =~= before.update(
                before.len() - 1,
                before.last().push(line@),
            ));
        }
        i = i + 1;
    }
    assert(ls.take(lines.len() as int) =~= ls);
    groups.push(group);
    assert(groups_view(groups@) =~= groups_of(ls));
    groups
}

/// The last word of a line.
fn last_word_of(s: &Vec<char>) -> (r: Vec<char>)
    ensures
        r@ == last_word(s@),
{
    let mut words = split_by(s, ' ');
    proof {
        crate::text::lemma_split_nonempty(s@, ' ');
        assert(words@.map_values(|w: Vec<char>| w@).last() == words@.last()@);
    }
    match words.pop() {
        Some(w) => w,
        None => Vec::new(),
    }
}

fn index_from(line: &str) -> (r: Option<usize>)
    ensures
        r is Some <==> index_of_word(line@) is Some,
        r matches Some(v) ==> index_of_word(line@) == Some(v as int),
{
    let s = chars_of(line);
    let w = last_word_of(&s);
    match parse_unsigned(&w) {
        Some(v) => if v <= usize::MAX as u128 {
            Some(v as usize)
        } else {
            None
        },
        None => None,
    }
}

fn items_from(line: &str) -> (r: Option<Vec<u128>>)
    ensures
        r is Some <==> items_line(line@) is Some,
        r matches Some(v) ==> items_line(line@) == Some(u128s_view(v@)),
{
    let s = chars_of(line);
    let p = match find_first(&s, ':') {
        Some(p) => p,
        None => {
            return None;
        },
    };
    let rest = tail_from(&s, p + 1);
    let compact = remove_char(&rest, ' ');
    let pieces = split_by(&compact, ',');
    let ghost ps = pieces@.map_values(|w: Vec<char>| w@);
    let mut items: Vec<u128> = Vec::new();
    let mut i: usize = 0;
    while i < pieces.len()
        invariant
            ps == pieces@.map_values(|w: Vec<char>| w@),
            ps == split_spec(without(s@.skip(p + 1), ' '), ','),
            s@ == line@,
            has_char(s@, ':'),
            first_of(s@, ':') == p,
            i <= pieces.len(),
            item_values(ps.take(i as int)) == Some(u128s_view(items@)),
        decreases pieces.len() - i,
    {
        assert(ps.take(i + 1).drop_last() =~= ps.take(i as int));
        assert(ps[i as int] == pieces@[i as int]@);
        match parse_unsigned(&pieces[i]) {
            Some(v) => {
                items.push(v);
                assert(u128s_view(items@) =~= u128s_view(items@).drop_last().push(v as int));
            },
            None => {
                proof {
                    assert(ps.take(i + 1).last() == ps[i as int]);
                    assert(unsigned_of(ps[i as int]) is None);
                    assert(item_values(ps.take(i + 1)) is None);
                    lemma_item_values_stop(ps, i as int + 1, ps.len() as int);
                }
                assert(ps.take(ps.len() as int) =~= ps);
                return None;
            },
        }
        i = i + 1;
    }
    assert(ps.take(pieces.len() as int) =~= ps);
    Some(items)
}

/// Once a piece is no number, no longer list of pieces gives items.
pub proof fn lemma_item_values_stop(ps: Seq<Seq<char>>, i: int, j: int)
    requires
        1 <= i <= j <= ps.len(),
        item_values(ps.take(i)) is None,
    ensures
        item_values(ps.take(j)) is None,
    decreases j - i,
{
    if j > i {
        lemma_item_values_stop(ps, i, j - 1);
        assert(ps.take(j).drop_last() =~= ps.take(j - 1));
    }
}

fn operation_from(line: &str) -> (r: Option<Operations>)
    ensures
        r == operation_line(line@),
{
    let s = chars_of(line);
    let words = split_by(&s, ' ');
    let ghost ws = words@.map_values(|w: Vec<char>| w@);
    let n = words.len();
    if n < 2 {
        return None;
    }
    let o = &words[n - 2];
    let v = &words[n - 1];
    assert(ws[n - 2] == o@);
    assert(ws.last() == v@);
    if o.len() == 1 && o[0] == '*' {
        assert(o@ =~= seq!['*']);
        match parse_unsigned(v) {
            Some(x) => Some(Operations::Multiply(x)),
            None => Some(Operations::MultiplyItSelf),
        }
    } else if o.len() == 1 && o[0] == '+' {
        assert(o@ =~= seq!['+']);
        match parse_unsigned(v) {
            Some(x) => Some(Operations::Add(x)),
            None => None,
        }
    } else {
        assert(o@ != seq!['*'] && o@ != seq!['+']) by {
            if o@ == seq!['*'] || o@ == seq!['+'] {
                assert(o@.len() == 1);
            }
        }
        None
    }
}

impl Monkey {
    /// The monkey that six lines describe; `None` where they describe none.
    pub fn from(lines: &Vec<&str>) -> (r: Option<Monkey>)
        ensures
            r is Some <==> monkey_of(lines_view(lines@)) is Some,
            r matches Some(m) ==> monkey_of(lines_view(lines@)) == Some(m.state()),
    {
        let ghost g = lines_view(lines@);
        if lines.len() < 6 {
            return None;
        }
        assert(g[1] == lines@[1]@ && g[2] == lines@[2]@ && g[3] == lines@[3]@);
        assert(g[4] == lines@[4]@ && g[5] == lines@[5]@);
        assert(g[0] == lines@[0]@);
        let header = split_by(&chars_of(lines[0]), ':');
        proof {
            crate::text::lemma_split_nonempty(lines@[0]@, ':');
            assert(header@.map_values(|w: Vec<char>| w@)[0] == header@[0]@);
        }
        let name = string_of(&lowercase(&header[0]));
        let items = items_from(lines[1]);
        let operation = operation_from(lines[2]);
        let divisor_word = last_word_of(&chars_of(lines[3]));
        let test_divisible = parse_unsigned(&divisor_word);
        let true_throw = index_from(lines[4]);
        let false_throw = index_from(lines[5]);
        match (items, operation, test_divisible, true_throw, false_throw) {
            (Some(items), Some(operation), Some(test_divisible), Some(true_throw), Some(false_throw)) => {
                let m = Monkey {
                    name,
                    items,
                    test_divisible,
                    operation,
                    true_throw,
                    false_throw,
                    total_inspected: 0,
                };
                Some(m)
            },
            _ => None,
        }
    }
}

/// The monkeys of an input, one per group of lines.
pub fn parse_input(lines: &Vec<&str>) -> (r: Option<Vec<Monkey>>)
    ensures
        r is Some <==> monkeys_of(lines_view(lines@)) is Some,
        r matches Some(v) ==> monkeys_of(lines_view(lines@)) == Some(states(v@)),
{
    let groups = split_groups(lines);
    let ghost gs = groups_view(groups@);
    let mut monkeys: Vec<Monkey> = Vec::new();
    let mut i: usize = 0;
    while i < groups.len()
        invariant
            gs == groups_view(groups@),
            gs == groups_of(lines_view(lines@)),
            i <= groups.len(),
            monkeys@.len() == i,
            forall|k: int| 0 <= k < i ==> (#[trigger] monkey_of(gs[k])) == Some(monkeys@[k].state()),
        decreases groups.len() - i,
    {
        assert(gs[i as int] == lines_view(groups@[i as int]@));
        match Monkey::from(&groups[i]) {
            Some(m) => {
                monkeys.push(m);
            },
            None => {
                assert(monkey_of(gs[i as int]) is None);
                return None;
            },
        }
        i = i + 1;
    }
    assert(states(monkeys@) =~= gs.map_values(|g: Seq<Seq<char>>| monkey_of(g)->Some_0));
    Some(monkeys)
}

/// The product of all divisors; `None` where one is 0 or the product does
/// not fit.
fn common_modulus(monkeys: &Vec<Monkey>) -> (r: Option<u128>)
    ensures
        r is Some <==> 0 < divisor_product(states(monkeys@)) <= u128::MAX,
        r matches Some(v) ==> v == divisor_product(states(monkeys@)),
{
    let ghost s = states(monkeys@);
    let mut i: usize = 0;
    while i < monkeys.len()
        invariant
            s == states(monkeys@),
            i <= monkeys.len(),
            forall|k: int| 0 <= k < i ==> (#[trigger] s[k]).divisor >= 1,
        decreases monkeys.len() - i,
    {
        if monkeys[i].test_divisible == 0 {
            proof {
                lemma_product_zero(s, i as int);
            }
            return None;
        }
        i = i + 1;
    }
    let mut product: u128 = 1;
    let mut j: usize = 0;
    while j < monkeys.len()
        invariant
            s == states(monkeys@),
            j <= monkeys.len(),
            forall|k: int| 0 <= k < s.len() ==> (#[trigger] s[k]).divisor >= 1,
            product == divisor_product(s.take(j as int)),
        decreases monkeys.len() - j,
    {
        assert(s.take(j + 1).drop_last() =~= s.take(j as int));
        let d = monkeys[j].test_divisible;
        match product.checked_mul(d) {
            Some(v) => {
                product = v;
            },
            None => {
                proof {
                    lemma_product_grows(s, j + 1, s.len() as int);
                    assert(s.take(s.len() as int) =~= s);
                }
                return None;
            },
        }
        j = j + 1;
    }
    assert(s.take(monkeys.len() as int) =~= s);
    proof {
        lemma_product_grows(s, 0, s.len() as int);
        assert(s.take(0) =~= Seq::<MonkeyState>::empty());
    }
    Some(product)
}

pub proof fn lemma_product_zero(s: Seq<MonkeyState>, i: int)
    requires
        0 <= i < s.len(),
        s[i].divisor == 0,
    ensures
        divisor_product(s) == 0,
    decreases s.len(),
{
    if i < s.len() - 1 {
        lemma_product_zero(s.drop_last(), i);
    }
}

/// With every divisor at least 1, a longer prefix has at least the product.
pub proof fn lemma_product_grows(s: Seq<MonkeyState>, i: int, j: int)
    requires
        0 <= i <= j <= s.len(),
        forall|k: int| 0 <= k < s.len() ==> (#[trigger] s[k]).divisor >= 1,
    ensures
        divisor_product(s.take(i)) <= divisor_product(s.take(j)),
        divisor_product(s.take(j)) >= 1,
    decreases j,
{
    if j > 0 {
        lemma_product_grows(s, 0, j - 1);
        if i < j {
            lemma_product_grows(s, i, j - 1);
        }
        assert(s.take(j).drop_last() =~= s.take(j - 1));
        let p = divisor_product(s.take(j - 1));
        let d = s[j - 1].divisor;
        assert(p <= p * d) by (nonlinear_arith)
            requires
                p >= 1,
                d >= 1,
        ;
    } else {
        assert(s.take(0) =~= Seq::<MonkeyState>::empty());
    }
}

pub struct Day11 {}

impl Day11 {
    /// Solves both parts on the text of a puzzle input, with the time each
    /// took; `None` where either part has no answer.
    pub fn run(input: &str) -> (r: Option<(String, String, String, u128, u128)>)
        ensures
            r is Some <==> part_one_answer(lines_spec(input@)) is Some && part_two_answer(
                lines_spec(input@),
            ) is Some,
            r matches Some(t) ==> t.0@ == "Day_11"@ && t.1@ == decimal_of(
                part_one_answer(lines_spec(input@))->Some_0,
            ) && t.2@ == decimal_of(part_two_answer(lines_spec(input@))->Some_0),
    {
        let lines = split_lines(input);
        let start_1 = start_clock();
        let result_1 = Day11::part_01(&lines);
        let time_calculation_1 = elapsed_since(&start_1);
        let start_2 = start_clock();
        let result_2 = Day11::part_02(&lines);
        let time_calculation_2 = elapsed_since(&start_2);
        match (result_1, result_2) {
            (Some(a), Some(b)) => Some(
                (
                    "Day_11".to_owned(),
                    decimal_u128(a),
                    decimal_u128(b),
                    nanos_of(&time_calculation_1),
                    nanos_of(&time_calculation_2),
                ),
            ),
            _ => None,
        }
    }

    /// The product of the two largest inspection counts after 20 rounds, each
    /// worry level divided by three after each inspection.
    pub fn part_01(lines: &Vec<&str>) -> (r: Option<u128>)
        ensures
            r is Some <==> part_one_answer(lines_view(lines@)) is Some,
            r matches Some(v) ==> part_one_answer(lines_view(lines@)) == Some(v as int),
    {
        let mut monkeys = match parse_input(lines) {
            Some(m) => m,
            None => {
                return None;
            },
        };
        if !play(&mut monkeys, 20, 0) {
            return None;
        }
        most_active_product(&monkeys)
    }

    /// The product of the two largest inspection counts after 10000 rounds,
    /// each worry level kept modulo the product of all divisors.
    pub fn part_02(lines: &Vec<&str>) -> (r: Option<u128>)
        ensures
            r is Some <==> part_two_answer(lines_view(lines@)) is Some,
            r matches Some(v) ==> part_two_answer(lines_view(lines@)) == Some(v as int),
    {
        let mut monkeys = match parse_input(lines) {
            Some(m) => m,
            None => {
                return None;
            },
        };
        let common_modular = match common_modulus(&monkeys) {
            Some(m) => m,
            None => {
                return None;
            },
        };
        if !play(&mut monkeys, 10000, common_modular) {
            return None;
        }
        most_active_product(&monkeys)
    }
}

} // verus!
