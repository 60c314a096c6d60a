//! Camel cards: hands of five cards ranked by type, then card by card; each
//! hand wins its bet times its rank among all hands.
use crate::clock::{decimal_of, decimal_u128, elapsed_since, nanos_of, start_clock};
use crate::text::{all_digits, chars_of, digits_value, lines_spec, lines_view, parse_unsigned, split_by, split_lines, split_spec};
use vstd::prelude::*;

verus! {

/// The types of hand, weakest first.
#[derive(Clone, Copy, PartialEq, Eq, Structural, PartialOrd, Ord, Debug)]
pub enum HandType {
    HighCard,
    OnePairs,
    TwoPairs,
    ThreeOfKind,
    FullHouse,
    FourOfKind,
    FiveOfKind,
}

/// A hand: its type first, so that the derived order ranks hands by type,
/// then card by card.
#[derive(Clone, PartialEq, Eq, PartialOrd, Ord, Debug)]
pub struct Hand {
    pub hand_type: HandType,
    pub cards: Vec<i32>,
    pub bet: u128,
}

pub open spec fn rank_of(t: HandType) -> int {
    match t {
        HandType::HighCard => 1,
        HandType::OnePairs => 2,
        HandType::TwoPairs => 3,
        HandType::ThreeOfKind => 4,
        HandType::FullHouse => 5,
        HandType::FourOfKind => 6,
        HandType::FiveOfKind => 7,
    }
}

/// The value of a card; with jokers, `J` is worth 0. A character that is no
/// card is worth 0.
pub open spec fn card_value(c: char, joker: bool) -> i32 {
    if c == 'T' {
        10
    } else if c == 'J' {
        if joker {
            0
        } else {
            11
        }
    } else if c == 'Q' {
        12
    } else if c == 'K' {
        13
    } else if c == 'A' {
        14
    } else if '0' <= c && c <= '9' {
        (c as u32 - '0' as u32) as i32
    } else {
        0
    }
}

/// The index of the tally entry for card `c`, or -1.
pub open spec fn find_card(t: Seq<(i32, int)>, c: i32) -> int
    decreases t.len(),
{
    if t.len() == 0 {
        -1
    } else if t.last().0 == c {
        t.len() - 1
    } else {
        find_card(t.drop_last(), c)
    }
}

/// How often each card occurs, cards in order of first occurrence.
pub open spec fn tally(cards: Seq<i32>) -> Seq<(i32, int)>
    decreases cards.len(),
{
    if cards.len() == 0 {
        Seq::empty()
    } else {
        let t = tally(cards.drop_last());
        let c = cards.last();
        let i = find_card(t, c);
        if i >= 0 {
            t.update(i, (c, t[i].1 + 1))
        } else {
            t.push((c, 1))
        }
    }
}

/// The index of the first largest count.
pub open spec fn max_index(t: Seq<(i32, int)>) -> int
    decreases t.len(),
{
    if t.len() <= 1 {
        0
    } else {
        let m = max_index(t.drop_last());
        if t.last().1 > t[m].1 {
            t.len() - 1
        } else {
            m
        }
    }
}

/// The tally once the jokers (cards worth 0) join the most frequent other
/// card, or become aces where there is no other card.
pub open spec fn with_jokers(t: Seq<(i32, int)>) -> Seq<(i32, int)> {
    let j = find_card(t, 0);
    if j < 0 {
        t
    } else {
        let rest = t.remove(j);
        if rest.len() > 0 {
            let m = max_index(rest);
            rest.update(m, (rest[m].0, rest[m].1 + t[j].1))
        } else {
            seq![(14i32, t[j].1)]
        }
    }
}

pub open spec fn has_count(t: Seq<(i32, int)>, n: int) -> bool {
    exists|i: int| 0 <= i < t.len() && #[trigger] t[i].1 == n
}

pub open spec fn classify(t: Seq<(i32, int)>) -> HandType {
    if t.len() == 1 {
        HandType::FiveOfKind
    } else if t.len() == 2 {
        if has_count(t, 4) {
            HandType::FourOfKind
        } else {
            HandType::FullHouse
        }
    } else if t.len() == 3 {
        if has_count(t, 3) {
            HandType::ThreeOfKind
        } else {
            HandType::TwoPairs
        }
    } else if t.len() == 4 {
        HandType::OnePairs
    } else {
        HandType::HighCard
    }
}

pub open spec fn hand_type_of(cards: Seq<i32>) -> HandType {
    classify(with_jokers(tally(cards)))
}

pub proof fn lemma_find_card(t: Seq<(i32, int)>, c: i32)
    ensures
        -1 <= find_card(t, c) < t.len(),
        find_card(t, c) >= 0 ==> t[find_card(t, c)].0 == c,
    decreases t.len(),
{
    if t.len() > 0 {
        lemma_find_card(t.drop_last(), c);
    }
}

pub proof fn lemma_max_index(t: Seq<(i32, int)>)
    ensures
        t.len() > 0 ==> 0 <= max_index(t) < t.len(),
    decreases t.len(),
{
    if t.len() > 1 {
        lemma_max_index(t.drop_last());
    }
}

pub proof fn lemma_tally_bounds(cards: Seq<i32>)
    ensures
        tally(cards).len() <= cards.len(),
        forall|i: int| 0 <= i < tally(cards).len() ==> 1 <= #[trigger] tally(cards)[i].1 <= cards.len(),
    decreases cards.len(),
{
    if cards.len() > 0 {
        let t = tally(cards.drop_last());
        lemma_tally_bounds(cards.drop_last());
        lemma_find_card(t, cards.last());
    }
}

/// The index of the entry for `c`, or `None`.
fn find_card_exec(t: &Vec<(i32, u128)>, c: i32) -> (r: Option<usize>)
    ensures
        r is None ==> find_card(counts_view(t@), c) < 0,
        r matches Some(i) ==> i as int == find_card(counts_view(t@), c),
{
    let ghost tv = counts_view(t@);
    let mut i: usize = t.len();
    assert(tv.take(i as int) =~= tv);
    while i > 0
        invariant
            tv == counts_view(t@),
            i <= t.len(),
            find_card(tv, c) == find_card(tv.take(i as int), c),
        decreases i,
    {
        assert(tv.take(i as int).drop_last() =~= tv.take(i - 1));
        if t[i - 1].0 == c {
            return Some(i - 1);
        }
        i = i - 1;
    }
    None
}

pub open spec fn counts_view(t: Seq<(i32, u128)>) -> Seq<(i32, int)> {
    t.map_values(|p: (i32, u128)| (p.0, p.1 as int))
}

fn tally_exec(cards: &Vec<i32>) -> (r: Vec<(i32, u128)>)
    ensures
        counts_view(r@) == tally(cards@),
{
    let mut t: Vec<(i32, u128)> = Vec::new();
    let mut k: usize = 0;
    while k < cards.len()
        invariant
            k <= cards.len(),
            counts_view(t@) == tally(cards@.take(k as int)),
        decreases cards.len() - k,
    {
        let ghost tv = counts_view(t@);
        assert(cards@.take(k + 1).drop_last() =~= cards@.take(k as int));
        proof {
            lemma_tally_bounds(cards@.take(k as int));
            lemma_find_card(tv, cards@[k as int]);
        }
        let c = cards[k];
        match find_card_exec(&t, c) {
            Some(i) => {
                let n = t[i].1;
                assert(tv[i as int].1 <= k);
                t.set(i, (c, n + 1));
                assert(counts_view(t@) =~= tv.update(i as int, (c, tv[i as int].1 + 1)));
            },
            None => {
                t.push((c, 1));
                assert(counts_view(t@) =~= tv.push((c, 1)));
            },
        }
        k = k + 1;
    }
    assert(cards@.take(cards.len() as int) =~= cards@);
    t
}

impl HandType {
    /// The type of a hand; cards worth 0 are jokers that join the most
    /// frequent other card.
    pub fn from_cards(cards: &Vec<i32>) -> (r: Self)
        ensures
            r == hand_type_of(cards@),
    {
        let mut counting = tally_exec(cards);
        let ghost t0 = counts_view(counting@);
        proof {
            lemma_tally_bounds(cards@);
            lemma_find_card(t0, 0);
        }
        match find_card_exec(&counting, 0) {
            Some(j) => {
                let total_j = counting[j].1;
                counting.remove(j);
                assert(counts_view(counting@) =~= t0.remove(j as int));
                if counting.len() > 0 {
                    let ghost rest = counts_view(counting@);
                    let mut m: usize = 0;
                    let mut i: usize = 1;
                    assert(rest.take(1).drop_last() =~= rest.take(0));
                    while i < counting.len()
                        invariant
                            rest == counts_view(counting@),
                            1 <= i <= counting.len(),
                            m < i,
                            m as int == max_index(rest.take(i as int)),
                        decreases counting.len() - i,
                    {
                        assert(rest.take(i + 1).drop_last() =~= rest.take(i as int));
                        assert(rest.take(i + 1)[m as int] == rest[m as int]);
                        if counting[i].1 > counting[m].1 {
                            m = i;
                        }
                        i = i + 1;
                    }
                    assert(rest.take(counting.len() as int) =~= rest);
                    let (card, n) = counting[m];
                    let cl = cards.len();
                    assert(t0.remove(j as int)[m as int] == t0[if m < j { m as int } else { m + 1 }]);
                    assert(n <= cl && total_j <= cl);
                    counting.set(m, (card, n + total_j));
                    assert(counts_view(counting@) =~= rest.update(m as int, (rest[m as int].0, rest[m as int].1 + t0[j as int].1)));
                } else {
                    counting.push((14, total_j));
                    assert(counts_view(counting@) =~= seq![(14i32, t0[j as int].1)]);
                }
            },
            None => {},
        }
        classify_exec(&counting)
    }
}

fn classify_exec(t: &Vec<(i32, u128)>) -> (r: HandType)
    ensures
        r == classify(counts_view(t@)),
{
    let ghost tv = counts_view(t@);
    let n = t.len();
    if n == 1 {
        HandType::FiveOfKind
    } else if n == 2 || n == 3 {
        let want: u128 = if n == 2 {
            4
        } else {
            3
        };
        let mut i: usize = 0;
        while i < n
            invariant
                tv == counts_view(t@),
                n == t@.len(),
                n == 2 || n == 3,
                want == if n == 2 {
                    4u128
                } else {
                    3u128
                },
                i <= n,
                forall|k: int| 0 <= k < i ==> tv[k].1 != want,
            decreases n - i,
        {
            if t[i].1 == want {
                assert(tv[i as int].1 == want as int);
                assert(has_count(tv, want as int));
                return if n == 2 {
                    HandType::FourOfKind
                } else {
                    HandType::ThreeOfKind
                };
            }
            i = i + 1;
        }
        if n == 2 {
            HandType::FullHouse
        } else {
            HandType::TwoPairs
        }
    } else if n == 4 {
        HandType::OnePairs
    } else {
        HandType::HighCard
    }
}

pub fn get_card_value(letter: char) -> (r: i32)
    ensures
        r == card_value(letter, false),
{
    card_value_exec(letter, false)
}

pub fn get_card_value_with_joker(letter: char) -> (r: i32)
    ensures
        r == card_value(letter, true),
{
    card_value_exec(letter, true)
}

fn card_value_exec(c: char, joker: bool) -> (r: i32)
    ensures
        r == card_value(c, joker),
{
    if c == 'T' {
        10
    } else if c == 'J' {
        if joker {
            0
        } else {
            11
        }
    } else if c == 'Q' {
        12
    } else if c == 'K' {
        13
    } else if c == 'A' {
        14
    } else if '0' <= c && c <= '9' {
        (c as u32 - '0' as u32) as i32
    } else {
        0
    }
}

fn cards_exec(input: &Vec<char>, joker: bool) -> (r: Vec<i32>)
    ensures
        r@ == input@.map_values(|c: char| card_value(c, joker)),
{
    let mut r: Vec<i32> = Vec::new();
    let mut i: usize = 0;
    while i < input.len()
        invariant
            i <= input.len(),
            r@ == input@.take(i as int).map_values(|c: char| card_value(c, joker)),
        decreases input.len() - i,
    {
        r.push(card_value_exec(input[i], joker));
        i = i + 1;
        assert(r@ =~= input@.take(i as int).map_values(|c: char| card_value(c, joker)));
    }
    assert(input@.take(input.len() as int) =~= input@);
    r
}

/// The values of the cards of a hand.
pub fn parse_cards(input: &str) -> (r: Vec<i32>)
    ensures
        r@ == input@.map_values(|c: char| card_value(c, false)),
{
    cards_exec(&chars_of(input), false)
}

/// The values of the cards of a hand, `J` being a joker.
pub fn parse_cards_with_joker(input: &str) -> (r: Vec<i32>)
    ensures
        r@ == input@.map_values(|c: char| card_value(c, true)),
{
    cards_exec(&chars_of(input), true)
}

impl Hand {
    pub fn new(cards: Vec<i32>, bet: u128) -> (r: Self)
        ensures
            r.cards@ == cards@,
            r.bet == bet,
            r.hand_type == hand_type_of(cards@),
    {
        let hand_type = HandType::from_cards(&cards);
        Hand { hand_type, cards, bet }
    }
}

/// Card by card from the first: -1 where `x` is weaker, 1 where stronger, 0
/// where they agree as far as both go.
pub open spec fn cards_cmp(x: Seq<i32>, y: Seq<i32>) -> int
    decreases x.len(),
{
    if x.len() == 0 || y.len() == 0 {
        0
    } else if x[0] < y[0] {
        -1
    } else if x[0] > y[0] {
        1
    } else {
        cards_cmp(x.drop_first(), y.drop_first())
    }
}

pub open spec fn hand_view(h: Hand) -> (HandType, Seq<i32>, int) {
    (h.hand_type, h.cards@, h.bet as int)
}

pub open spec fn hands_view(hs: Seq<Hand>) -> Seq<(HandType, Seq<i32>, int)> {
    hs.map_values(|h: Hand| hand_view(h))
}

/// Hand `i` ranks below hand `j`: by type, then card by card, then, for equal
/// hands, by their order in the input.
pub open spec fn ranks_below(hs: Seq<(HandType, Seq<i32>, int)>, i: int, j: int) -> bool {
    let a = hs[i];
    let b = hs[j];
    rank_of(a.0) < rank_of(b.0) || (rank_of(a.0) == rank_of(b.0) && (cards_cmp(a.1, b.1) < 0 || (
    cards_cmp(a.1, b.1) == 0 && i < j)))
}

/// How many of the first `k` hands rank below hand `i`.
pub open spec fn count_below(hs: Seq<(HandType, Seq<i32>, int)>, i: int, k: int) -> int
    decreases k,
{
    if k <= 0 {
        0
    } else {
        count_below(hs, i, k - 1) + if ranks_below(hs, k - 1, i) {
            1int
        } else {
            0int
        }
    }
}

/// The rank of hand `i`: 1 for the weakest.
pub open spec fn hand_rank(hs: Seq<(HandType, Seq<i32>, int)>, i: int) -> int {
    1 + count_below(hs, i, hs.len() as int)
}

/// The sum of bet times rank over the first `k` hands.
pub open spec fn winnings(hs: Seq<(HandType, Seq<i32>, int)>, k: int) -> int
    decreases k,
{
    if k <= 0 {
        0
    } else {
        winnings(hs, k - 1) + hand_rank(hs, k - 1) * hs[k - 1].2
    }
}

/// `<cards> <bet>`: the first word, and the second as a number.
pub open spec fn hand_line(line: Seq<char>) -> Option<(Seq<char>, int)> {
    let w = split_spec(line, ' ');
    if w.len() >= 2 && w[1].len() > 0 && all_digits(w[1]) && digits_value(w[1]) <= u128::MAX {
        Some((w[0], digits_value(w[1])))
    } else {
        None
    }
}

pub open spec fn hands_of(g: Seq<Seq<char>>, joker: bool) -> Option<Seq<(HandType, Seq<i32>, int)>> {
    if forall|i: int| 0 <= i < g.len() ==> (#[trigger] hand_line(g[i])) is Some {
        Some(
            g.map_values(
                |l: Seq<char>|
                    {
                        let (text, bet) = hand_line(l)->Some_0;
                        let cards = text.map_values(|c: char| card_value(c, joker));
                        (hand_type_of(cards), cards, bet)
                    },
            ),
        )
    } else {
        None
    }
}

/// The total winnings of an input; `None` where a line is no hand.
pub open spec fn total_of(g: Seq<Seq<char>>, joker: bool) -> Option<int> {
    match hands_of(g, joker) {
        Some(hs) => Some(winnings(hs, hs.len() as int)),
        None => None,
    }
}

pub fn cards_compare(x: &Vec<i32>, y: &Vec<i32>) -> (r: i8)
    ensures
        r as int == cards_cmp(x@, y@),
{
    let mut i: usize = 0;
    assert(x@.skip(0) =~= x@ && y@.skip(0) =~= y@);
    while i < x.len() && i < y.len()
        invariant
            i <= x.len(),
            i <= y.len(),
            cards_cmp(x@, y@) == cards_cmp(x@.skip(i as int), y@.skip(i as int)),
        decreases x.len() - i,
    {
        assert(x@.skip(i as int).drop_first() =~= x@.skip(i + 1));
        assert(y@.skip(i as int).drop_first() =~= y@.skip(i + 1));
        assert(x@.skip(i as int)[0] == x@[i as int]);
        assert(y@.skip(i as int)[0] == y@[i as int]);
        if x[i] < y[i] {
            return -1;
        }
        if x[i] > y[i] {
            return 1;
        }
        i = i + 1;
    }
    0
}

fn rank_exec(t: HandType) -> (r: u8)
    ensures
        r as int == rank_of(t),
{
    match t {
        HandType::HighCard => 1,
        HandType::OnePairs => 2,
        HandType::TwoPairs => 3,
        HandType::ThreeOfKind => 4,
        HandType::FullHouse => 5,
        HandType::FourOfKind => 6,
        HandType::FiveOfKind => 7,
    }
}

/// How two hands compare: by type, then card by card; the bets play no part.
/// -1 where `a` is weaker, 1 where stronger, 0 where they tie.
pub open spec fn hand_order(a: (HandType, Seq<i32>), b: (HandType, Seq<i32>)) -> int {
    if rank_of(a.0) < rank_of(b.0) {
        -1
    } else if rank_of(a.0) > rank_of(b.0) {
        1
    } else {
        cards_cmp(a.1, b.1)
    }
}

impl Hand {
    /// How this hand compares with `other`, by type, then card by card.
    pub fn compare(&self, other: &Hand) -> (r: i8)
        ensures
            r as int == hand_order((self.hand_type, self.cards@), (other.hand_type, other.cards@)),
    {
        let a = rank_exec(self.hand_type);
        let b = rank_exec(other.hand_type);
        if a < b {
            -1
        } else if a > b {
            1
        } else {
            cards_compare(&self.cards, &other.cards)
        }
    }
}

fn ranks_below_exec(hands: &Vec<Hand>, i: usize, j: usize) -> (r: bool)
    requires
        i < hands@.len(),
        j < hands@.len(),
    ensures
        r == ranks_below(hands_view(hands@), i as int, j as int),
{
    let a = rank_exec(hands[i].hand_type);
    let b = rank_exec(hands[j].hand_type);
    if a != b {
        return a < b;
    }
    let c = cards_compare(&hands[i].cards, &hands[j].cards);
    c < 0 || (c == 0 && i < j)
}

pub proof fn lemma_winnings_grow(hs: Seq<(HandType, Seq<i32>, int)>, k: int, n: int)
    requires
        0 <= k <= n <= hs.len(),
        forall|i: int| 0 <= i < hs.len() ==> (#[trigger] hs[i]).2 >= 0,
    ensures
        winnings(hs, k) <= winnings(hs, n),
        winnings(hs, k) >= 0,
    decreases n,
{
    if n > 0 {
        if k < n {
            lemma_winnings_grow(hs, k, n - 1);
        } else {
            lemma_winnings_grow(hs, 0, n - 1);
        }
        lemma_count_nonneg(hs, n - 1, hs.len() as int);
        assert(hand_rank(hs, n - 1) * hs[n - 1].2 >= 0) by (nonlinear_arith)
            requires
                hand_rank(hs, n - 1) >= 1,
                hs[n - 1].2 >= 0,
        ;
    }
}

pub proof fn lemma_count_nonneg(hs: Seq<(HandType, Seq<i32>, int)>, i: int, k: int)
    ensures
        0 <= count_below(hs, i, k) <= if k > 0 {
            k
        } else {
            0
        },
    decreases k,
{
    if k > 0 {
        lemma_count_nonneg(hs, i, k - 1);
    }
}

/// The sum of bet times rank over all hands; `None` where it does not fit.
pub fn total_winnings(hands: &Vec<Hand>) -> (r: Option<u128>)
    ensures
        r is Some <==> winnings(hands_view(hands@), hands@.len() as int) <= u128::MAX,
        r matches Some(v) ==> v == winnings(hands_view(hands@), hands@.len() as int),
{
    let ghost hs = hands_view(hands@);
    let n = hands.len();
    assert forall|i: int| 0 <= i < hs.len() implies (#[trigger] hs[i]).2 >= 0 by {}
    let mut total: u128 = 0;
    let mut i: usize = 0;
    while i < n
        invariant
            hs == hands_view(hands@),
            n == hs.len(),
            forall|k: int| 0 <= k < hs.len() ==> (#[trigger] hs[k]).2 >= 0,
            i <= n,
            total == winnings(hs, i as int),
        decreases n - i,
    {
        let mut below: u128 = 0;
        let mut k: usize = 0;
        while k < n
            invariant
                hs == hands_view(hands@),
                n == hs.len(),
                i < n,
                k <= n,
                below == count_below(hs, i as int, k as int),
                below <= k,
            decreases n - k,
        {
            if ranks_below_exec(hands, k, i) {
                below = below + 1;
            }
            k = k + 1;
        }
        let rank = below + 1;
        assert(rank == hand_rank(hs, i as int));
        proof {
            lemma_winnings_grow(hs, i as int + 1, n as int);
        }
        let gain = match rank.checked_mul(hands[i].bet) {
            Some(g) => g,
            None => {
                return None;
            },
        };
        if total > u128::MAX - gain {
            return None;
        }
        total = total + gain;
        i = i + 1;
    }
    Some(total)
}

fn hands_from(lines: &Vec<&str>, joker: bool) -> (r: Option<Vec<Hand>>)
    ensures
        r is Some <==> hands_of(lines_view(lines@), joker) is Some,
        r matches Some(v) ==> hands_of(lines_view(lines@), joker) == Some(hands_view(v@)),
{
    let ghost g = lines_view(lines@);
    let mut hands: Vec<Hand> = Vec::new();
    let mut i: usize = 0;
    while i < lines.len()
        invariant
            g == lines_view(lines@),
            i <= lines.len(),
            hands@.len() == i,
            forall|k: int| 0 <= k < i ==> (#[trigger] hand_line(g[k])) is Some,
            forall|k: int| 0 <= k < i ==> #[trigger] hand_view(hands@[k]) == {
                let (text, bet) = hand_line(g[k])->Some_0;
                let cards = text.map_values(|c: char| card_value(c, joker));
                (hand_type_of(cards), cards, bet)
            },
        decreases lines.len() - i,
    {
        let s = chars_of(lines[i]);
        assert(g[i as int] == lines@[i as int]@);
        let values = split_by(&s, ' ');
        let ghost ws = values@.map_values(|w: Vec<char>| w@);
        proof {
            crate::text::lemma_split_nonempty(s@, ' ');
        }
        if values.len() < 2 {
            assert(hand_line(g[i as int]) is None);
            return None;
        }
        assert(ws[0] == values@[0]@ && ws[1] == values@[1]@);
        let bet = match parse_unsigned(&values[1]) {
            Some(b) => b,
            None => {
                assert(hand_line(g[i as int]) is None);
                return None;
            },
        };
        let cards = cards_exec(&values[0], joker);
        hands.push(Hand::new(cards, bet));
        i = i + 1;
    }
    let ghost hv = hands_view(hands@);
    assert(hv =~= hands_of(g, joker)->Some_0);
    Some(hands)
}

/// The hands of an input.
pub fn parse_input(lines: &Vec<&str>) -> (r: Option<Vec<Hand>>)
    ensures
        r is Some <==> hands_of(lines_view(lines@), false) is Some,
        r matches Some(v) ==> hands_of(lines_view(lines@), false) == Some(hands_view(v@)),
{
    hands_from(lines, false)
}

/// The hands of an input, `J` being a joker.
pub fn parse_input_with_joker(lines: &Vec<&str>) -> (r: Option<Vec<Hand>>)
    ensures
        r is Some <==> hands_of(lines_view(lines@), true) is Some,
        r matches Some(v) ==> hands_of(lines_view(lines@), true) == Some(hands_view(v@)),
{
    hands_from(lines, true)
}

pub struct Day07 {}

impl Day07 {
    /// Solves both parts on the text of a puzzle input, with the time each
    /// took; `None` where either part has no answer.
    pub fn run(input: &str) -> (r: Option<(String, String, String, u128, u128)>)
        ensures
            r matches Some(t) ==> t.0@ == "Day_07"@ && (total_of(lines_spec(input@), false) matches Some(a) && t.1@ == decimal_of(a)) && (total_of(lines_spec(input@), true) matches Some(b) && t.2@ == decimal_of(b)),
            r is None ==> total_of(lines_spec(input@), false) is None || total_of(lines_spec(input@), true) is None || total_of(lines_spec(input@), false)->Some_0 > u128::MAX || total_of(lines_spec(input@), true)->Some_0 > u128::MAX,
    {
        let lines = split_lines(input);
        let start_1 = start_clock();
        let result_1 = Day07::part_01(&lines);
        let time_calculation_1 = elapsed_since(&start_1);
        let start_2 = start_clock();
        let result_2 = Day07::part_02(&lines);
        let time_calculation_2 = elapsed_since(&start_2);
        match (result_1, result_2) {
            (Some(a), Some(b)) => Some(
                (
                    "Day_07".to_owned(),
                    decimal_u128(a),
                    decimal_u128(b),
                    nanos_of(&time_calculation_1),
                    nanos_of(&time_calculation_2),
                ),
            ),
            _ => None,
        }
    }

    /// The total winnings.
    pub fn part_01(lines: &Vec<&str>) -> (r: Option<u128>)
        ensures
            r matches Some(v) ==> total_of(lines_view(lines@), false) == Some(v as int),
            r is None ==> (total_of(lines_view(lines@), false) matches Some(t) ==> t > u128::MAX),
    {
        match parse_input(lines) {
            Some(hands) => total_winnings(&hands),
            None => None,
        }
    }

    /// The total winnings, `J` being a joker.
    pub fn part_02(lines: &Vec<&str>) -> (r: Option<u128>)
        ensures
            r matches Some(v) ==> total_of(lines_view(lines@), true) == Some(v as int),
            r is None ==> (total_of(lines_view(lines@), true) matches Some(t) ==> t > u128::MAX),
    {
        match parse_input_with_joker(lines) {
            Some(hands) => total_winnings(&hands),
            None => None,
        }
    }
}

} // verus!
