//! Text helpers shared by the puzzle solutions: character access, splitting
//! on a separator and decimal numbers.
use vstd::prelude::*;

verus! {

pub open spec fn is_digit(c: char) -> bool {
    '0' <= c && c <= '9'
}

pub open spec fn digit_of(c: char) -> int {
    c as int - '0' as int
}

pub open spec fn all_digits(s: Seq<char>) -> bool {
    forall|i: int| 0 <= i < s.len() ==> is_digit(#[trigger] s[i])
}

/// The value of a run of decimal digits, most significant first.
pub open spec fn digits_value(s: Seq<char>) -> int
    decreases s.len(),
{
    if s.len() == 0 {
        0
    } else {
        digits_value(s.drop_last()) * 10 + digit_of(s.last())
    }
}

/// A decimal number with an optional sign, as `str::parse` reads it.
pub open spec fn signed_value(s: Seq<char>) -> Option<int> {
    if s.len() > 0 && (s[0] == '-' || s[0] == '+') {
        let rest = s.drop_first();
        if rest.len() > 0 && all_digits(rest) {
            if s[0] == '-' {
                Some(-digits_value(rest))
            } else {
                Some(digits_value(rest))
            }
        } else {
            None
        }
    } else if s.len() > 0 && all_digits(s) {
        Some(digits_value(s))
    } else {
        None
    }
}

/// The pieces of `s` between occurrences of `sep`; as many pieces as there are
/// separators, plus one.
pub open spec fn split_spec(s: Seq<char>, sep: char) -> Seq<Seq<char>>
    decreases s.len(),
{
    if s.len() == 0 {
        seq![Seq::empty()]
    } else {
        let prev = split_spec(s.drop_last(), sep);
        if s.last() == sep {
            prev.push(Seq::empty())
        } else {
            prev.update(prev.len() - 1, prev.last().push(s.last()))
        }
    }
}

pub proof fn lemma_split_nonempty(s: Seq<char>, sep: char)
    ensures
        split_spec(s, sep).len() >= 1,
    decreases s.len(),
{
    if s.len() > 0 {
        lemma_split_nonempty(s.drop_last(), sep);
    }
}

pub proof fn lemma_digits_value_nonneg(s: Seq<char>)
    requires
        all_digits(s),
    ensures
        digits_value(s) >= 0,
    decreases s.len(),
{
    if s.len() > 0 {
        lemma_digits_value_nonneg(s.drop_last());
    }
}

/// A longer run of digits is worth at least as much as its prefix.
pub proof fn lemma_digits_value_prefix(s: Seq<char>, k: int)
    requires
        all_digits(s),
        0 <= k <= s.len(),
    ensures
        digits_value(s.take(k)) <= digits_value(s),
    decreases s.len(),
{
    if k < s.len() {
        let p = s.drop_last();
        assert(p.take(k) =~= s.take(k));
        lemma_digits_value_prefix(p, k);
        lemma_digits_value_nonneg(p);
    } else {
        assert(s.take(k) =~= s);
    }
}

/// The characters of a string, in order.
pub fn chars_of(s: &str) -> (r: Vec<char>)
    ensures
        r@ == s@,
{
    let n = s.unicode_len();
    let mut r: Vec<char> = Vec::new();
    let mut i: usize = 0;
    while i < n
        invariant
            n == s@.len(),
            i <= n,
            r@ == s@.take(i as int),
        decreases n - i,
    {
        r.push(s.get_char(i));
        i = i + 1;
        assert(r@ =~= s@.take(i as int));
    }
    assert(r@ =~= s@);
    r
}

/// Splits `s` at every occurrence of `sep`.
pub fn split_by(s: &Vec<char>, sep: char) -> (r: Vec<Vec<char>>)
    ensures
        r@.map_values(|w: Vec<char>| w@) == split_spec(s@, sep),
{
    let mut parts: Vec<Vec<char>> = Vec::new();
    let mut cur: Vec<char> = Vec::new();
    let mut i: usize = 0;
    while i < s.len()
        invariant
            i <= s.len(),
            parts@.map_values(|w: Vec<char>| w@).push(cur@) == split_spec(
                s@.take(i as int),
                sep,
            ),
        decreases s.len() - i,
    {
        let c = s[i];
        let ghost before = parts@.map_values(|w: Vec<char>| w@).push(cur@);
        assert(s@.take(i + 1).drop_last() =~= s@.take(i as int));
        if c == sep {
            let done = cur;
            parts.push(done);
            cur = Vec::new();
            assert(parts@.map_values(|w: Vec<char>| w@).push(cur@) =~= before.push(Seq::empty()));
        } else {
            cur.push(c);
            assert(parts@.map_values(|w: Vec<char>| w@).push(cur@) =~= before.update(
                before.len() - 1,
                before.last().push(c),
            ));
        }
        i = i + 1;
    }
    assert(s@.take(s.len() as int) =~= s@);
    parts.push(cur);
    assert(parts@.map_values(|w: Vec<char>| w@) =~= split_spec(s@, sep));
    parts
}

/// Reads a run of decimal digits; `None` when `s` is empty, holds another
/// character, or its value does not fit.
pub fn parse_unsigned(s: &Vec<char>) -> (r: Option<u128>)
    ensures
        r is Some <==> s@.len() > 0 && all_digits(s@) && digits_value(s@) <= u128::MAX,
        r matches Some(v) ==> v as int == digits_value(s@),
{
    if s.len() == 0 {
        return None;
    }
    let mut acc: u128 = 0;
    let mut i: usize = 0;
    while i < s.len()
        invariant
            i <= s.len(),
            all_digits(s@.take(i as int)),
            acc as int == digits_value(s@.take(i as int)),
        decreases s.len() - i,
    {
        let c = s[i];
        assert(s@.take(i + 1).drop_last() =~= s@.take(i as int));
        if !('0' <= c && c <= '9') {
            assert(!is_digit(s@[i as int]));
            return None;
        }
        let d = (c as u32 - '0' as u32) as u128;
        if acc > (u128::MAX - d) / 10 {
            proof {
                assert(all_digits(s@.take(i + 1)));
                if all_digits(s@) {
                    lemma_digits_value_prefix(s@, i + 1);
                }
            }
            return None;
        }
        acc = acc * 10 + d;
        i = i + 1;
        assert(all_digits(s@.take(i as int)));
    }
    assert(s@.take(s.len() as int) =~= s@);
    Some(acc)
}

/// Reads a decimal number with an optional leading `-` or `+`, as
/// `str::parse::<i128>` does; `None` when the text is no such number or the
/// value does not fit.
pub fn parse_signed(s: &Vec<char>) -> (r: Option<i128>)
    ensures
        r is Some <==> (signed_value(s@) matches Some(v) && i128::MIN <= v <= i128::MAX),
        r matches Some(v) ==> signed_value(s@) == Some(v as int),
{
    if s.len() > 0 && (s[0] == '-' || s[0] == '+') {
        let mut rest: Vec<char> = Vec::new();
        let mut i: usize = 1;
        while i < s.len()
            invariant
                1 <= i <= s.len(),
                rest@ == s@.subrange(1, i as int),
            decreases s.len() - i,
        {
            rest.push(s[i]);
            i = i + 1;
            assert(rest@ =~= s@.subrange(1, i as int));
        }
        assert(rest@ =~= s@.drop_first());
        let m = parse_unsigned(&rest);
        match m {
            None => {
                proof {
                    if rest@.len() > 0 && all_digits(rest@) {
                        lemma_digits_value_nonneg(rest@);
                    }
                }
                None
            },
            Some(v) => {
                proof {
                    lemma_digits_value_nonneg(rest@);
                }
                if s[0] == '-' {
                    if v <= 170141183460469231731687303715884105727u128 {
                        Some(-(v as i128))
                    } else if v == 170141183460469231731687303715884105728u128 {
                        Some(i128::MIN)
                    } else {
                        None
                    }
                } else {
                    if v <= 170141183460469231731687303715884105727u128 {
                        Some(v as i128)
                    } else {
                        None
                    }
                }
            },
        }
    } else {
        let m = parse_unsigned(s);
        match m {
            None => {
                proof {
                    if s@.len() > 0 && all_digits(s@) {
                        lemma_digits_value_nonneg(s@);
                    }
                }
                None
            },
            Some(v) => {
                proof {
                    lemma_digits_value_nonneg(s@);
                }
                if v <= 170141183460469231731687303715884105727u128 {
                    Some(v as i128)
                } else {
                    None
                }
            },
        }
    }
}

pub open spec fn lines_view(lines: Seq<&str>) -> Seq<Seq<char>> {
    lines.map_values(|l: &str| l@)
}

/// The lines of a text, as `str::lines` gives them for text without `\r`:
/// a final newline ends the last line rather than starting an empty one.
pub open spec fn lines_spec(s: Seq<char>) -> Seq<Seq<char>> {
    if s.len() == 0 {
        Seq::empty()
    } else if s.last() == '\n' {
        split_spec(s.drop_last(), '\n')
    } else {
        split_spec(s, '\n')
    }
}

/// Splits a text into its lines.
pub fn split_lines(s: &str) -> (r: Vec<&str>)
    ensures
        lines_view(r@) == lines_spec(s@),
{
    let cs = chars_of(s);
    let mut n = cs.len();
    if n == 0 {
        let r: Vec<&str> = Vec::new();
        assert(lines_view(r@) =~= lines_spec(s@));
        return r;
    }
    if cs[n - 1] == '\n' {
        n = n - 1;
        assert(s@.take(n as int) =~= s@.drop_last());
    } else {
        assert(s@.take(n as int) =~= s@);
    }
    let mut parts: Vec<&str> = Vec::new();
    let mut start: usize = 0;
    let mut i: usize = 0;
    assert(s@.take(0) =~= Seq::<char>::empty());
    assert(lines_view(parts@).push(s@.subrange(0, 0)) =~= split_spec(s@.take(0), '\n'));
    while i < n
        invariant
            cs@ == s@,
            n <= s@.len(),
            start <= i <= n,
            lines_view(parts@).push(s@.subrange(start as int, i as int)) == split_spec(
                s@.take(i as int),
                '\n',
            ),
        decreases n - i,
    {
        let ghost before = lines_view(parts@).push(s@.subrange(start as int, i as int));
        assert(s@.take(i + 1).drop_last() =~= s@.take(i as int));
        let ghost prev = lines_view(parts@);
        if cs[i] == '\n' {
            let piece = s.substring_char(start, i);
            parts.push(piece);
            assert(lines_view(parts@) =~= prev.push(s@.subrange(start as int, i as int)));
            start = i + 1;
            assert(s@.subrange(start as int, i + 1) =~= Seq::<char>::empty());
            assert(lines_view(parts@).push(s@.subrange(start as int, i + 1)) =~= before.push(
                Seq::empty(),
            ));
        } else {
            assert(s@.subrange(start as int, i + 1) =~= s@.subrange(start as int, i as int).push(
                s@[i as int],
            ));
            assert(lines_view(parts@).push(s@.subrange(start as int, i + 1)) =~= before.update(
                before.len() - 1,
                before.last().push(cs@[i as int]),
            ));
        }
        i = i + 1;
    }
    let piece = s.substring_char(start, n);
    parts.push(piece);
    assert(lines_view(parts@) =~= split_spec(s@.take(n as int), '\n'));
    parts
}

/// `p` is the first position of `c` in `s`.
pub open spec fn is_first(s: Seq<char>, c: char, p: int) -> bool {
    &&& 0 <= p < s.len()
    &&& s[p] == c
    &&& forall|j: int| 0 <= j < p ==> s[j] != c
}

pub open spec fn has_char(s: Seq<char>, c: char) -> bool {
    exists|p: int| is_first(s, c, p)
}

/// The first position of `c` in `s`, where `has_char(s, c)`.
pub open spec fn first_of(s: Seq<char>, c: char) -> int {
    choose|p: int| is_first(s, c, p)
}

pub proof fn lemma_first_unique(s: Seq<char>, c: char, p: int)
    requires
        is_first(s, c, p),
    ensures
        has_char(s, c),
        first_of(s, c) == p,
{
    let q = first_of(s, c);
    assert(is_first(s, c, q));
    if q < p {
        assert(s[q] != c);
    }
    if p < q {
        assert(s[p] != c);
    }
}

/// The first position of `c` in `s`, if any.
pub fn find_first(s: &Vec<char>, c: char) -> (r: Option<usize>)
    ensures
        r is Some <==> has_char(s@, c),
        r matches Some(p) ==> p == first_of(s@, c) && is_first(s@, c, p as int),
{
    let mut i: usize = 0;
    while i < s.len()
        invariant
            i <= s.len(),
            forall|j: int| 0 <= j < i ==> s@[j] != c,
        decreases s.len() - i,
    {
        if s[i] == c {
            proof {
                lemma_first_unique(s@, c, i as int);
            }
            return Some(i);
        }
        i = i + 1;
    }
    assert(!has_char(s@, c)) by {
        if has_char(s@, c) {
            let p = choose|p: int| is_first(s@, c, p);
            assert(s@[p] == c);
        }
    }
    None
}

/// `s` with every `c` left out.
pub open spec fn without(s: Seq<char>, c: char) -> Seq<char>
    decreases s.len(),
{
    if s.len() == 0 {
        s
    } else if s.last() == c {
        without(s.drop_last(), c)
    } else {
        without(s.drop_last(), c).push(s.last())
    }
}

pub fn remove_char(s: &Vec<char>, c: char) -> (r: Vec<char>)
    ensures
        r@ == without(s@, c),
{
    let mut r: Vec<char> = Vec::new();
    let mut i: usize = 0;
    while i < s.len()
        invariant
            i <= s.len(),
            r@ == without(s@.take(i as int), c),
        decreases s.len() - i,
    {
        assert(s@.take(i + 1).drop_last() =~= s@.take(i as int));
        if s[i] != c {
            r.push(s[i]);
        }
        i = i + 1;
    }
    assert(s@.take(s.len() as int) =~= s@);
    r
}

/// The characters of `s` from `from` on.
pub fn tail_from(s: &Vec<char>, from: usize) -> (r: Vec<char>)
    requires
        from <= s@.len(),
    ensures
        r@ == s@.skip(from as int),
{
    let mut r: Vec<char> = Vec::new();
    let mut i: usize = from;
    while i < s.len()
        invariant
            from <= i <= s.len(),
            r@ == s@.subrange(from as int, i as int),
        decreases s.len() - i,
    {
        r.push(s[i]);
        i = i + 1;
        assert(r@ =~= s@.subrange(from as int, i as int));
    }
    assert(r@ =~= s@.skip(from as int));
    r
}

/// The first `n` characters of `s`.
pub fn head_upto(s: &Vec<char>, n: usize) -> (r: Vec<char>)
    requires
        n <= s@.len(),
    ensures
        r@ == s@.take(n as int),
{
    let mut r: Vec<char> = Vec::new();
    let mut i: usize = 0;
    while i < n
        invariant
            i <= n <= s@.len(),
            r@ == s@.take(i as int),
        decreases n - i,
    {
        r.push(s[i]);
        i = i + 1;
        assert(r@ =~= s@.take(i as int));
    }
    r
}

/// The numbers among the pieces that lie in `lo..=hi`, skipping the pieces
/// that are no number.
pub open spec fn numbers_within(pieces: Seq<Seq<char>>, lo: int, hi: int) -> Seq<int>
    decreases pieces.len(),
{
    if pieces.len() == 0 {
        Seq::empty()
    } else {
        let p = numbers_within(pieces.drop_last(), lo, hi);
        match signed_value(pieces.last()) {
            Some(v) => if lo <= v <= hi {
                p.push(v)
            } else {
                p
            },
            None => p,
        }
    }
}

pub open spec fn i32s_view(v: Seq<i32>) -> Seq<int> {
    v.map_values(|x: i32| x as int)
}

/// The `i32` numbers of a text, separated by single spaces; pieces that are no
/// such number are skipped, as `str::parse::<i32>` would refuse them.
pub fn parse_i32_list(s: &Vec<char>) -> (r: Vec<i32>)
    ensures
        i32s_view(r@) == numbers_within(split_spec(s@, ' '), i32::MIN as int, i32::MAX as int),
{
    let pieces = split_by(s, ' ');
    let ghost ps = pieces@.map_values(|w: Vec<char>| w@);
    let mut r: Vec<i32> = Vec::new();
    let mut i: usize = 0;
    while i < pieces.len()
        invariant
            ps == pieces@.map_values(|w: Vec<char>| w@),
            ps == split_spec(s@, ' '),
            i <= pieces.len(),
            i32s_view(r@) == numbers_within(ps.take(i as int), i32::MIN as int, i32::MAX as int),
        decreases pieces.len() - i,
    {
        assert(ps.take(i + 1).drop_last() =~= ps.take(i as int));
        assert(ps[i as int] == pieces@[i as int]@);
        match parse_signed(&pieces[i]) {
            Some(v) => {
                if i32::MIN as i128 <= v && v <= i32::MAX as i128 {
                    r.push(v as i32);
                    assert(i32s_view(r@) =~= numbers_within(
                        ps.take(i as int),
                        i32::MIN as int,
                        i32::MAX as int,
                    ).push(v as int));
                }
            },
            None => {},
        }
        i = i + 1;
    }
    assert(ps.take(pieces.len() as int) =~= ps);
    r
}

/// Whether two texts are the same.
pub fn same_chars(a: &Vec<char>, b: &Vec<char>) -> (r: bool)
    ensures
        r == (a@ == b@),
{
    if a.len() != b.len() {
        return false;
    }
    let mut i: usize = 0;
    while i < a.len()
        invariant
            a@.len() == b@.len(),
            i <= a.len(),
            forall|j: int| 0 <= j < i ==> a@[j] == b@[j],
        decreases a.len() - i,
    {
        if a[i] != b[i] {
            return false;
        }
        i = i + 1;
    }
    assert(a@ =~= b@);
    true
}

pub fn copy_chars(a: &Vec<char>) -> (r: Vec<char>)
    ensures
        r@ == a@,
{
    let mut r: Vec<char> = Vec::new();
    let mut i: usize = 0;
    while i < a.len()
        invariant
            i <= a.len(),
            r@ == a@.take(i as int),
        decreases a.len() - i,
    {
        r.push(a[i]);
        i = i + 1;
        assert(r@ =~= a@.take(i as int));
    }
    assert(a@.take(a.len() as int) =~= a@);
    r
}

/// Relies on `String`'s `FromIterator<char>`: the characters, in order.
#[verifier::external_body]
pub(crate) fn string_of(v: &Vec<char>) -> (r: String)
    ensures
        r@ == v@,
{
    v.iter().collect()
}

/// The pieces that are not empty.
pub open spec fn nonempty(ps: Seq<Seq<char>>) -> Seq<Seq<char>>
    decreases ps.len(),
{
    if ps.len() == 0 {
        ps
    } else if ps.last().len() == 0 {
        nonempty(ps.drop_last())
    } else {
        nonempty(ps.drop_last()).push(ps.last())
    }
}

pub open spec fn words(s: Seq<char>) -> Seq<Seq<char>> {
    nonempty(split_spec(s, ' '))
}

pub open spec fn chars_views(v: Seq<Vec<char>>) -> Seq<Seq<char>> {
    v.map_values(|w: Vec<char>| w@)
}

/// The words of a text: its pieces between spaces that are not empty.
pub fn words_exec(s: &Vec<char>) -> (r: Vec<Vec<char>>)
    ensures
        chars_views(r@) == words(s@),
{
    let mut pieces = split_by(s, ' ');
    let ghost ps = pieces@.map_values(|w: Vec<char>| w@);
    let mut r: Vec<Vec<char>> = Vec::new();
    let mut i: usize = 0;
    while i < pieces.len()
        invariant
            ps == pieces@.map_values(|w: Vec<char>| w@),
            ps == split_spec(s@, ' '),
            i <= pieces.len(),
            chars_views(r@) == nonempty(ps.take(i as int)),
        decreases pieces.len() - i,
    {
        assert(ps.take(i + 1).drop_last() =~= ps.take(i as int));
        assert(ps[i as int] == pieces@[i as int]@);
        if pieces[i].len() > 0 {
            let ghost prev = chars_views(r@);
            let w = copy_chars(&pieces[i]);
            r.push(w);
            assert(chars_views(r@) =~= prev.push(ps[i as int]));
        }
        i = i + 1;
    }
    assert(ps.take(pieces.len() as int) =~= ps);
    r
}

/// `s` with every occurrence of `p` left out, scanning from the front as
/// `str::replace(p, "")` does.
pub open spec fn remove_all(s: Seq<char>, p: Seq<char>) -> Seq<char>
    recommends
        p.len() > 0,
    decreases s.len(),
{
    if s.len() == 0 || p.len() == 0 {
        s
    } else if s.len() >= p.len() && s.take(p.len() as int) == p {
        remove_all(s.skip(p.len() as int), p)
    } else {
        seq![s[0]] + remove_all(s.drop_first(), p)
    }
}

/// Whether `p` occurs in `s` at `i`.
fn occurs_at(s: &Vec<char>, p: &Vec<char>, i: usize) -> (r: bool)
    requires
        i <= s@.len(),
    ensures
        r == (s@.len() - i >= p@.len() && s@.skip(i as int).take(p@.len() as int) == p@),
{
    if s.len() - i < p.len() {
        return false;
    }
    let mut k: usize = 0;
    while k < p.len()
        invariant
            i + p.len() <= s.len(),
            k <= p@.len(),
            forall|j: int| 0 <= j < k ==> s@[i + j] == p@[j],
        decreases p.len() - k,
    {
        if s[i + k] != p[k] {
            assert(s@.skip(i as int).take(p@.len() as int)[k as int] != p@[k as int]);
            return false;
        }
        k = k + 1;
    }
    assert(s@.skip(i as int).take(p@.len() as int) =~= p@);
    true
}

/// Leaves out every occurrence of `p`, scanning from the front.
pub fn remove_text(s: &Vec<char>, p: &Vec<char>) -> (r: Vec<char>)
    requires
        p@.len() > 0,
    ensures
        r@ == remove_all(s@, p@),
{
    let mut r: Vec<char> = Vec::new();
    let mut i: usize = 0;
    assert(s@.skip(0) =~= s@);
    while i < s.len()
        invariant
            p@.len() > 0,
            i <= s@.len(),
            remove_all(s@, p@) == r@ + remove_all(s@.skip(i as int), p@),
        decreases s.len() - i,
    {
        let ghost t = s@.skip(i as int);
        if occurs_at(s, p, i) {
            assert(t.skip(p@.len() as int) =~= s@.skip(i + p@.len()));
            i = i + p.len();
        } else {
            assert(t.drop_first() =~= s@.skip(i + 1));
            assert(t[0] == s@[i as int]);
            let ghost before = r@;
            r.push(s[i]);
            assert(r@ =~= before + seq![t[0]]);
            assert(before + (seq![t[0]] + remove_all(t.drop_first(), p@)) =~= r@ + remove_all(t.drop_first(), p@));
            i = i + 1;
        }
    }
    assert(s@.skip(i as int) =~= Seq::<char>::empty());
    assert(r@ + Seq::<char>::empty() =~= r@);
    r
}

pub uninterp spec fn lower_of(s: Seq<char>) -> Seq<char>;

/// Relies on `str::to_lowercase`: the lower-case form depends on the text
/// alone.
#[verifier::external_body]
pub(crate) fn lowercase(s: &Vec<char>) -> (r: Vec<char>)
    ensures
        r@ == lower_of(s@),
{
    let t: String = s.iter().collect();
    t.to_lowercase().chars().collect()
}

} // verus!
