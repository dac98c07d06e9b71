//! The words of a line and what a word stands for: an integer, a `key=value`
//! pair, or text.
use vstd::prelude::*;
use crate::detect::{is_white, is_white_char};
use crate::formats::table::{Cell, CellV};
use crate::text::string_of_range;

verus! {

/// The first position at or after `i` whose character is not white space, or the end.
pub open spec fn word_start(l: Seq<char>, i: int) -> int
    decreases l.len() - i,
{
    if i >= l.len() {
        l.len() as int
    } else if !is_white(l[i]) {
        i
    } else {
        word_start(l, i + 1)
    }
}

/// The first position at or after `i` whose character is white space, or the end.
pub open spec fn word_end(l: Seq<char>, i: int) -> int
    decreases l.len() - i,
{
    if i >= l.len() {
        l.len() as int
    } else if is_white(l[i]) {
        i
    } else {
        word_end(l, i + 1)
    }
}

pub proof fn lemma_word_bounds(l: Seq<char>, i: int)
    requires
        0 <= i <= l.len(),
    ensures
        i <= word_start(l, i) <= l.len(),
        i <= word_end(l, i) <= l.len(),
        word_start(l, i) < l.len() ==> !is_white(l[word_start(l, i)]),
        word_end(l, i) < l.len() ==> is_white(l[word_end(l, i)]),
        forall|k: int| i <= k < word_start(l, i) ==> is_white(#[trigger] l[k]),
        forall|k: int| i <= k < word_end(l, i) ==> !is_white(#[trigger] l[k]),
        i < l.len() && !is_white(l[i]) ==> word_end(l, i) > i,
    decreases l.len() - i,
{
    if i < l.len() {
        lemma_word_bounds(l, i + 1);
    }
}

/// The words of `l` from position `i` on, as `str::split_whitespace` gives
/// them: the maximal runs of characters that are not white space.
pub open spec fn words_from(l: Seq<char>, i: int) -> Seq<Seq<char>>
    decreases l.len() - i,
{
    if i < 0 || i >= l.len() {
        Seq::empty()
    } else {
        let s = word_start(l, i);
        proof {
            lemma_word_bounds(l, i);
        }
        if s >= l.len() {
            Seq::empty()
        } else {
            let e = word_end(l, s);
            proof {
                lemma_word_bounds(l, s);
            }
            seq![l.subrange(s, e)] + words_from(l, e)
        }
    }
}

/// The words of a line.
pub open spec fn words(l: Seq<char>) -> Seq<Seq<char>> {
    words_from(l, 0)
}

/// The text of each range of `l`.
pub open spec fn pieces_of(l: Seq<char>, r: Seq<(usize, usize)>) -> Seq<Seq<char>> {
    Seq::new(r.len(), |k: int| l.subrange(r[k].0 as int, r[k].1 as int))
}

pub open spec fn pieces_ok(l: Seq<char>, r: Seq<(usize, usize)>) -> bool {
    forall|k: int| 0 <= k < r.len() ==> (#[trigger] r[k]).0 <= r[k].1 <= l.len()
}

/// The words of a line, as ranges of its characters.
pub fn split_words(l: &[char]) -> (r: Vec<(usize, usize)>)
    ensures
        pieces_ok(l@, r@),
        pieces_of(l@, r@) == words(l@),
{
    let n = l.len();
    let mut out: Vec<(usize, usize)> = Vec::new();
    let mut pos: usize = 0;
    assert(pieces_of(l@, out@) + words_from(l@, 0) =~= words(l@));
    while pos < n
        invariant
            n == l@.len(),
            0 <= pos <= n,
            pieces_ok(l@, out@),
            pieces_of(l@, out@) + words_from(l@, pos as int) == words(l@),
        decreases n - pos,
    {
        let mut s = pos;
        while s < n && is_white_char(l[s])
            invariant
                pos <= s <= n,
                n == l@.len(),
                word_start(l@, pos as int) == word_start(l@, s as int),
            decreases n - s,
        {
            s = s + 1;
        }
        proof {
            lemma_word_bounds(l@, pos as int);
        }
        if s == n {
            assert(words_from(l@, pos as int) =~= Seq::<Seq<char>>::empty());
            assert(words_from(l@, n as int) =~= Seq::<Seq<char>>::empty());
            pos = n;
        } else {
            let mut e = s;
            while e < n && !is_white_char(l[e])
                invariant
                    s <= e <= n,
                    n == l@.len(),
                    word_end(l@, s as int) == word_end(l@, e as int),
                decreases n - e,
            {
                e = e + 1;
            }
            proof {
                lemma_word_bounds(l@, s as int);
            }
            let ghost before = out@;
            out.push((s, e));
            assert(pieces_of(l@, out@) =~= pieces_of(l@, before).push(l@.subrange(s as int, e as int)));
            assert(words_from(l@, pos as int) == seq![l@.subrange(s as int, e as int)] + words_from(l@, e as int));
            assert(pieces_of(l@, out@) + words_from(l@, e as int) =~= words(l@));
            pos = e;
        }
    }
    assert(pieces_of(l@, out@) =~= words(l@)) by {
        assert(words_from(l@, pos as int) =~= Seq::<Seq<char>>::empty());
    }
    out
}

/// An ASCII decimal digit.
pub open spec fn is_digit(c: char) -> bool {
    '0' <= c <= '9'
}

/// At least one character, and all of them digits.
pub open spec fn all_digits(s: Seq<char>) -> bool {
    s.len() > 0 && forall|i: int| 0 <= i < s.len() ==> is_digit(#[trigger] s[i])
}

/// The value of a digit (zero for any other character).
pub open spec fn digit_value(c: char) -> nat {
    if is_digit(c) {
        (c as int - 48) as nat
    } else {
        0
    }
}

/// The number that the digits of `s` write in base ten.
pub open spec fn digits_value(s: Seq<char>) -> nat
    decreases s.len(),
{
    if s.len() == 0 {
        0
    } else {
        digits_value(s.drop_last()) * 10 + digit_value(s.last())
    }
}

pub proof fn lemma_digits_prefix(s: Seq<char>, k: int)
    requires
        0 <= k <= s.len(),
    ensures
        digits_value(s.take(k)) <= digits_value(s),
    decreases s.len() - k,
{
    if k < s.len() {
        lemma_digits_prefix(s, k + 1);
        assert(s.take(k + 1).drop_last() =~= s.take(k));
    } else {
        assert(s.take(k) =~= s);
    }
}

/// What `str::parse::<i64>` gives: an optional `+` or `-` sign, then at least
/// one digit, and a value in the range of `i64`.
pub open spec fn spec_parse_i64(s: Seq<char>) -> Option<i64> {
    if s.len() > 0 && s[0] == '-' {
        let d = s.drop_first();
        if all_digits(d) && digits_value(d) <= 0x8000_0000_0000_0000 {
            Some((0 - digits_value(d)) as i64)
        } else {
            None
        }
    } else {
        let d = if s.len() > 0 && s[0] == '+' { s.drop_first() } else { s };
        if all_digits(d) && digits_value(d) <= i64::MAX {
            Some(digits_value(d) as i64)
        } else {
            None
        }
    }
}

/// Parses a decimal `i64` as `str::parse::<i64>` does.
pub fn parse_i64(s: &[char]) -> (r: Option<i64>)
    ensures
        r == spec_parse_i64(s@),
{
    let n = s.len();
    if n == 0 {
        return None;
    }
    let neg = s[0] == '-';
    let start: usize = if s[0] == '-' || s[0] == '+' { 1 } else { 0 };
    let ghost d = s@.skip(start as int);
    assert(start == 1 ==> d =~= s@.drop_first());
    assert(start == 0 ==> d =~= s@);
    if start == n {
        assert(d.len() == 0);
        return None;
    }
    let mut acc: u64 = 0;
    let mut i = start;
    while i < n
        invariant
            start <= i <= n,
            n == s@.len(),
            n > 0,
            neg == (s@[0] == '-'),
            start == (if s@[0] == '-' || s@[0] == '+' { 1usize } else { 0usize }),
            start == 1 ==> d == s@.drop_first(),
            start == 0 ==> d == s@,
            d == s@.skip(start as int),
            acc == digits_value(d.take(i - start)),
            acc <= 0x8000_0000_0000_0000,
            forall|k: int| 0 <= k < i - start ==> is_digit(#[trigger] d[k]),
        decreases n - i,
    {
        let c = s[i];
        assert(c == d[i - start]);
        if !('0' <= c && c <= '9') {
            assert(!all_digits(d));
            return None;
        }
        assert(d.take(i - start + 1).drop_last() =~= d.take(i - start));
        let v = (c as u32 - 48) as u64;
        assert(v == digit_value(c));
        if acc > (0x8000_0000_0000_0000u64 - v) / 10 {
            proof {
                lemma_digits_prefix(d, i - start + 1);
            }
            assert(digits_value(d.take(i - start + 1)) > 0x8000_0000_0000_0000) by (nonlinear_arith)
                requires
                    digits_value(d.take(i - start + 1)) == acc * 10 + v,
                    acc > (0x8000_0000_0000_0000u64 - v) / 10,
                    v <= 9,
            ;
            return None;
        }
        acc = acc * 10 + v;
        i = i + 1;
    }
    assert(d.take(n - start) =~= d);
    assert(all_digits(d));
    if neg {
        if acc == 0x8000_0000_0000_0000u64 {
            Some(i64::MIN)
        } else {
            Some(-(acc as i64))
        }
    } else if acc > 0x7FFF_FFFF_FFFF_FFFFu64 {
        None
    } else {
        Some(acc as i64)
    }
}

/// The cell a word of a log line stands for: an integer where it parses as
/// one, else the word as text.
pub open spec fn spec_log_cell(w: Seq<char>) -> CellV {
    match spec_parse_i64(w) {
        Some(x) => CellV::Integer(x),
        None => CellV::String(w),
    }
}

/// The cell of the word `t[start .. end]`.
pub fn parse_log_cell(t: &[char], start: usize, end: usize) -> (c: Cell)
    requires
        start <= end <= t@.len(),
    ensures
        c.deep_view() == spec_log_cell(t@.subrange(start as int, end as int)),
{
    let w = vstd::slice::slice_subrange(t, start, end);
    match parse_i64(w) {
        Some(x) => Cell::Integer(x),
        None => Cell::String(string_of_range(t, start, end)),
    }
}

/// The first position at or after `i` that holds `c`, or the end.
pub open spec fn find_char(s: Seq<char>, c: char, i: int) -> int
    decreases s.len() - i,
{
    if i >= s.len() {
        s.len() as int
    } else if s[i] == c {
        i
    } else {
        find_char(s, c, i + 1)
    }
}

pub proof fn lemma_find_char(s: Seq<char>, c: char, i: int)
    requires
        0 <= i <= s.len(),
    ensures
        i <= find_char(s, c, i) <= s.len(),
        find_char(s, c, i) < s.len() ==> s[find_char(s, c, i)] == c,
        forall|k: int| i <= k < find_char(s, c, i) ==> #[trigger] s[k] != c,
    decreases s.len() - i,
{
    if i < s.len() {
        lemma_find_char(s, c, i + 1);
    }
}

/// A word `key=value` split at its first `=`, where neither side is empty.
pub open spec fn spec_key_value(w: Seq<char>) -> Option<(Seq<char>, Seq<char>)> {
    let p = find_char(w, '=', 0);
    if p >= w.len() || p == 0 || p + 1 >= w.len() {
        None
    } else {
        Some((w.take(p), w.skip(p + 1)))
    }
}

/// The position of the first `=` in `t[start .. end]`, when both sides of it
/// are non-empty.
pub fn key_value_split(t: &[char], start: usize, end: usize) -> (r: Option<usize>)
    requires
        start <= end <= t@.len(),
    ensures
        match r {
            Some(p) => start < p && p + 1 < end && spec_key_value(t@.subrange(start as int, end as int))
                == Some((t@.subrange(start as int, p as int), t@.subrange(p + 1, end as int))),
            None => spec_key_value(t@.subrange(start as int, end as int)) is None,
        },
{
    let ghost w = t@.subrange(start as int, end as int);
    let mut i = start;
    while i < end && t[i] != '='
        invariant
            start <= i <= end,
            end <= t@.len(),
            w == t@.subrange(start as int, end as int),
            find_char(w, '=', 0) == find_char(w, '=', i - start),
        decreases end - i,
    {
        i = i + 1;
    }
    proof {
        lemma_find_char(w, '=', 0);
    }
    if i == end || i == start || i + 1 >= end {
        return None;
    }
    assert(w.take(i - start) =~= t@.subrange(start as int, i as int));
    assert(w.skip(i - start + 1) =~= t@.subrange(i + 1, end as int));
    Some(i)
}

} // verus!
