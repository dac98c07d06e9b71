//! Format detection: which structural plan, if any, a sample looks like.
use vstd::prelude::*;
use vstd::utf8::{valid_utf8, decode_utf8};
use crate::header::InputFormat;
use crate::text::{string_from_utf8, occurs_at};

verus! {

/// Whether `serde_json` parses the line as a JSON value that is an object.
pub uninterp spec fn json_object_line(line: Seq<char>) -> bool;

/// Parses a line with `serde_json::from_str::<serde_json::Value>`.
///
/// Trusted: the answer is the named predicate of the line's characters, a
/// function of them alone: whether the line parses and the value is an object.
#[verifier::external_body]
fn is_json_object(line: &[char]) -> (r: bool)
    ensures
        r == json_object_line(line@),
{
    let text: String = line.iter().collect();
    serde_json::from_str::<serde_json::Value>(&text).map(|v| v.is_object()).unwrap_or(false)
}

/// The characters of a string.
pub fn chars_of(s: &str) -> (v: Vec<char>)
    ensures
        v@ == s@,
{
    let mut v: Vec<char> = Vec::new();
    for c in it: s.chars()
        invariant
            v@ == it.seq().take(it.index()),
    {
        v.push(c);
    }
    v
}

/// Unicode white space (the characters `char::is_whitespace` accepts).
pub open spec fn is_white(c: char) -> bool {
    ('\u{9}' <= c <= '\u{d}') || c == ' ' || c == '\u{85}' || c == '\u{a0}' || c == '\u{1680}'
        || ('\u{2000}' <= c <= '\u{200a}') || c == '\u{2028}' || c == '\u{2029}' || c == '\u{202f}'
        || c == '\u{205f}' || c == '\u{3000}'
}

/// A line of nothing but white space.
pub open spec fn is_blank(line: Seq<char>) -> bool {
    forall|i: int| 0 <= i < line.len() ==> is_white(#[trigger] line[i])
}

/// The position of the first newline at or after `start`, or the end.
pub open spec fn next_newline(t: Seq<char>, start: int) -> int
    decreases t.len() - start,
{
    if start >= t.len() {
        t.len() as int
    } else if t[start] == '\n' {
        start
    } else {
        next_newline(t, start + 1)
    }
}

/// The first newline at or after `start` lies between `start` and the end.
pub proof fn lemma_next_newline(t: Seq<char>, start: int)
    requires
        0 <= start,
    ensures
        start <= next_newline(t, start) <= t.len() || (start > t.len() && next_newline(t, start) == t.len()),
        next_newline(t, start) < t.len() ==> t[next_newline(t, start)] == '\n',
        forall|k: int| start <= k < next_newline(t, start) ==> t[k] != '\n',
    decreases t.len() - start,
{
    if start < t.len() && t[start] != '\n' {
        lemma_next_newline(t, start + 1);
    }
}

/// A line that a newline ended, without the carriage return before the newline.
pub open spec fn strip_cr(line: Seq<char>) -> Seq<char> {
    if line.len() > 0 && line.last() == '\r' {
        line.drop_last()
    } else {
        line
    }
}

/// The lines from `start` on, as `str::lines` gives them: split after each
/// newline, the newline and a carriage return before it dropped, and no line
/// after a final newline.
pub open spec fn lines_from(t: Seq<char>, start: int) -> Seq<Seq<char>>
    decreases t.len() - start,
{
    if start < 0 || start >= t.len() {
        Seq::empty()
    } else {
        let e = next_newline(t, start);
        proof {
            lemma_next_newline(t, start);
        }
        if e >= t.len() {
            seq![t.subrange(start, t.len() as int)]
        } else {
            seq![strip_cr(t.subrange(start, e))] + lines_from(t, e + 1)
        }
    }
}

/// The lines that are not blank.
pub open spec fn nonblank(lines: Seq<Seq<char>>) -> Seq<Seq<char>>
    decreases lines.len(),
{
    if lines.len() == 0 {
        Seq::empty()
    } else if is_blank(lines.last()) {
        nonblank(lines.drop_last())
    } else {
        nonblank(lines.drop_last()).push(lines.last())
    }
}

/// The first 200 lines that are not blank.
pub open spec fn sample_lines(t: Seq<char>) -> Seq<Seq<char>> {
    let l = nonblank(lines_from(t, 0));
    if l.len() > 200 {
        l.take(200)
    } else {
        l
    }
}

/// The number of lines that parse as a JSON object.
pub open spec fn json_count(lines: Seq<Seq<char>>) -> nat
    decreases lines.len(),
{
    if lines.len() == 0 {
        0
    } else {
        json_count(lines.drop_last()) + (if json_object_line(lines.last()) { 1nat } else { 0nat })
    }
}

/// The number of times `d` occurs in a line.
pub open spec fn occurrences(line: Seq<char>, d: char) -> nat
    decreases line.len(),
{
    if line.len() == 0 {
        0
    } else {
        occurrences(line.drop_last(), d) + (if line.last() == d { 1nat } else { 0nat })
    }
}

/// The field counts (pieces around `d`) of the lines that have more than one field.
pub open spec fn field_counts(lines: Seq<Seq<char>>, d: char) -> Seq<nat>
    decreases lines.len(),
{
    if lines.len() == 0 {
        Seq::empty()
    } else if occurrences(lines.last(), d) + 1 > 1 {
        field_counts(lines.drop_last(), d).push(occurrences(lines.last(), d) + 1)
    } else {
        field_counts(lines.drop_last(), d)
    }
}

/// The number of counts equal to `x`.
pub open spec fn count_equal(c: Seq<nat>, x: nat) -> nat
    decreases c.len(),
{
    if c.len() == 0 {
        0
    } else {
        count_equal(c.drop_last(), x) + (if c.last() == x { 1nat } else { 0nat })
    }
}

/// At least two lines split into several fields around `d`, and at least 90%
/// of them into as many as the first.
pub open spec fn delimited_by(lines: Seq<Seq<char>>, d: char) -> bool {
    let c = field_counts(lines, d);
    c.len() >= 2 && count_equal(c, c[0]) * 100 >= c.len() * 90
}

pub open spec fn contains_text(line: Seq<char>, pat: Seq<char>) -> bool {
    exists|i: int| occurs_at(line, pat, i)
}

/// A log line: a level word with a space on each side, or a line that starts
/// with `INFO `, `WARN ` or `ERROR `.
pub open spec fn log_like(line: Seq<char>) -> bool {
    contains_text(line, seq![' ', 'I', 'N', 'F', 'O', ' '])
        || contains_text(line, seq![' ', 'W', 'A', 'R', 'N', ' '])
        || contains_text(line, seq![' ', 'E', 'R', 'R', 'O', 'R', ' '])
        || contains_text(line, seq![' ', 'D', 'E', 'B', 'U', 'G', ' '])
        || occurs_at(line, seq!['I', 'N', 'F', 'O', ' '], 0)
        || occurs_at(line, seq!['W', 'A', 'R', 'N', ' '], 0)
        || occurs_at(line, seq!['E', 'R', 'R', 'O', 'R', ' '], 0)
}

pub open spec fn log_count(lines: Seq<Seq<char>>) -> nat
    decreases lines.len(),
{
    if lines.len() == 0 {
        0
    } else {
        log_count(lines.drop_last()) + (if log_like(lines.last()) { 1nat } else { 0nat })
    }
}

/// A zero byte among the first 4096.
pub open spec fn has_nul_prefix(s: Seq<u8>) -> bool {
    exists|i: int| 0 <= i < s.len() && i < 4096 && s[i] == 0
}

/// The format a sample looks like: binary when it has a zero byte in its first
/// 4096 bytes, is not UTF-8 or has no line that is not blank; JSONL when at
/// least 20 of its first 200 non-blank lines are there and at least 90% of
/// them are JSON objects; CSV for commas or semicolons and TSV for tabs when
/// at least two lines have several fields and 90% of those as many as the
/// first; logs when at least 5 lines are there and half of them look like log
/// lines; binary otherwise.
pub open spec fn spec_detect_format(sample: Seq<u8>) -> InputFormat {
    if has_nul_prefix(sample) || !valid_utf8(sample) {
        InputFormat::BinaryFallback
    } else {
        let lines = sample_lines(decode_utf8(sample));
        if lines.len() == 0 {
            InputFormat::BinaryFallback
        } else if lines.len() >= 20 && json_count(lines) * 100 >= lines.len() * 90 {
            InputFormat::Jsonl
        } else if delimited_by(lines, ',') || delimited_by(lines, ';') {
            InputFormat::Csv
        } else if delimited_by(lines, '\t') {
            InputFormat::Tsv
        } else if lines.len() >= 5 && log_count(lines) * 100 >= lines.len() * 50 {
            InputFormat::Logs
        } else {
            InputFormat::BinaryFallback
        }
    }
}

/// The text of each range.
pub open spec fn ranges_text(t: Seq<char>, r: Seq<(usize, usize)>) -> Seq<Seq<char>> {
    Seq::new(r.len(), |k: int| t.subrange(r[k].0 as int, r[k].1 as int))
}

pub open spec fn ranges_ok(t: Seq<char>, r: Seq<(usize, usize)>) -> bool {
    forall|k: int| 0 <= k < r.len() ==> (#[trigger] r[k]).0 <= r[k].1 <= t.len()
}

/// The lines of a text as ranges of its characters.
pub fn split_lines(t: &Vec<char>) -> (r: Vec<(usize, usize)>)
    ensures
        ranges_ok(t@, r@),
        ranges_text(t@, r@) == lines_from(t@, 0),
{
    let n = t.len();
    let mut out: Vec<(usize, usize)> = Vec::new();
    let mut start: usize = 0;
    assert(ranges_text(t@, out@) + lines_from(t@, 0) =~= lines_from(t@, 0));
    while start < n
        invariant
            n == t@.len(),
            0 <= start <= n,
            ranges_ok(t@, out@),
            ranges_text(t@, out@) + lines_from(t@, start as int) == lines_from(t@, 0),
        decreases n - start,
    {
        let mut e = start;
        while e < n && t[e] != '\n'
            invariant
                start <= e <= n,
                n == t@.len(),
                next_newline(t@, start as int) == next_newline(t@, e as int),
            decreases n - e,
        {
            e = e + 1;
        }
        proof {
            lemma_next_newline(t@, start as int);
        }
        let ghost before = out@;
        if e == n {
            out.push((start, n));
            assert(ranges_text(t@, out@) =~= ranges_text(t@, before).push(t@.subrange(start as int, n as int)));
            assert(lines_from(t@, start as int) =~= seq![t@.subrange(start as int, n as int)]);
            assert(lines_from(t@, n as int) =~= Seq::<Seq<char>>::empty());
            assert(ranges_text(t@, out@) + lines_from(t@, n as int) =~= lines_from(t@, 0));
            start = n;
        } else {
            let end = if e > start && t[e - 1] == '\r' { e - 1 } else { e };
            out.push((start, end));
            assert(t@.subrange(start as int, end as int) == strip_cr(t@.subrange(start as int, e as int))) by {
                if e > start && t@[e - 1] == '\r' {
                    assert(t@.subrange(start as int, e as int).drop_last() =~= t@.subrange(start as int, end as int));
                }
            }
            assert(ranges_text(t@, out@) =~= ranges_text(t@, before).push(t@.subrange(start as int, end as int)));
            assert(ranges_text(t@, out@) + lines_from(t@, e + 1) =~= lines_from(t@, 0)) by {
                assert(lines_from(t@, start as int) == seq![strip_cr(t@.subrange(start as int, e as int))] + lines_from(t@, e + 1));
            }
            start = e + 1;
        }
    }
    assert(ranges_text(t@, out@) =~= lines_from(t@, 0)) by {
        assert(lines_from(t@, start as int) =~= Seq::<Seq<char>>::empty());
    }
    out
}

/// Unicode white space.
pub fn is_white_char(c: char) -> (r: bool)
    ensures
        r == is_white(c),
{
    ('\u{9}' <= c && c <= '\u{d}') || c == ' ' || c == '\u{85}' || c == '\u{a0}' || c == '\u{1680}'
        || ('\u{2000}' <= c && c <= '\u{200a}') || c == '\u{2028}' || c == '\u{2029}' || c == '\u{202f}'
        || c == '\u{205f}' || c == '\u{3000}'
}

/// Whether the characters `start .. end` are all white space.
pub(crate) fn is_blank_range(t: &Vec<char>, start: usize, end: usize) -> (r: bool)
    requires
        start <= end <= t@.len(),
    ensures
        r == is_blank(t@.subrange(start as int, end as int)),
{
    let mut i = start;
    while i < end
        invariant
            start <= i <= end,
            end <= t@.len(),
            forall|k: int| start <= k < i ==> is_white(#[trigger] t@[k]),
        decreases end - i,
    {
        if !is_white_char(t[i]) {
            assert(!is_white(t@.subrange(start as int, end as int)[i - start]));
            return false;
        }
        i = i + 1;
    }
    assert forall|k: int| 0 <= k < end - start implies is_white(#[trigger] t@.subrange(start as int, end as int)[k]) by {
        assert(t@.subrange(start as int, end as int)[k] == t@[start + k]);
    }
    true
}

/// The first 200 lines that are not blank, as ranges.
fn sample_ranges(t: &Vec<char>) -> (r: Vec<(usize, usize)>)
    ensures
        ranges_ok(t@, r@),
        ranges_text(t@, r@) == sample_lines(t@),
{
    let all = split_lines(t);
    let ghost lines = lines_from(t@, 0);
    let mut kept: Vec<(usize, usize)> = Vec::new();
    let mut i: usize = 0;
    while i < all.len()
        invariant
            0 <= i <= all@.len(),
            ranges_ok(t@, all@),
            ranges_text(t@, all@) == lines,
            ranges_ok(t@, kept@),
            ranges_text(t@, kept@) == nonblank(lines.take(i as int)),
        decreases all@.len() - i,
    {
        assert(lines.take(i + 1).drop_last() =~= lines.take(i as int));
        assert(lines.take(i + 1).last() == lines[i as int]);
        let (a, b) = all[i];
        assert(lines[i as int] == t@.subrange(a as int, b as int));
        let ghost before = kept@;
        if !is_blank_range(t, a, b) {
            kept.push((a, b));
            assert(ranges_text(t@, kept@) =~= ranges_text(t@, before).push(t@.subrange(a as int, b as int)));
        }
        i = i + 1;
    }
    assert(lines.take(all@.len() as int) =~= lines);
    if kept.len() > 200 {
        kept.truncate(200);
        assert(ranges_text(t@, kept@) =~= nonblank(lines).take(200));
    }
    kept
}

/// The number of occurrences of `d` among the characters `start .. end`.
fn occurrences_in(t: &Vec<char>, start: usize, end: usize, d: char) -> (n: usize)
    requires
        start <= end <= t@.len(),
    ensures
        n == occurrences(t@.subrange(start as int, end as int), d),
        n <= end - start,
{
    let mut n: usize = 0;
    let mut i = start;
    while i < end
        invariant
            start <= i <= end,
            end <= t@.len(),
            n <= i - start,
            n == occurrences(t@.subrange(start as int, i as int), d),
        decreases end - i,
    {
        assert(t@.subrange(start as int, i + 1).drop_last() =~= t@.subrange(start as int, i as int));
        if t[i] == d {
            n = n + 1;
        }
        i = i + 1;
    }
    n
}

/// Whether the lines split around `d` into a stable number of fields.
fn delimited(t: &Vec<char>, lines: &Vec<(usize, usize)>, d: char) -> (r: bool)
    requires
        ranges_ok(t@, lines@),
    ensures
        r == delimited_by(ranges_text(t@, lines@), d),
{
    let ghost l = ranges_text(t@, lines@);
    let mut counts: Vec<usize> = Vec::new();
    let mut i: usize = 0;
    while i < lines.len()
        invariant
            0 <= i <= lines@.len(),
            ranges_ok(t@, lines@),
            l == ranges_text(t@, lines@),
            counts@.len() <= i,
            counts@.map_values(|x: usize| (x + 1) as nat) == field_counts(l.take(i as int), d),
        decreases lines@.len() - i,
    {
        assert(l.take(i + 1).drop_last() =~= l.take(i as int));
        assert(l.take(i + 1).last() == l[i as int]);
        let (a, b) = lines[i];
        let c = occurrences_in(t, a, b, d);
        let ghost before = counts@;
        if c >= 1 {
            counts.push(c);
            assert(counts@.map_values(|x: usize| (x + 1) as nat) =~= before.map_values(|x: usize| (x + 1) as nat).push((c + 1) as nat));
        }
        i = i + 1;
    }
    assert(l.take(lines@.len() as int) =~= l);
    let ghost fc = field_counts(l, d);
    if counts.len() < 2 {
        return false;
    }
    let first = counts[0];
    assert(fc[0] == first + 1);
    let mut stable: usize = 0;
    let mut k: usize = 0;
    while k < counts.len()
        invariant
            0 <= k <= counts@.len(),
            fc == counts@.map_values(|x: usize| (x + 1) as nat),
            stable <= k,
            stable == count_equal(fc.take(k as int), (first + 1) as nat),
        decreases counts@.len() - k,
    {
        assert(fc.take(k + 1).drop_last() =~= fc.take(k as int));
        if counts[k] == first {
            stable = stable + 1;
        }
        k = k + 1;
    }
    assert(fc.take(counts@.len() as int) =~= fc);
    (stable as u128) * 100 >= (counts.len() as u128) * 90
}

/// Whether `pat` occurs among the characters `start .. end` at `start + i`.
fn occurs_at_range(t: &Vec<char>, start: usize, end: usize, pat: &[char], i: usize) -> (r: bool)
    requires
        start <= end <= t@.len(),
    ensures
        r == occurs_at(t@.subrange(start as int, end as int), pat@, i as int),
{
    if i > end - start || pat.len() > end - start - i {
        return false;
    }
    let mut k: usize = 0;
    while k < pat.len()
        invariant
            0 <= k <= pat@.len(),
            start + i + pat@.len() <= end,
            end <= t@.len(),
            forall|m: int| 0 <= m < k ==> t@[start + i + m] == pat@[m],
        decreases pat@.len() - k,
    {
        if t[start + i + k] != pat[k] {
            assert(t@.subrange(start as int, end as int).subrange(i as int, i + pat@.len())[k as int] != pat@[k as int]);
            return false;
        }
        k = k + 1;
    }
    assert(t@.subrange(start as int, end as int).subrange(i as int, i + pat@.len()) =~= pat@);
    true
}

/// Whether `pat` occurs among the characters `start .. end`.
fn contains_range(t: &Vec<char>, start: usize, end: usize, pat: &[char]) -> (r: bool)
    requires
        start <= end <= t@.len(),
    ensures
        r == contains_text(t@.subrange(start as int, end as int), pat@),
{
    let ghost line = t@.subrange(start as int, end as int);
    if pat.len() > end - start {
        assert forall|m: int| !occurs_at(line, pat@, m) by {}
        return false;
    }
    let last = end - start - pat.len();
    let mut i: usize = 0;
    while i < last
        invariant
            start <= end <= t@.len(),
            line == t@.subrange(start as int, end as int),
            last == end - start - pat@.len(),
            0 <= i <= last,
            forall|m: int| 0 <= m < i ==> !occurs_at(line, pat@, m),
        decreases last - i,
    {
        if occurs_at_range(t, start, end, pat, i) {
            return true;
        }
        i = i + 1;
    }
    if occurs_at_range(t, start, end, pat, last) {
        return true;
    }
    assert forall|m: int| !occurs_at(line, pat@, m) by {
        if 0 <= m < last {
        }
    }
    false
}

/// Whether a line looks like a log line.
fn is_log_line(t: &Vec<char>, start: usize, end: usize) -> (r: bool)
    requires
        start <= end <= t@.len(),
    ensures
        r == log_like(t@.subrange(start as int, end as int)),
{
    let info = [' ', 'I', 'N', 'F', 'O', ' '];
    let warn = [' ', 'W', 'A', 'R', 'N', ' '];
    let error = [' ', 'E', 'R', 'R', 'O', 'R', ' '];
    let debug = [' ', 'D', 'E', 'B', 'U', 'G', ' '];
    let info_start = ['I', 'N', 'F', 'O', ' '];
    let warn_start = ['W', 'A', 'R', 'N', ' '];
    let error_start = ['E', 'R', 'R', 'O', 'R', ' '];
    assert(info@ =~= seq![' ', 'I', 'N', 'F', 'O', ' ']);
    assert(warn@ =~= seq![' ', 'W', 'A', 'R', 'N', ' ']);
    assert(error@ =~= seq![' ', 'E', 'R', 'R', 'O', 'R', ' ']);
    assert(debug@ =~= seq![' ', 'D', 'E', 'B', 'U', 'G', ' ']);
    assert(info_start@ =~= seq!['I', 'N', 'F', 'O', ' ']);
    assert(warn_start@ =~= seq!['W', 'A', 'R', 'N', ' ']);
    assert(error_start@ =~= seq!['E', 'R', 'R', 'O', 'R', ' ']);
    contains_range(t, start, end, info.as_slice()) || contains_range(t, start, end, warn.as_slice())
        || contains_range(t, start, end, error.as_slice()) || contains_range(t, start, end, debug.as_slice())
        || occurs_at_range(t, start, end, info_start.as_slice(), 0)
        || occurs_at_range(t, start, end, warn_start.as_slice(), 0)
        || occurs_at_range(t, start, end, error_start.as_slice(), 0)
}

/// Detects the format of a sample: JSONL, CSV, TSV, logs, or binary fallback.
pub fn detect_format(sample: &[u8]) -> (f: InputFormat)
    ensures
        f == spec_detect_format(sample@),
{
    let mut i: usize = 0;
    while i < sample.len() && i < 4096
        invariant
            0 <= i <= sample@.len(),
            forall|k: int| 0 <= k < i ==> sample@[k] != 0,
        decreases sample@.len() - i,
    {
        if sample[i] == 0 {
            return InputFormat::BinaryFallback;
        }
        i = i + 1;
    }
    assert(!has_nul_prefix(sample@));
    let text = match string_from_utf8(vstd::slice::slice_to_vec(sample)) {
        Some(s) => s,
        None => return InputFormat::BinaryFallback,
    };
    let t = chars_of(text.as_str());
    let lines = sample_ranges(&t);
    let ghost l = ranges_text(t@, lines@);
    let n = lines.len();
    if n == 0 {
        return InputFormat::BinaryFallback;
    }
    let mut json: usize = 0;
    let mut logs: usize = 0;
    let mut k: usize = 0;
    while k < n
        invariant
            0 <= k <= n,
            n == lines@.len(),
            ranges_ok(t@, lines@),
            l == ranges_text(t@, lines@),
            json <= k,
            logs <= k,
            json == json_count(l.take(k as int)),
            logs == log_count(l.take(k as int)),
        decreases n - k,
    {
        assert(l.take(k + 1).drop_last() =~= l.take(k as int));
        assert(l.take(k + 1).last() == l[k as int]);
        let (a, b) = lines[k];
        let line = vstd::slice::slice_subrange(t.as_slice(), a, b);
        assert(line@ == l[k as int]);
        if is_json_object(line) {
            json = json + 1;
        }
        if is_log_line(&t, a, b) {
            logs = logs + 1;
        }
        k = k + 1;
    }
    assert(l.take(n as int) =~= l);
    if n >= 20 && (json as u128) * 100 >= (n as u128) * 90 {
        return InputFormat::Jsonl;
    }
    if delimited(&t, &lines, ',') || delimited(&t, &lines, ';') {
        return InputFormat::Csv;
    }
    if delimited(&t, &lines, '\t') {
        return InputFormat::Tsv;
    }
    if n >= 5 && (logs as u128) * 100 >= (n as u128) * 50 {
        return InputFormat::Logs;
    }
    InputFormat::BinaryFallback
}

/// `pat` stands in `line` somewhere.
pub open spec fn shows(line: Seq<char>, pat: Seq<char>) -> bool {
    exists|i: int| 0 <= i && i + pat.len() <= line.len() && #[trigger] line.subrange(i, i + pat.len()) == pat
}

/// `line` starts with `pat`.
pub open spec fn opens_with(line: Seq<char>, pat: Seq<char>) -> bool {
    pat.len() <= line.len() && line.subrange(0, pat.len() as int) == pat
}

/// A line that names a log level: one of ` INFO `, ` WARN `, ` ERROR `,
/// ` DEBUG ` somewhere, or `INFO `, `WARN `, `ERROR ` at its start.
pub open spec fn names_a_level(line: Seq<char>) -> bool {
    ||| shows(line, seq![' ', 'I', 'N', 'F', 'O', ' '])
    ||| shows(line, seq![' ', 'W', 'A', 'R', 'N', ' '])
    ||| shows(line, seq![' ', 'E', 'R', 'R', 'O', 'R', ' '])
    ||| shows(line, seq![' ', 'D', 'E', 'B', 'U', 'G', ' '])
    ||| opens_with(line, seq!['I', 'N', 'F', 'O', ' '])
    ||| opens_with(line, seq!['W', 'A', 'R', 'N', ' '])
    ||| opens_with(line, seq!['E', 'R', 'R', 'O', 'R', ' '])
}

proof fn lemma_shows(line: Seq<char>, pat: Seq<char>)
    ensures
        shows(line, pat) == contains_text(line, pat),
{
    if shows(line, pat) {
        let i = choose|i: int| 0 <= i && i + pat.len() <= line.len() && #[trigger] line.subrange(i, i + pat.len()) == pat;
        assert(occurs_at(line, pat, i));
    }
    if contains_text(line, pat) {
        let i = choose|i: int| occurs_at(line, pat, i);
        assert(line.subrange(i, i + pat.len()) == pat);
    }
}

proof fn lemma_names_a_level(line: Seq<char>)
    ensures
        names_a_level(line) == log_like(line),
{
    lemma_shows(line, seq![' ', 'I', 'N', 'F', 'O', ' ']);
    lemma_shows(line, seq![' ', 'W', 'A', 'R', 'N', ' ']);
    lemma_shows(line, seq![' ', 'E', 'R', 'R', 'O', 'R', ' ']);
    lemma_shows(line, seq![' ', 'D', 'E', 'B', 'U', 'G', ' ']);
}

proof fn lemma_log_count_all(lines: Seq<Seq<char>>, level: bool)
    requires
        forall|r: int| 0 <= r < lines.len() ==> names_a_level(#[trigger] lines[r]) == level,
    ensures
        log_count(lines) == (if level { lines.len() } else { 0 }),
    decreases lines.len(),
{
    if lines.len() > 0 {
        let d = lines.drop_last();
        assert forall|r: int| 0 <= r < d.len() implies names_a_level(#[trigger] d[r]) == level by {
            assert(d[r] == lines[r]);
        }
        lemma_log_count_all(d, level);
        lemma_names_a_level(lines.last());
        assert(names_a_level(lines[lines.len() - 1]) == level);
    }
}

/// A sample that is neither JSON lines nor delimited text, with at least five
/// sample lines, each of which names a log level (` DEBUG ` among them), is
/// detected as logs.
pub proof fn lemma_level_lines_are_logs(sample: Seq<u8>)
    requires
        forall|i: int| 0 <= i < sample.len() && i < 4096 ==> sample[i] != 0,
        valid_utf8(sample),
        sample_lines(decode_utf8(sample)).len() >= 5,
        !(sample_lines(decode_utf8(sample)).len() >= 20
            && json_count(sample_lines(decode_utf8(sample))) * 100 >= sample_lines(decode_utf8(sample)).len() * 90),
        !delimited_by(sample_lines(decode_utf8(sample)), ','),
        !delimited_by(sample_lines(decode_utf8(sample)), ';'),
        !delimited_by(sample_lines(decode_utf8(sample)), '\t'),
        forall|r: int| 0 <= r < sample_lines(decode_utf8(sample)).len()
            ==> names_a_level(#[trigger] sample_lines(decode_utf8(sample))[r]),
    ensures
        spec_detect_format(sample) == InputFormat::Logs,
{
    let lines = sample_lines(decode_utf8(sample));
    lemma_log_count_all(lines, true);
}

/// A sample that is neither JSON lines nor delimited text and none of whose
/// sample lines names a log level is not detected as logs: it is binary.
pub proof fn lemma_levelless_lines_are_binary(sample: Seq<u8>)
    requires
        valid_utf8(sample),
        !(sample_lines(decode_utf8(sample)).len() >= 20
            && json_count(sample_lines(decode_utf8(sample))) * 100 >= sample_lines(decode_utf8(sample)).len() * 90),
        !delimited_by(sample_lines(decode_utf8(sample)), ','),
        !delimited_by(sample_lines(decode_utf8(sample)), ';'),
        !delimited_by(sample_lines(decode_utf8(sample)), '\t'),
        forall|r: int| 0 <= r < sample_lines(decode_utf8(sample)).len()
            ==> !names_a_level(#[trigger] sample_lines(decode_utf8(sample))[r]),
    ensures
        spec_detect_format(sample) == InputFormat::BinaryFallback,
{
    let lines = sample_lines(decode_utf8(sample));
    lemma_log_count_all(lines, false);
}

} // verus!
