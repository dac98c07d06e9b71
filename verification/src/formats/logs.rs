//! Log files as tables. Lines of the template `timestamp LEVEL key=value ...`
//! become a column per key; other logs become a column per word position.
use vstd::prelude::*;
use vstd::utf8::{valid_utf8, decode_utf8};
use crate::detect::{chars_of, lines_from, split_lines, ranges_ok, ranges_text};
use crate::error::ArchiveError;
use crate::formats::fields::{words, split_words, pieces_ok, pieces_of, spec_key_value, key_value_split, spec_log_cell, parse_log_cell};
use crate::formats::table::{Cell, CellV, ColumnV, LineEnding, StoredColumn, StoredTable, TableV, spec_line_ending, line_ending_of, ends_with_newline, ends_with_newline_chars};
use crate::column::cells::{cells_view, clone_cell};
use crate::header::InputFormat;
use crate::text::{string_from_utf8, string_of_range, spec_decimal, u64_to_string};
use vstd::string::StringExecFns;

verus! {

/// The name of the timestamp column.
pub open spec fn timestamp_name() -> Seq<char> {
    seq!['t', 'i', 'm', 'e', 's', 't', 'a', 'm', 'p']
}

/// The name of the level column.
pub open spec fn level_name() -> Seq<char> {
    seq!['l', 'e', 'v', 'e', 'l']
}

/// The name of the column that records each line's keys in their order.
pub open spec fn order_name() -> Seq<char> {
    seq!['_', '_', 'n', 'x', 'z', '_', 'f', 'i', 'e', 'l', 'd', '_', 'o', 'r', 'd', 'e', 'r']
}

/// One of the five level words.
pub open spec fn is_level(w: Seq<char>) -> bool {
    w == seq!['T', 'R', 'A', 'C', 'E'] || w == seq!['D', 'E', 'B', 'U', 'G'] || w == seq!['I', 'N', 'F', 'O']
        || w == seq!['W', 'A', 'R', 'N'] || w == seq!['E', 'R', 'R', 'O', 'R']
}

/// A line of the template: its timestamp, its level and its `key=value` fields.
pub struct TemplateLineV {
    pub timestamp: Seq<char>,
    pub level: Seq<char>,
    pub fields: Seq<(Seq<char>, Seq<char>)>,
}

/// A line read by the template: a timestamp word, a level word, and at least
/// one more word, each of them `key=value` with both sides non-empty.
pub open spec fn spec_template_line(line: Seq<char>) -> Option<TemplateLineV> {
    let w = words(line);
    if w.len() >= 3 && is_level(w[1]) && (forall|k: int| 2 <= k < w.len() ==> (#[trigger] spec_key_value(w[k])) is Some) {
        Some(TemplateLineV {
            timestamp: w[0],
            level: w[1],
            fields: Seq::new((w.len() - 2) as nat, |k: int| spec_key_value(w[k + 2])->0),
        })
    } else {
        None
    }
}

/// Every line follows the template, and there is at least one line.
pub open spec fn all_template(lines: Seq<Seq<char>>) -> bool {
    lines.len() > 0 && forall|r: int| 0 <= r < lines.len() ==> (#[trigger] spec_template_line(lines[r])) is Some
}

/// The template reading of each line.
pub open spec fn template_lines(lines: Seq<Seq<char>>) -> Seq<TemplateLineV> {
    Seq::new(lines.len(), |r: int| spec_template_line(lines[r])->0)
}

/// `names` with each key of `fields` that it lacks appended, in order.
pub open spec fn add_keys(names: Seq<Seq<char>>, fields: Seq<(Seq<char>, Seq<char>)>) -> Seq<Seq<char>>
    decreases fields.len(),
{
    if fields.len() == 0 {
        names
    } else {
        let n = add_keys(names, fields.drop_last());
        if n.contains(fields.last().0) {
            n
        } else {
            n.push(fields.last().0)
        }
    }
}

/// The column names of a template table: timestamp, level, the key order,
/// then each key in the order it first occurs.
pub open spec fn template_names(p: Seq<TemplateLineV>) -> Seq<Seq<char>>
    decreases p.len(),
{
    if p.len() == 0 {
        seq![timestamp_name(), level_name(), order_name()]
    } else {
        add_keys(template_names(p.drop_last()), p.last().fields)
    }
}

/// The keys of the fields joined by commas.
pub open spec fn join_keys(f: Seq<(Seq<char>, Seq<char>)>) -> Seq<char>
    decreases f.len(),
{
    if f.len() == 0 {
        Seq::empty()
    } else if f.len() == 1 {
        f[0].0
    } else {
        join_keys(f.drop_last()) + seq![','] + f.last().0
    }
}

/// The value of the last field with the key `name`.
pub open spec fn last_value(f: Seq<(Seq<char>, Seq<char>)>, name: Seq<char>) -> Option<Seq<char>>
    decreases f.len(),
{
    if f.len() == 0 {
        None
    } else if f.last().0 == name {
        Some(f.last().1)
    } else {
        last_value(f.drop_last(), name)
    }
}

/// The cell of a template line in the column `name`.
pub open spec fn template_cell(p: TemplateLineV, name: Seq<char>) -> Option<CellV> {
    if name == timestamp_name() {
        Some(CellV::String(p.timestamp))
    } else if name == level_name() {
        Some(CellV::String(p.level))
    } else if name == order_name() {
        Some(CellV::String(join_keys(p.fields)))
    } else {
        match last_value(p.fields, name) {
            Some(v) => Some(spec_log_cell(v)),
            None => None,
        }
    }
}

/// The table of lines that all follow the template.
pub open spec fn template_table(lines: Seq<Seq<char>>, le: LineEnding, trailing: bool) -> TableV {
    let p = template_lines(lines);
    let names = template_names(p);
    TableV {
        format: InputFormat::Logs,
        delimiter: None,
        line_ending: le,
        columns: Seq::new(names.len(), |j: int| ColumnV {
            name: names[j],
            values: Seq::new(lines.len(), |r: int| template_cell(p[r], names[j])),
        }),
        row_count: lines.len() as usize,
        trailing_newline: trailing,
    }
}

/// The largest number of words on a line.
pub open spec fn max_words(lines: Seq<Seq<char>>) -> nat
    decreases lines.len(),
{
    if lines.len() == 0 {
        0
    } else {
        let m = max_words(lines.drop_last());
        let w = words(lines.last()).len();
        if w > m {
            w
        } else {
            m
        }
    }
}

/// The name of the column of the words at position `k`.
pub open spec fn field_name(k: nat) -> Seq<char> {
    seq!['f'] + spec_decimal(k)
}

/// `a` comes before `b` in the order of `String`: by the first character in
/// which they differ, else the shorter first.
pub open spec fn lex_less(a: Seq<char>, b: Seq<char>) -> bool
    decreases a.len(),
{
    if a.len() == 0 {
        b.len() > 0
    } else if b.len() == 0 {
        false
    } else if a[0] != b[0] {
        a[0] < b[0]
    } else {
        lex_less(a.drop_first(), b.drop_first())
    }
}

/// How many of the positions in `s` have a name before that of `k`.
pub open spec fn count_before(s: Seq<nat>, k: nat) -> nat
    decreases s.len(),
{
    if s.len() == 0 {
        0
    } else {
        count_before(s.drop_last(), k) + (if lex_less(field_name(s.last()), field_name(k)) { 1nat } else { 0nat })
    }
}

/// The word positions `0 .. m` in the order of their column names, each put
/// in after the names that come before it.
pub open spec fn field_order(m: nat) -> Seq<nat>
    decreases m,
{
    if m == 0 {
        Seq::empty()
    } else {
        let s = field_order((m - 1) as nat);
        s.insert(count_before(s, (m - 1) as nat) as int, (m - 1) as nat)
    }
}

/// The cell of the word at position `k` of a line, if it has one.
pub open spec fn word_cell(line: Seq<char>, k: nat) -> Option<CellV> {
    let w = words(line);
    if k < w.len() {
        Some(spec_log_cell(w[k as int]))
    } else {
        None
    }
}

/// The table of lines by word position.
pub open spec fn plain_table(lines: Seq<Seq<char>>, le: LineEnding, trailing: bool) -> TableV {
    let order = field_order(max_words(lines));
    TableV {
        format: InputFormat::Logs,
        delimiter: None,
        line_ending: le,
        columns: Seq::new(order.len(), |j: int| ColumnV {
            name: field_name(order[j]),
            values: Seq::new(lines.len(), |r: int| word_cell(lines[r], order[j])),
        }),
        row_count: lines.len() as usize,
        trailing_newline: trailing,
    }
}

/// The table of a log text: the template table where every line follows the
/// template, else the table by word position.
pub open spec fn spec_parse_logs(t: Seq<char>, le: LineEnding) -> TableV {
    let lines = lines_from(t, 0);
    if all_template(lines) {
        template_table(lines, le, ends_with_newline(t))
    } else {
        plain_table(lines, le, ends_with_newline(t))
    }
}

/// Whether the characters `l[a .. b]` are those of `pat`.
fn range_is(l: &[char], a: usize, b: usize, pat: &[char]) -> (r: bool)
    requires
        a <= b <= l@.len(),
    ensures
        r == (l@.subrange(a as int, b as int) == pat@),
{
    if b - a != pat.len() {
        return false;
    }
    let mut i: usize = 0;
    while i < pat.len()
        invariant
            a <= b <= l@.len(),
            b - a == pat@.len(),
            0 <= i <= pat@.len(),
            forall|k: int| 0 <= k < i ==> l@[a + k] == pat@[k],
        decreases pat@.len() - i,
    {
        if l[a + i] != pat[i] {
            assert(l@.subrange(a as int, b as int)[i as int] != pat@[i as int]);
            return false;
        }
        i = i + 1;
    }
    assert(l@.subrange(a as int, b as int) =~= pat@);
    true
}

/// Whether `l[a .. b]` is a level word.
fn is_level_word(l: &[char], a: usize, b: usize) -> (r: bool)
    requires
        a <= b <= l@.len(),
    ensures
        r == is_level(l@.subrange(a as int, b as int)),
{
    let trace = ['T', 'R', 'A', 'C', 'E'];
    let debug = ['D', 'E', 'B', 'U', 'G'];
    let info = ['I', 'N', 'F', 'O'];
    let warn = ['W', 'A', 'R', 'N'];
    let error = ['E', 'R', 'R', 'O', 'R'];
    assert(trace@ =~= seq!['T', 'R', 'A', 'C', 'E']);
    assert(debug@ =~= seq!['D', 'E', 'B', 'U', 'G']);
    assert(info@ =~= seq!['I', 'N', 'F', 'O']);
    assert(warn@ =~= seq!['W', 'A', 'R', 'N']);
    assert(error@ =~= seq!['E', 'R', 'R', 'O', 'R']);
    range_is(l, a, b, &trace) || range_is(l, a, b, &debug) || range_is(l, a, b, &info)
        || range_is(l, a, b, &warn) || range_is(l, a, b, &error)
}

/// A template line as read: the cells stand for the values of the fields.
struct ParsedLine {
    timestamp: String,
    level: String,
    keys: Vec<String>,
    cells: Vec<Cell>,
    order: String,
}

/// `p` holds what the template reading `v` of a line says.
spec fn parsed_matches(p: ParsedLine, v: TemplateLineV) -> bool {
    &&& p.timestamp@ == v.timestamp
    &&& p.level@ == v.level
    &&& p.keys@.len() == v.fields.len()
    &&& p.cells@.len() == v.fields.len()
    &&& forall|k: int| 0 <= k < v.fields.len() ==> (#[trigger] p.keys@[k])@ == v.fields[k].0
    &&& forall|k: int| 0 <= k < v.fields.len() ==> (#[trigger] p.cells@[k]).deep_view() == spec_log_cell(v.fields[k].1)
    &&& p.order@ == join_keys(v.fields)
}

/// Reads a line by the template.
fn parse_template_line(l: &[char]) -> (r: Option<ParsedLine>)
    ensures
        match r {
            Some(p) => spec_template_line(l@) is Some && parsed_matches(p, spec_template_line(l@)->0),
            None => spec_template_line(l@) is None,
        },
{
    let w = split_words(l);
    let ghost ws = words(l@);
    if w.len() < 3 {
        return None;
    }
    assert(ws[1] == l@.subrange(w@[1].0 as int, w@[1].1 as int));
    let (a1, b1) = w[1];
    if !is_level_word(l, a1, b1) {
        return None;
    }
    let (a0, b0) = w[0];
    assert(ws[0] == l@.subrange(a0 as int, b0 as int));
    let timestamp = string_of_range(l, a0, b0);
    let level = string_of_range(l, a1, b1);
    let mut keys: Vec<String> = Vec::new();
    let mut cells: Vec<Cell> = Vec::new();
    let mut order = String::new();
    let ghost mut fields: Seq<(Seq<char>, Seq<char>)> = Seq::empty();
    let mut k: usize = 2;
    while k < w.len()
        invariant
            2 <= k <= w@.len(),
            pieces_ok(l@, w@),
            pieces_of(l@, w@) == ws,
            ws == words(l@),
            forall|i: int| 2 <= i < k ==> (#[trigger] spec_key_value(ws[i])) is Some,
            fields.len() == k - 2,
            forall|i: int| 0 <= i < k - 2 ==> #[trigger] fields[i] == spec_key_value(ws[i + 2])->0,
            keys@.len() == k - 2,
            cells@.len() == k - 2,
            forall|i: int| 0 <= i < k - 2 ==> (#[trigger] keys@[i])@ == fields[i].0,
            forall|i: int| 0 <= i < k - 2 ==> (#[trigger] cells@[i]).deep_view() == spec_log_cell(fields[i].1),
            order@ == join_keys(fields),
        decreases w@.len() - k,
    {
        let (a, b) = w[k];
        assert(ws[k as int] == l@.subrange(a as int, b as int));
        match key_value_split(l, a, b) {
            None => {
                return None;
            },
            Some(p) => {
                let key = string_of_range(l, a, p);
                let cell = parse_log_cell(l, p + 1, b);
                let ghost before = fields;
                proof {
                    fields = fields.push((l@.subrange(a as int, p as int), l@.subrange(p + 1, b as int)));
                    assert(fields.drop_last() =~= before);
                }
                if k > 2 {
                    order.push(',');
                }
                order.append(key.as_str());
                assert(order@ =~= join_keys(fields));
                keys.push(key);
                cells.push(cell);
            },
        }
        k = k + 1;
    }
    let ghost v = spec_template_line(l@)->0;
    assert(v.fields =~= fields);
    Some(ParsedLine { timestamp, level, keys, cells, order })
}

/// The characters of each name.
pub(crate) open spec fn names_view(v: Seq<String>) -> Seq<Seq<char>> {
    Seq::new(v.len(), |i: int| v[i]@)
}

/// Whether one of the names is `key`.
pub(crate) fn contains_name(names: &Vec<String>, key: &String) -> (r: bool)
    ensures
        r == names_view(names@).contains(key@),
{
    let mut i: usize = 0;
    while i < names.len()
        invariant
            0 <= i <= names@.len(),
            forall|k: int| 0 <= k < i ==> names@[k]@ != key@,
        decreases names@.len() - i,
    {
        if names[i] == *key {
            assert(names_view(names@)[i as int] == key@);
            return true;
        }
        i = i + 1;
    }
    assert(!names_view(names@).contains(key@)) by {
        if names_view(names@).contains(key@) {
            let k = choose|k: int| 0 <= k < names_view(names@).len() && names_view(names@)[k] == key@;
            assert(names@[k]@ == key@);
        }
    }
    false
}

/// The cell of a parsed line in the column `name`.
fn template_value(
    p: &ParsedLine,
    Ghost(v): Ghost<TemplateLineV>,
    name: &String,
    timestamp: &String,
    level: &String,
    order: &String,
) -> (c: Option<Cell>)
    requires
        parsed_matches(*p, v),
        timestamp@ == timestamp_name(),
        level@ == level_name(),
        order@ == order_name(),
    ensures
        c.deep_view() == template_cell(v, name@),
{
    if *name == *timestamp {
        return Some(Cell::String(p.timestamp.clone()));
    }
    if *name == *level {
        return Some(Cell::String(p.level.clone()));
    }
    if *name == *order {
        return Some(Cell::String(p.order.clone()));
    }
    let mut found: Option<usize> = None;
    let mut k: usize = 0;
    while k < p.keys.len()
        invariant
            parsed_matches(*p, v),
            0 <= k <= p.keys@.len(),
            match found {
                Some(i) => i < k && last_value(v.fields.take(k as int), name@) == Some(v.fields[i as int].1),
                None => last_value(v.fields.take(k as int), name@) is None,
            },
        decreases p.keys@.len() - k,
    {
        assert(v.fields.take(k + 1).drop_last() =~= v.fields.take(k as int));
        if p.keys[k] == *name {
            found = Some(k);
        }
        k = k + 1;
    }
    assert(v.fields.take(p.keys@.len() as int) =~= v.fields);
    match found {
        Some(i) => Some(clone_cell(&p.cells[i])),
        None => None,
    }
}

/// The template table of the lines, when every line follows the template.
fn parse_template(t: &[char], lines: &Vec<(usize, usize)>, le: LineEnding, trailing: bool) -> (r: Option<StoredTable>)
    requires
        ranges_ok(t@, lines@),
    ensures
        match r {
            Some(tb) => all_template(ranges_text(t@, lines@)) && tb@ == template_table(ranges_text(t@, lines@), le, trailing),
            None => !all_template(ranges_text(t@, lines@)),
        },
{
    let ghost l = ranges_text(t@, lines@);
    let ghost pv = template_lines(l);
    let n = lines.len();
    if n == 0 {
        return None;
    }
    let mut parsed: Vec<ParsedLine> = Vec::new();
    let mut r: usize = 0;
    while r < n
        invariant
            0 <= r <= n,
            n == lines@.len(),
            ranges_ok(t@, lines@),
            l == ranges_text(t@, lines@),
            pv == template_lines(l),
            parsed@.len() == r,
            forall|i: int| 0 <= i < r ==> (#[trigger] spec_template_line(l[i])) is Some,
            forall|i: int| 0 <= i < r ==> parsed_matches(#[trigger] parsed@[i], pv[i]),
        decreases n - r,
    {
        let (a, b) = lines[r];
        let line = vstd::slice::slice_subrange(t, a, b);
        assert(line@ == l[r as int]);
        match parse_template_line(line) {
            None => {
                return None;
            },
            Some(p) => {
                parsed.push(p);
            },
        }
        r = r + 1;
    }
    assert(all_template(l));
    let ts_chars = ['t', 'i', 'm', 'e', 's', 't', 'a', 'm', 'p'];
    let level_chars = ['l', 'e', 'v', 'e', 'l'];
    let order_chars = ['_', '_', 'n', 'x', 'z', '_', 'f', 'i', 'e', 'l', 'd', '_', 'o', 'r', 'd', 'e', 'r'];
    assert(ts_chars@ =~= timestamp_name());
    assert(level_chars@ =~= level_name());
    assert(order_chars@ =~= order_name());
    let ts_s = string_of_range(&ts_chars, 0, 9);
    let level_s = string_of_range(&level_chars, 0, 5);
    let order_s = string_of_range(&order_chars, 0, 17);
    assert(ts_chars@.subrange(0, 9) =~= ts_chars@);
    assert(level_chars@.subrange(0, 5) =~= level_chars@);
    assert(order_chars@.subrange(0, 17) =~= order_chars@);
    let mut names: Vec<String> = Vec::new();
    names.push(ts_s.clone());
    names.push(level_s.clone());
    names.push(order_s.clone());
    assert(names_view(names@) =~= template_names(pv.take(0)));
    let mut r: usize = 0;
    while r < n
        invariant
            0 <= r <= n,
            n == parsed@.len(),
            pv.len() == n,
            forall|i: int| 0 <= i < n ==> parsed_matches(#[trigger] parsed@[i], pv[i]),
            names_view(names@) == template_names(pv.take(r as int)),
        decreases n - r,
    {
        let p = &parsed[r];
        assert(parsed_matches(*p, pv[r as int]));
        let ghost f = pv[r as int].fields;
        let ghost base = template_names(pv.take(r as int));
        assert(f.take(0) =~= Seq::<(Seq<char>, Seq<char>)>::empty());
        let mut k: usize = 0;
        while k < p.keys.len()
            invariant
                parsed_matches(*p, pv[r as int]),
                f == pv[r as int].fields,
                0 <= k <= p.keys@.len(),
                names_view(names@) == add_keys(base, f.take(k as int)),
            decreases p.keys@.len() - k,
        {
            assert(f.take(k + 1).drop_last() =~= f.take(k as int));
            assert(p.keys@[k as int]@ == f[k as int].0);
            if !contains_name(&names, &p.keys[k]) {
                let ghost before = names@;
                names.push(p.keys[k].clone());
                assert(names_view(names@) =~= names_view(before).push(f[k as int].0));
            }
            k = k + 1;
        }
        assert(f.take(p.keys@.len() as int) =~= f);
        assert(pv.take(r + 1).drop_last() =~= pv.take(r as int));
        r = r + 1;
    }
    assert(pv.take(n as int) =~= pv);
    let ghost nv = template_names(pv);
    let mut columns: Vec<StoredColumn> = Vec::new();
    let mut j: usize = 0;
    while j < names.len()
        invariant
            0 <= j <= names@.len(),
            n == parsed@.len(),
            pv.len() == n,
            forall|i: int| 0 <= i < n ==> parsed_matches(#[trigger] parsed@[i], pv[i]),
            names_view(names@) == nv,
            ts_s@ == timestamp_name(),
            level_s@ == level_name(),
            order_s@ == order_name(),
            columns@.len() == j,
            forall|c: int| 0 <= c < j ==> (#[trigger] columns@[c])@ == (ColumnV {
                name: nv[c],
                values: Seq::new(n as nat, |i: int| template_cell(pv[i], nv[c])),
            }),
        decreases names@.len() - j,
    {
        let mut values: Vec<Option<Cell>> = Vec::new();
        let mut r: usize = 0;
        while r < n
            invariant
                0 <= r <= n,
                n == parsed@.len(),
                pv.len() == n,
                forall|i: int| 0 <= i < n ==> parsed_matches(#[trigger] parsed@[i], pv[i]),
                j < names@.len(),
                ts_s@ == timestamp_name(),
                level_s@ == level_name(),
                order_s@ == order_name(),
                values@.len() == r,
                forall|i: int| 0 <= i < r ==> (#[trigger] values@[i]).deep_view() == template_cell(pv[i], names@[j as int]@),
            decreases n - r,
        {
            let c = template_value(&parsed[r], Ghost(pv[r as int]), &names[j], &ts_s, &level_s, &order_s);
            values.push(c);
            r = r + 1;
        }
        assert(names@[j as int]@ == nv[j as int]);
        assert(cells_view(values@) =~= Seq::new(n as nat, |i: int| template_cell(pv[i], nv[j as int])));
        columns.push(StoredColumn { name: names[j].clone(), values });
        j = j + 1;
    }
    let tb = StoredTable {
        format: InputFormat::Logs,
        delimiter: None,
        line_ending: le,
        columns,
        row_count: n,
        trailing_newline: trailing,
    };
    assert(tb@.columns =~= template_table(l, le, trailing).columns);
    Some(tb)
}

/// The characters of the name of the column of word position `k`.
fn field_name_chars(k: usize) -> (v: Vec<char>)
    ensures
        v@ == field_name(k as nat),
{
    let d = u64_to_string(k as u64);
    let dc = chars_of(d.as_str());
    let mut v: Vec<char> = Vec::new();
    v.push('f');
    let mut i: usize = 0;
    while i < dc.len()
        invariant
            0 <= i <= dc@.len(),
            dc@ == spec_decimal(k as nat),
            v@ == seq!['f'] + dc@.take(i as int),
        decreases dc@.len() - i,
    {
        v.push(dc[i]);
        assert(v@ =~= seq!['f'] + dc@.take(i + 1));
        i = i + 1;
    }
    assert(dc@.take(dc@.len() as int) =~= dc@);
    v
}

/// Whether `a` comes before `b` in the order of `String`.
pub(crate) fn lex_less_chars(a: &[char], b: &[char]) -> (r: bool)
    ensures
        r == lex_less(a@, b@),
{
    let mut i: usize = 0;
    assert(a@.skip(0) =~= a@);
    assert(b@.skip(0) =~= b@);
    while i < a.len() && i < b.len() && a[i] == b[i]
        invariant
            0 <= i <= a@.len(),
            i <= b@.len(),
            lex_less(a@, b@) == lex_less(a@.skip(i as int), b@.skip(i as int)),
        decreases a@.len() - i,
    {
        assert(a@.skip(i as int).drop_first() =~= a@.skip(i + 1));
        assert(b@.skip(i as int).drop_first() =~= b@.skip(i + 1));
        i = i + 1;
    }
    if i == a.len() {
        i < b.len()
    } else if i == b.len() {
        false
    } else {
        assert(a@.skip(i as int)[0] == a@[i as int]);
        assert(b@.skip(i as int)[0] == b@[i as int]);
        a[i] < b[i]
    }
}

/// The word positions `0 .. m` in the order of their column names.
fn field_order_of(m: usize) -> (o: Vec<usize>)
    ensures
        o@.map_values(|x: usize| x as nat) == field_order(m as nat),
{
    let mut order: Vec<usize> = Vec::new();
    let mut k: usize = 0;
    assert(order@.map_values(|x: usize| x as nat) =~= field_order(0));
    while k < m
        invariant
            0 <= k <= m,
            order@.map_values(|x: usize| x as nat) == field_order(k as nat),
        decreases m - k,
    {
        let ghost s = field_order(k as nat);
        let name_k = field_name_chars(k);
        let mut p: usize = 0;
        let mut i: usize = 0;
        while i < order.len()
            invariant
                0 <= p <= i <= order@.len(),
                order@.map_values(|x: usize| x as nat) == s,
                name_k@ == field_name(k as nat),
                p == count_before(s.take(i as int), k as nat),
            decreases order@.len() - i,
        {
            assert(s.take(i + 1).drop_last() =~= s.take(i as int));
            assert(s[i as int] == order@[i as int] as nat);
            let name_i = field_name_chars(order[i]);
            if lex_less_chars(&name_i, &name_k) {
                p = p + 1;
            }
            i = i + 1;
        }
        assert(s.take(order@.len() as int) =~= s);
        let ghost before = order@;
        order.insert(p, k);
        assert(order@.map_values(|x: usize| x as nat) =~= s.insert(p as int, k as nat));
        k = k + 1;
    }
    order
}

/// The table of the lines by word position.
fn parse_plain(t: &[char], lines: &Vec<(usize, usize)>, le: LineEnding, trailing: bool) -> (tb: StoredTable)
    requires
        ranges_ok(t@, lines@),
    ensures
        tb@ == plain_table(ranges_text(t@, lines@), le, trailing),
{
    let ghost l = ranges_text(t@, lines@);
    let n = lines.len();
    let mut ws: Vec<Vec<(usize, usize)>> = Vec::new();
    let mut m: usize = 0;
    let mut r: usize = 0;
    while r < n
        invariant
            0 <= r <= n,
            n == lines@.len(),
            ranges_ok(t@, lines@),
            l == ranges_text(t@, lines@),
            ws@.len() == r,
            forall|i: int| 0 <= i < r ==> pieces_ok(l[i], #[trigger] ws@[i]@),
            forall|i: int| 0 <= i < r ==> pieces_of(l[i], #[trigger] ws@[i]@) == words(l[i]),
            m == max_words(l.take(r as int)),
        decreases n - r,
    {
        let (a, b) = lines[r];
        let line = vstd::slice::slice_subrange(t, a, b);
        assert(line@ == l[r as int]);
        let w = split_words(line);
        assert(l.take(r + 1).drop_last() =~= l.take(r as int));
        assert(w@.len() == words(l[r as int]).len());
        if w.len() > m {
            m = w.len();
        }
        ws.push(w);
        r = r + 1;
    }
    assert(l.take(n as int) =~= l);
    let order = field_order_of(m);
    let ghost ov = field_order(m as nat);
    assert(order@.len() == ov.len());
    let mut columns: Vec<StoredColumn> = Vec::new();
    let mut j: usize = 0;
    while j < order.len()
        invariant
            0 <= j <= order@.len(),
            n == lines@.len(),
            ranges_ok(t@, lines@),
            l == ranges_text(t@, lines@),
            ws@.len() == n,
            forall|i: int| 0 <= i < n ==> pieces_ok(l[i], #[trigger] ws@[i]@),
            forall|i: int| 0 <= i < n ==> pieces_of(l[i], #[trigger] ws@[i]@) == words(l[i]),
            order@.map_values(|x: usize| x as nat) == ov,
            columns@.len() == j,
            forall|c: int| 0 <= c < j ==> (#[trigger] columns@[c])@ == (ColumnV {
                name: field_name(ov[c]),
                values: Seq::new(n as nat, |i: int| word_cell(l[i], ov[c])),
            }),
        decreases order@.len() - j,
    {
        let k = order[j];
        assert(ov[j as int] == k as nat);
        let mut values: Vec<Option<Cell>> = Vec::new();
        let mut r: usize = 0;
        while r < n
            invariant
                0 <= r <= n,
                n == lines@.len(),
                ranges_ok(t@, lines@),
                l == ranges_text(t@, lines@),
                ws@.len() == n,
                forall|i: int| 0 <= i < n ==> pieces_ok(l[i], #[trigger] ws@[i]@),
                forall|i: int| 0 <= i < n ==> pieces_of(l[i], #[trigger] ws@[i]@) == words(l[i]),
                values@.len() == r,
                forall|i: int| 0 <= i < r ==> (#[trigger] values@[i]).deep_view() == word_cell(l[i], k as nat),
            decreases n - r,
        {
            let (a, b) = lines[r];
            let line = vstd::slice::slice_subrange(t, a, b);
            assert(line@ == l[r as int]);
            let w = &ws[r];
            assert(pieces_of(l[r as int], w@) == words(l[r as int]));
            if k < w.len() {
                let (x, y) = w[k];
                assert(words(l[r as int])[k as int] == line@.subrange(x as int, y as int));
                let c = parse_log_cell(line, x, y);
                values.push(Some(c));
            } else {
                values.push(None);
            }
            r = r + 1;
        }
        let fc = field_name_chars(k);
        let name = string_of_range(&fc, 0, fc.len());
        assert(fc@.subrange(0, fc@.len() as int) =~= fc@);
        assert(cells_view(values@) =~= Seq::new(n as nat, |i: int| word_cell(l[i], ov[j as int])));
        columns.push(StoredColumn { name, values });
        j = j + 1;
    }
    let tb = StoredTable {
        format: InputFormat::Logs,
        delimiter: None,
        line_ending: le,
        columns,
        row_count: n,
        trailing_newline: trailing,
    };
    assert(tb@.columns =~= plain_table(l, le, trailing).columns);
    tb
}

/// Parses a log text into a table: by the template where every line follows
/// it, else by word position. Fails only where the input is not UTF-8.
pub fn parse(input: &[u8]) -> (r: Result<StoredTable, ArchiveError>)
    ensures
        match r {
            Ok(tb) => valid_utf8(input@) && tb@ == spec_parse_logs(decode_utf8(input@), spec_line_ending(input@)),
            Err(e) => !valid_utf8(input@) && e == ArchiveError::InvalidUtf8,
        },
{
    let text = match string_from_utf8(vstd::slice::slice_to_vec(input)) {
        Some(s) => s,
        None => return Err(ArchiveError::InvalidUtf8),
    };
    let le = line_ending_of(input);
    let t = chars_of(text.as_str());
    let trailing = ends_with_newline_chars(&t);
    let lines = split_lines(&t);
    match parse_template(&t, &lines, le, trailing) {
        Some(tb) => Ok(tb),
        None => Ok(parse_plain(&t, &lines, le, trailing)),
    }
}

/// The level word of the template is exactly one of `TRACE`, `DEBUG`, `INFO`,
/// `WARN` and `ERROR`: a line `timestamp LEVEL key=value ...` whose fields all
/// have a non-empty key and value follows the template with that level and
/// timestamp, and a line whose second word is none of the five does not.
pub proof fn lemma_template_level_words(line: Seq<char>)
    ensures
        ({
            let w = words(line);
            w.len() >= 3 && (w[1] == seq!['T', 'R', 'A', 'C', 'E'] || w[1] == seq!['D', 'E', 'B', 'U', 'G']
                || w[1] == seq!['I', 'N', 'F', 'O'] || w[1] == seq!['W', 'A', 'R', 'N'] || w[1] == seq![
                'E',
                'R',
                'R',
                'O',
                'R',
            ]) && (forall|k: int| 2 <= k < w.len() ==> (#[trigger] spec_key_value(w[k])) is Some)
                ==> (spec_template_line(line) matches Some(p) && p.level == w[1] && p.timestamp == w[0]
                    && p.fields.len() == w.len() - 2)
        }),
        ({
            let w = words(line);
            w.len() >= 2 && w[1] != seq!['T', 'R', 'A', 'C', 'E'] && w[1] != seq!['D', 'E', 'B', 'U', 'G']
                && w[1] != seq!['I', 'N', 'F', 'O'] && w[1] != seq!['W', 'A', 'R', 'N'] && w[1] != seq![
                'E',
                'R',
                'R',
                'O',
                'R',
            ] ==> spec_template_line(line) is None
        }),
{
}

/// A log text whose lines all follow the template (with any of the five
/// level words) is read as the template table, whatever the levels are.
pub proof fn lemma_template_text_is_template_table(t: Seq<char>, le: LineEnding)
    requires
        lines_from(t, 0).len() > 0,
        forall|r: int| 0 <= r < lines_from(t, 0).len() ==> ({
            let w = #[trigger] words(lines_from(t, 0)[r]);
            w.len() >= 3 && (w[1] == seq!['T', 'R', 'A', 'C', 'E'] || w[1] == seq!['D', 'E', 'B', 'U', 'G']
                || w[1] == seq!['I', 'N', 'F', 'O'] || w[1] == seq!['W', 'A', 'R', 'N'] || w[1] == seq![
                'E',
                'R',
                'R',
                'O',
                'R',
            ]) && (forall|k: int| 2 <= k < w.len() ==> (#[trigger] spec_key_value(w[k])) is Some)
        }),
    ensures
        spec_parse_logs(t, le) == template_table(lines_from(t, 0), le, ends_with_newline(t)),
{
    let lines = lines_from(t, 0);
    assert forall|r: int| 0 <= r < lines.len() implies (#[trigger] spec_template_line(lines[r])) is Some by {
        lemma_template_level_words(lines[r]);
    }
    assert(all_template(lines));
}

} // verus!
