//! JSON lines kept exactly: one column that holds each line as it stands.
use vstd::prelude::*;
use vstd::utf8::{valid_utf8, decode_utf8, encode_utf8, encode_scalar, is_scalar, has_width_1_encoding};
use vstd::string::StringExecFns;
use crate::detect::{chars_of, lines_from, split_lines, ranges_ok, ranges_text, next_newline, lemma_next_newline, strip_cr};
use crate::error::ArchiveError;
use crate::formats::logs_text::{cell_at, line_end, first_named, find_named};
use crate::formats::table::{has_crlf, Cell, CellV, ColumnV, LineEnding, StoredColumn, StoredTable, TableV, columns_view, spec_line_ending, line_ending_of, ends_with_newline, ends_with_newline_chars};
use crate::column::cells::cells_view;
use crate::header::InputFormat;
use crate::text::{string_from_utf8, string_of_range};

pub use crate::formats::json::parse;
pub use crate::formats::json_write::reconstruct;

verus! {

/// The name of the column of raw lines.
pub open spec fn raw_name() -> Seq<char> {
    seq!['_', '_', 'n', 'x', 'z', '_', 'r', 'a', 'w', '_', 'l', 'i', 'n', 'e']
}

/// The exact table of a JSON lines text: each line, as `str::lines` gives it,
/// a text cell of the one raw-line column.
pub open spec fn spec_parse_exact(t: Seq<char>, le: LineEnding) -> TableV {
    let lines = lines_from(t, 0);
    TableV {
        format: InputFormat::Jsonl,
        delimiter: None,
        line_ending: le,
        columns: seq![ColumnV {
            name: raw_name(),
            values: Seq::new(lines.len(), |r: int| Some(CellV::String(lines[r]))),
        }],
        row_count: lines.len() as usize,
        trailing_newline: ends_with_newline(t),
    }
}

/// The text of a raw line cell: the string, or nothing for any other cell.
pub open spec fn raw_row(c: ColumnV, r: int) -> Seq<char> {
    match cell_at(c, r) {
        Some(CellV::String(s)) => s,
        _ => Seq::empty(),
    }
}

/// Each row's raw line and line ending.
pub open spec fn exact_rows(t: TableV, c: ColumnV) -> Seq<Seq<char>> {
    Seq::new(t.row_count as nat, |r: int| raw_row(c, r) + line_end(t, r))
}

/// The text of a table with a raw-line column: its lines, each with its line
/// ending; none for a table without that column.
pub open spec fn spec_reconstruct_raw(t: TableV) -> Option<Seq<char>> {
    match first_named(t.columns, raw_name(), 0) {
        Some(j) => Some(exact_rows(t, t.columns[j]).flatten()),
        None => None,
    }
}

/// The raw-line column's name.
fn raw_name_string() -> (s: String)
    ensures
        s@ == raw_name(),
{
    let a = ['_', '_', 'n', 'x', 'z', '_', 'r', 'a', 'w', '_', 'l', 'i', 'n', 'e'];
    assert(a@.subrange(0, 14) =~= raw_name());
    string_of_range(&a, 0, 14)
}

/// Parses JSON lines in exact mode: each line kept as text. Fails only where
/// the input is not UTF-8.
pub fn parse_exact(input: &[u8]) -> (r: Result<StoredTable, ArchiveError>)
    ensures
        match r {
            Ok(tb) => valid_utf8(input@) && tb@ == spec_parse_exact(decode_utf8(input@), spec_line_ending(input@)),
            Err(e) => !valid_utf8(input@) && e == ArchiveError::InvalidUtf8,
        },
{
    let text = match string_from_utf8(vstd::slice::slice_to_vec(input)) {
        Some(s) => s,
        None => return Err(ArchiveError::InvalidUtf8),
    };
    let le = line_ending_of(input);
    let t = chars_of(text.as_str());
    let trailing = ends_with_newline_chars(&t);
    let lines = split_lines(&t);
    let ghost l = ranges_text(t@, lines@);
    let mut values: Vec<Option<Cell>> = Vec::new();
    let mut r: usize = 0;
    while r < lines.len()
        invariant
            0 <= r <= lines@.len(),
            ranges_ok(t@, lines@),
            l == ranges_text(t@, lines@),
            values@.len() == r,
            forall|i: int| 0 <= i < r ==> (#[trigger] values@[i]).deep_view() == Some(CellV::String(l[i])),
        decreases lines@.len() - r,
    {
        let (a, b) = lines[r];
        values.push(Some(Cell::String(string_of_range(&t, a, b))));
        r = r + 1;
    }
    let n = lines.len();
    let column = StoredColumn { name: raw_name_string(), values };
    assert(cells_view(column.values@) =~= Seq::new(l.len(), |i: int| Some(CellV::String(l[i]))));
    let mut columns: Vec<StoredColumn> = Vec::new();
    columns.push(column);
    let tb = StoredTable {
        format: InputFormat::Jsonl,
        delimiter: None,
        line_ending: le,
        columns,
        row_count: n,
        trailing_newline: trailing,
    };
    assert(tb@.columns =~= spec_parse_exact(t@, le).columns);
    Ok(tb)
}

/// Rebuilds the text of a table that has a raw-line column; `None` for a
/// table without one.
pub fn reconstruct_raw_lines(table: &StoredTable) -> (r: Option<Vec<u8>>)
    ensures
        match r {
            Some(b) => spec_reconstruct_raw(table@) matches Some(s) && b@ == encode_utf8(s),
            None => spec_reconstruct_raw(table@) is None,
        },
{
    let name = raw_name_string();
    let ghost cv = columns_view(table.columns@);
    let j = match find_named(&table.columns, &name) {
        Some(j) => j,
        None => return None,
    };
    let col = &table.columns[j];
    assert(cv[j as int] == col@);
    let ghost rows = exact_rows(table@, col@);
    let mut out = String::new();
    let mut r: usize = 0;
    assert(rows.take(0) =~= Seq::<Seq<char>>::empty());
    while r < table.row_count
        invariant
            0 <= r <= table.row_count,
            rows == exact_rows(table@, col@),
            out@ == rows.take(r as int).flatten(),
        decreases table.row_count - r,
    {
        let ghost before = out@;
        if r < col.values.len() {
            match &col.values[r] {
                Some(Cell::String(s)) => {
                    out.append(s.as_str());
                },
                _ => {},
            }
        }
        if r + 1 < table.row_count || table.trailing_newline {
            match table.line_ending {
                LineEnding::Lf => {
                    out.push('\n');
                },
                LineEnding::CrLf => {
                    out.push('\r');
                    out.push('\n');
                },
            }
        }
        assert(out@ =~= before + rows[r as int]);
        assert(rows.take(r + 1) =~= rows.take(r as int).push(rows[r as int]));
        proof {
            rows.take(r as int).lemma_flatten_push(rows[r as int]);
        }
        r = r + 1;
    }
    assert(rows.take(table.row_count as int) =~= rows);
    Some(vstd::slice::slice_to_vec(out.as_str().as_bytes()))
}

/// No carriage return is followed by a newline.
pub open spec fn no_crlf(t: Seq<char>) -> bool {
    forall|i: int| 0 <= i && i + 1 < t.len() ==> !(t[i] == '\r' && #[trigger] t[i + 1] == '\n')
}

/// Every newline follows a carriage return.
pub open spec fn all_crlf(t: Seq<char>) -> bool {
    forall|i: int| 0 <= i < t.len() && #[trigger] t[i] == '\n' ==> i > 0 && t[i - 1] == '\r'
}

/// Every line of `t` ends as `le` says.
pub open spec fn endings_are(t: Seq<char>, le: LineEnding) -> bool {
    match le {
        LineEnding::Lf => no_crlf(t),
        LineEnding::CrLf => all_crlf(t),
    }
}

/// The line ending's characters.
pub open spec fn newline_chars(le: LineEnding) -> Seq<char> {
    match le {
        LineEnding::Lf => seq!['\n'],
        LineEnding::CrLf => seq!['\r', '\n'],
    }
}

/// Lines, each followed by the line ending except the last where the text
/// does not end with a newline.
pub open spec fn joined_rows(lines: Seq<Seq<char>>, le: LineEnding, trailing: bool) -> Seq<Seq<char>> {
    Seq::new(lines.len(), |r: int| lines[r] + (if r + 1 < lines.len() || trailing { newline_chars(le) } else { Seq::empty() }))
}

pub(crate) proof fn lemma_lines_rejoin(t: Seq<char>, s: int, le: LineEnding)
    requires
        0 <= s <= t.len(),
        s == 0 || t[s - 1] == '\n',
        endings_are(t, le),
    ensures
        joined_rows(lines_from(t, s), le, ends_with_newline(t)).flatten() == t.subrange(s, t.len() as int),
        lines_from(t, s).len() <= t.len() - s,
    decreases t.len() - s,
{
    let tr = ends_with_newline(t);
    let lines = lines_from(t, s);
    let rows = joined_rows(lines, le, tr);
    if s == t.len() {
        assert(lines =~= Seq::<Seq<char>>::empty());
        assert(rows =~= Seq::<Seq<char>>::empty());
        assert(t.subrange(s, t.len() as int) =~= Seq::<char>::empty());
    } else {
        let e = next_newline(t, s);
        lemma_next_newline(t, s);
        if e >= t.len() {
            assert(lines =~= seq![t.subrange(s, t.len() as int)]);
            assert(t[t.len() - 1] != '\n');
            assert(rows =~= seq![t.subrange(s, t.len() as int)]);
            assert(rows.drop_first() =~= Seq::<Seq<char>>::empty());
            assert(Seq::<Seq<char>>::empty().flatten() =~= Seq::<char>::empty());
            assert(rows.flatten() == rows[0] + rows.drop_first().flatten());
            assert(rows.flatten() =~= t.subrange(s, t.len() as int));
        } else {
            lemma_lines_rejoin(t, e + 1, le);
            let rest = lines_from(t, e + 1);
            let line = strip_cr(t.subrange(s, e));
            assert(lines =~= seq![line] + rest);
            let nl = newline_chars(le);
            assert(rest.len() > 0 || tr) by {
                if rest.len() == 0 {
                    assert(e + 1 >= t.len()) by {
                        if e + 1 < t.len() {
                            assert(lines_from(t, e + 1).len() > 0);
                        }
                    }
                    assert(t[t.len() - 1] == '\n');
                }
            }
            let rest_rows = joined_rows(rest, le, tr);
            assert(rows =~= seq![line + nl] + rest_rows);
            assert((seq![line + nl] + rest_rows).drop_first() =~= rest_rows);
            assert(rows.flatten() == (line + nl) + rest_rows.flatten());
            match le {
                LineEnding::Lf => {
                    assert(line =~= t.subrange(s, e)) by {
                        if e > s && t[e - 1] == '\r' {
                            assert(t[e - 1 + 1] == '\n');
                        }
                    }
                    assert(t.subrange(s, t.len() as int) =~= t.subrange(s, e) + nl + t.subrange(e + 1, t.len() as int));
                },
                LineEnding::CrLf => {
                    assert(e > 0 && t[e - 1] == '\r');
                    assert(e > s);
                    assert(line =~= t.subrange(s, e - 1));
                    assert(t.subrange(s, t.len() as int) =~= t.subrange(s, e - 1) + nl + t.subrange(e + 1, t.len() as int));
                },
            }
        }
    }
}

/// A JSON lines text whose line endings are all of one kind comes back
/// unchanged from its exact table.
pub proof fn lemma_exact_roundtrip(t: Seq<char>, le: LineEnding)
    requires
        endings_are(t, le),
        t.len() <= usize::MAX,
    ensures
        spec_reconstruct_raw(spec_parse_exact(t, le)) == Some(t),
{
    lemma_lines_rejoin(t, 0, le);
    let tb = spec_parse_exact(t, le);
    let lines = lines_from(t, 0);
    assert(first_named(tb.columns, raw_name(), 0) == Some(0int));
    assert(exact_rows(tb, tb.columns[0]) =~= joined_rows(lines, le, ends_with_newline(t)));
    assert(t.subrange(0, t.len() as int) =~= t);
}

proof fn lemma_high_bytes(y: u8)
    by (bit_vector)
    ensures
        (0x80u8 | y) >= 0x80,
        (0xC0u8 | y) >= 0x80,
        (0xE0u8 | y) >= 0x80,
        (0xF0u8 | y) >= 0x80,
{
}

proof fn lemma_low_byte(x: u32)
    by (bit_vector)
    requires
        x <= 0x7F,
    ensures
        ((x & 0x7F) as u8) as u32 == x,
{
}

/// A scalar's UTF-8 bytes: one byte equal to it where it is below 0x80, else
/// bytes that all have the high bit set.
proof fn lemma_scalar_bytes(x: u32)
    requires
        is_scalar(x),
    ensures
        encode_scalar(x).len() >= 1,
        has_width_1_encoding(x) ==> encode_scalar(x).len() == 1 && encode_scalar(x)[0] as u32 == x,
        !has_width_1_encoding(x) ==> forall|k: int| 0 <= k < encode_scalar(x).len() ==> #[trigger] encode_scalar(x)[k] >= 0x80,
{
    if has_width_1_encoding(x) {
        lemma_low_byte(x);
    } else {
        lemma_high_bytes(((x >> 6) & 0x1F) as u8);
        lemma_high_bytes(((x >> 12) & 0x0F) as u8);
        lemma_high_bytes(((x >> 18) & 0x7) as u8);
        lemma_high_bytes((x & 0x3F) as u8);
        lemma_high_bytes(((x >> 6) & 0x3F) as u8);
        lemma_high_bytes(((x >> 12) & 0x3F) as u8);
    }
}

proof fn lemma_encode_len(t: Seq<char>)
    ensures
        encode_utf8(t).len() >= t.len(),
    decreases t.len(),
{
    if t.len() > 0 {
        vstd::utf8::char_is_scalar(t[0]);
        lemma_scalar_bytes(t[0] as u32);
        lemma_encode_len(t.drop_first());
    }
}

/// The bytes of a text hold a carriage return followed by a newline exactly
/// where the text does.
proof fn lemma_crlf_bytes(t: Seq<char>)
    ensures
        has_crlf(encode_utf8(t)) == !no_crlf(t),
    decreases t.len(),
{
    if t.len() == 0 {
        assert(encode_utf8(t) =~= Seq::<u8>::empty());
    } else {
        let rest = t.drop_first();
        let e0 = encode_scalar(t[0] as u32);
        let r = encode_utf8(rest);
        let e = encode_utf8(t);
        assert(e == e0 + r);
        vstd::utf8::char_is_scalar(t[0]);
        lemma_scalar_bytes(t[0] as u32);
        lemma_crlf_bytes(rest);
        if rest.len() > 0 {
            vstd::utf8::char_is_scalar(rest[0]);
            lemma_scalar_bytes(rest[0] as u32);
            assert(r == encode_scalar(rest[0] as u32) + encode_utf8(rest.drop_first()));
            assert(r[0] == encode_scalar(rest[0] as u32)[0]);
        } else {
            assert(r =~= Seq::<u8>::empty());
        }
        if has_crlf(e) {
            let i = choose|i: int| 0 <= i && i + 1 < e.len() && e[i] == 13 && #[trigger] e[i + 1] == 10;
            if i + 1 < e0.len() {
                assert(e[i] == e0[i]);
                assert(false);
            } else if i < e0.len() {
                assert(e[i] == e0[i]);
                assert(e0.len() == 1);
                assert(t[0] as u32 == 13);
                vstd::utf8::char_u32_cast(t[0], t[0] as u32);
                vstd::utf8::char_u32_cast('\r', '\r' as u32);
                assert(t[0] == '\r');
                assert(e[i + 1] == r[0]);
                assert(rest.len() > 0);
                assert(rest[0] as u32 == 10);
                vstd::utf8::char_u32_cast(rest[0], rest[0] as u32);
                vstd::utf8::char_u32_cast('\n', '\n' as u32);
                assert(rest[0] == '\n');
                assert(t[1] == rest[0]);
                assert(t[0] == '\r' && t[1] == '\n');
            } else {
                let j = i - e0.len();
                assert(r[j] == e[i] && r[j + 1] == e[i + 1]);
                assert(has_crlf(r));
                let k = choose|k: int| 0 <= k && k + 1 < rest.len() && !(!(rest[k] == '\r' && #[trigger] rest[k + 1] == '\n'));
                assert(t[k + 1] == rest[k] && t[k + 2] == rest[k + 1]);
                assert(t[(k + 1) + 1] == '\n');
            }
        }
        if !no_crlf(t) {
            let i = choose|i: int| 0 <= i && i + 1 < t.len() && !!(t[i] == '\r' && #[trigger] t[i + 1] == '\n');
            if i == 0 {
                assert(t[0] as u32 == 13);
                assert(rest[0] == t[1]);
                assert(rest[0] as u32 == 10);
                assert(e[0] == 13 && e[1] == 10);
            } else {
                assert(rest[i - 1] == t[i] && rest[(i - 1) + 1] == t[i + 1]);
                assert(!no_crlf(rest));
                let j = choose|j: int| 0 <= j && j + 1 < r.len() && r[j] == 13 && #[trigger] r[j + 1] == 10;
                assert(e[j + e0.len()] == 13 && e[(j + e0.len()) + 1] == 10);
            }
        }
    }
}

/// Exact mode gives JSON lines back byte for byte: for UTF-8 input whose line
/// endings are all `\n` or all `\r\n`, the raw lines of its exact table,
/// written back with the line ending taken from the bytes, are the input.
pub proof fn lemma_exact_roundtrip_bytes(b: Seq<u8>)
    requires
        valid_utf8(b),
        no_crlf(decode_utf8(b)) || all_crlf(decode_utf8(b)),
        b.len() <= usize::MAX,
    ensures
        spec_reconstruct_raw(spec_parse_exact(decode_utf8(b), spec_line_ending(b))) matches Some(s) && encode_utf8(s) == b,
{
    let t = decode_utf8(b);
    vstd::utf8::decode_utf8_encode_utf8(b);
    lemma_encode_len(t);
    lemma_crlf_bytes(t);
    let le = spec_line_ending(b);
    assert(endings_are(t, le));
    lemma_exact_roundtrip(t, le);
}

} // verus!
