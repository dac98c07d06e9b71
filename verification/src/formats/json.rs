//! JSON lines read structurally: each non-blank line an object, its nested
//! objects flattened to dotted paths, one column per path.
use vstd::prelude::*;
use vstd::utf8::{valid_utf8, decode_utf8};
use crate::detect::{chars_of, lines_from, split_lines, ranges_ok, ranges_text, nonblank, is_blank, is_blank_range};
use crate::error::ArchiveError;
use crate::formats::csv::{float_of, float_fields_view, float_lookup};
use crate::formats::table::{Cell, CellV, StoredTable, TableV, ends_with_newline, ends_with_newline_chars, row_view, rows_view, rows_to_table, spec_rows_to_table};
use crate::header::InputFormat;
use crate::text::{string_from_utf8, string_of_range};
use vstd::string::{StringExecFns, StrSliceExecFns};

verus! {

#[verifier::external_type_specification]
#[verifier::external_body]
pub struct ExJsonValue(serde_json::Value);

/// A JSON value as the table logic reads it: a number as its `as_i64`
/// reading and its text, an array as its compact JSON text, an object as its
/// entries in the order `serde_json` walks them.
pub enum JsonV {
    Null,
    Bool(bool),
    Number(Option<i64>, Seq<char>),
    Str(Seq<char>),
    Array(Seq<char>),
    Object(Seq<(Seq<char>, JsonV)>),
}

/// What `serde_json::from_str::<serde_json::Value>` reads from a line:
/// nothing where it reports an error.
pub uninterp spec fn json_parsed(line: Seq<char>) -> Option<JsonV>;

/// The JSON value that a `serde_json::Value` holds.
pub uninterp spec fn json_view(v: serde_json::Value) -> JsonV;

/// One level of a `serde_json::Value`: its kind with its plain contents, and
/// an object's entries with their values still to be read.
pub enum JsonNode {
    Null,
    Bool(bool),
    Number(Option<i64>, String),
    Str(String),
    Array(String),
    Object(Vec<(String, serde_json::Value)>),
}

pub open spec fn entries_view(es: Seq<(String, serde_json::Value)>) -> Seq<(Seq<char>, JsonV)> {
    Seq::new(es.len(), |i: int| (es[i].0@, json_view(es[i].1)))
}

pub open spec fn node_view(n: JsonNode) -> JsonV {
    match n {
        JsonNode::Null => JsonV::Null,
        JsonNode::Bool(b) => JsonV::Bool(b),
        JsonNode::Number(i, t) => JsonV::Number(i, t@),
        JsonNode::Str(s) => JsonV::Str(s@),
        JsonNode::Array(t) => JsonV::Array(t@),
        JsonNode::Object(es) => JsonV::Object(entries_view(es@)),
    }
}

/// Parses a line with `serde_json::from_str::<serde_json::Value>`.
///
/// Trusted: the value read is the named reading of the line's characters, a
/// function of them alone; an error gives nothing.
#[verifier::external_body]
fn json_from_str(line: &str) -> (r: Option<serde_json::Value>)
    ensures
        match r {
            Some(v) => json_parsed(line@) == Some(json_view(v)),
            None => json_parsed(line@) is None,
        },
{
    serde_json::from_str::<serde_json::Value>(line).ok()
}

/// Reads one level of a `serde_json::Value`: a number by `Number::as_i64`
/// and `Number::to_string`, an array by `Value::to_string`, an object by
/// walking its map.
///
/// Trusted: what it gives is the value's named view, one level deep.
#[verifier::external_body]
pub(crate) fn json_node(v: &serde_json::Value) -> (n: JsonNode)
    ensures
        node_view(n) == json_view(*v),
{
    match v {
        serde_json::Value::Null => JsonNode::Null,
        serde_json::Value::Bool(b) => JsonNode::Bool(*b),
        serde_json::Value::Number(x) => JsonNode::Number(x.as_i64(), x.to_string()),
        serde_json::Value::String(s) => JsonNode::Str(s.clone()),
        serde_json::Value::Array(_) => JsonNode::Array(v.to_string()),
        serde_json::Value::Object(m) => JsonNode::Object(m.iter().map(|(k, c)| (k.clone(), c.clone())).collect()),
    }
}

/// A path below `prefix`: the key alone at the top, else joined with a dot.
pub open spec fn path_join(prefix: Seq<char>, key: Seq<char>) -> Seq<char> {
    if prefix.len() == 0 {
        key
    } else {
        prefix + seq!['.'] + key
    }
}

/// The leaves of a value below `prefix`: each non-object value with its
/// dotted path, in the order the objects give their entries.
pub open spec fn spec_flatten(prefix: Seq<char>, v: JsonV) -> Seq<(Seq<char>, JsonV)>
    decreases v,
{
    match v {
        JsonV::Object(es) => flatten_entries(prefix, es),
        _ => seq![(prefix, v)],
    }
}

pub open spec fn flatten_entries(prefix: Seq<char>, es: Seq<(Seq<char>, JsonV)>) -> Seq<(Seq<char>, JsonV)>
    decreases es,
{
    if es.len() == 0 {
        Seq::empty()
    } else {
        proof {
            assert(decreases_to!(es => es[es.len() - 1]));
        }
        flatten_entries(prefix, es.drop_last()) + spec_flatten(path_join(prefix, es.last().0), es.last().1)
    }
}

/// The cell a leaf stands for: an integer where the number reads as an
/// `i64`, else the float given for its text (null where none is given); a
/// string as text; an array as its JSON text.
pub open spec fn leaf_cell(v: JsonV, ff: Seq<(Seq<char>, u64)>) -> CellV {
    match v {
        JsonV::Null => CellV::Null,
        JsonV::Bool(b) => CellV::Bool(b),
        JsonV::Number(Some(i), _) => CellV::Integer(i),
        JsonV::Number(None, t) => match float_of(ff, t) {
            Some(b) => CellV::Float(b),
            None => CellV::Null,
        },
        JsonV::Str(s) => CellV::String(s),
        JsonV::Array(t) => CellV::String(t),
        JsonV::Object(_) => CellV::Null,
    }
}

/// The leaves as keyed cells.
pub open spec fn cell_row(f: Seq<(Seq<char>, JsonV)>, ff: Seq<(Seq<char>, u64)>) -> Seq<(Seq<char>, CellV)> {
    Seq::new(f.len(), |k: int| (f[k].0, leaf_cell(f[k].1, ff)))
}

fn path_join_exec(prefix: &String, key: &String) -> (s: String)
    ensures
        s@ == path_join(prefix@, key@),
{
    if prefix.as_str().unicode_len() == 0 {
        key.clone()
    } else {
        let mut s = prefix.clone();
        s.push('.');
        s.append(key.as_str());
        s
    }
}

pub(crate) fn leaf_of(n: JsonNode, ff: &[(String, u64)]) -> (c: Cell)
    ensures
        c.deep_view() == leaf_cell(node_view(n), float_fields_view(ff@)),
{
    match n {
        JsonNode::Null => Cell::Null,
        JsonNode::Bool(b) => Cell::Bool(b),
        JsonNode::Number(Some(i), _) => Cell::Integer(i),
        JsonNode::Number(None, t) => match float_lookup(ff, &t) {
            Some(b) => Cell::Float(b),
            None => Cell::Null,
        },
        JsonNode::Str(s) => Cell::String(s),
        JsonNode::Array(t) => Cell::String(t),
        JsonNode::Object(_) => Cell::Null,
    }
}

/// Appends the keyed cells of the leaves of `v` below `prefix`.
fn flatten_into(prefix: &String, v: &serde_json::Value, ff: &[(String, u64)], out: &mut Vec<(String, Cell)>)
    ensures
        row_view(final(out)@) == row_view(old(out)@) + cell_row(spec_flatten(prefix@, json_view(*v)), float_fields_view(ff@)),
    decreases json_view(*v),
{
    let ghost fv = float_fields_view(ff@);
    let n = json_node(v);
    match n {
        JsonNode::Object(es) => {
            let ghost s = entries_view(es@);
            let ghost start = row_view(out@);
            assert(json_view(*v) == JsonV::Object(s));
            let mut i: usize = 0;
            assert(s.take(0) =~= Seq::<(Seq<char>, JsonV)>::empty());
            assert(cell_row(flatten_entries(prefix@, s.take(0)), fv) =~= Seq::<(Seq<char>, CellV)>::empty());
            assert(start + Seq::<(Seq<char>, CellV)>::empty() =~= start);
            while i < es.len()
                invariant
                    0 <= i <= es@.len(),
                    s == entries_view(es@),
                    json_view(*v) == JsonV::Object(s),
                    fv == float_fields_view(ff@),
                    row_view(out@) == start + cell_row(flatten_entries(prefix@, s.take(i as int)), fv),
                decreases es@.len() - i,
            {
                let name = path_join_exec(prefix, &es[i].0);
                let ghost before = row_view(out@);
                proof {
                    assert(s[i as int] == (es@[i as int].0@, json_view(es@[i as int].1)));
                    let o = json_view(*v);
                    assert(o->Object_0 == s);
                    assert(decreases_to!(o => o->Object_0));
                    assert(decreases_to!(s => s[i as int]));
                    assert(decreases_to!(s[i as int] => s[i as int].1));
                }
                flatten_into(&name, &es[i].1, ff, out);
                proof {
                    let a = flatten_entries(prefix@, s.take(i as int));
                    let b = spec_flatten(path_join(prefix@, s[i as int].0), s[i as int].1);
                    assert(s.take(i + 1).drop_last() =~= s.take(i as int));
                    assert(s.take(i + 1).last() == s[i as int]);
                    assert(flatten_entries(prefix@, s.take(i + 1)) == a + b);
                    assert(cell_row(a + b, fv) =~= cell_row(a, fv) + cell_row(b, fv));
                    assert(row_view(out@) =~= start + cell_row(a + b, fv));
                }
                i = i + 1;
            }
            assert(s.take(es@.len() as int) =~= s);
        },
        _ => {
            let ghost nv = node_view(n);
            proof {
                assert(nv !is Object);
                assert(spec_flatten(prefix@, nv) == seq![(prefix@, nv)]);
            }
            let c = leaf_of(n, ff);
            let ghost before = out@;
            out.push((prefix.clone(), c));
            proof {
                assert(row_view(out@) =~= row_view(before) + cell_row(seq![(prefix@, nv)], fv));
            }
        },
    }
}

/// The leaves of a JSON value as keyed cells, each under its dotted path;
/// `floats` gives the float that a number's text stands for where the
/// number is not an `i64`.
pub fn flatten_json(v: &serde_json::Value, floats: &[(String, u64)]) -> (out: Vec<(String, Cell)>)
    ensures
        row_view(out@) == cell_row(spec_flatten(Seq::empty(), json_view(*v)), float_fields_view(floats@)),
{
    let mut out: Vec<(String, Cell)> = Vec::new();
    let prefix = String::new();
    assert(row_view(out@) =~= Seq::<(Seq<char>, CellV)>::empty());
    flatten_into(&prefix, v, floats, &mut out);
    assert(row_view(out@) =~= cell_row(spec_flatten(Seq::empty(), json_view(*v)), float_fields_view(floats@)));
    out
}

/// The rows of the JSON lines, each flattened to keyed cells; the first line
/// that does not parse, or parses to a value that is not an object, decides
/// the error.
pub open spec fn spec_json_rows(lines: Seq<Seq<char>>, ff: Seq<(Seq<char>, u64)>) -> Result<Seq<Seq<(Seq<char>, CellV)>>, ArchiveError>
    decreases lines.len(),
{
    if lines.len() == 0 {
        Ok(Seq::empty())
    } else {
        match spec_json_rows(lines.drop_last(), ff) {
            Err(e) => Err(e),
            Ok(rows) => match json_parsed(lines.last()) {
                None => Err(ArchiveError::InvalidJsonLine),
                Some(JsonV::Object(es)) => Ok(rows.push(cell_row(spec_flatten(Seq::empty(), JsonV::Object(es)), ff))),
                Some(_) => Err(ArchiveError::JsonRowNotObject),
            },
        }
    }
}

/// The table of a JSON lines text: the input must be UTF-8; each line, as
/// `str::lines` gives it, that is not blank is a row of keyed cells, the
/// leaves of its object under their dotted paths; a column per path in the
/// order of `String`, absent where a row lacks the path.
pub open spec fn spec_parse_jsonl(input: Seq<u8>, ff: Seq<(Seq<char>, u64)>) -> Result<TableV, ArchiveError> {
    if !valid_utf8(input) {
        Err(ArchiveError::InvalidUtf8)
    } else {
        let t = decode_utf8(input);
        match spec_json_rows(nonblank(lines_from(t, 0)), ff) {
            Ok(rows) => Ok(spec_rows_to_table(InputFormat::Jsonl, rows, ends_with_newline(t))),
            Err(e) => Err(e),
        }
    }
}

proof fn lemma_rows_error(lines: Seq<Seq<char>>, k: int, ff: Seq<(Seq<char>, u64)>)
    requires
        0 <= k <= lines.len(),
        spec_json_rows(lines.take(k), ff) is Err,
    ensures
        spec_json_rows(lines, ff) == spec_json_rows(lines.take(k), ff),
    decreases lines.len(),
{
    if lines.len() == k {
        assert(lines.take(k) =~= lines);
    } else {
        assert(lines.drop_last().take(k) =~= lines.take(k));
        lemma_rows_error(lines.drop_last(), k, ff);
    }
}

pub open spec fn strings_view(v: Seq<String>) -> Seq<Seq<char>> {
    Seq::new(v.len(), |k: int| v[k]@)
}

/// The lines of the text that are not blank.
fn nonblank_lines(t: &Vec<char>) -> (r: Vec<String>)
    ensures
        strings_view(r@) == nonblank(lines_from(t@, 0)),
{
    let lines = split_lines(t);
    let ghost l = ranges_text(t@, lines@);
    let mut out: Vec<String> = Vec::new();
    let mut i: usize = 0;
    assert(strings_view(out@) =~= nonblank(l.take(0)));
    while i < lines.len()
        invariant
            0 <= i <= lines@.len(),
            ranges_ok(t@, lines@),
            l == ranges_text(t@, lines@),
            strings_view(out@) == nonblank(l.take(i as int)),
        decreases lines@.len() - i,
    {
        let (a, b) = lines[i];
        assert(l.take(i + 1).drop_last() =~= l.take(i as int));
        assert(l.take(i + 1).last() == t@.subrange(a as int, b as int));
        if !is_blank_range(t, a, b) {
            let ghost before = out@;
            out.push(string_of_range(t, a, b));
            assert(strings_view(out@) =~= strings_view(before).push(t@.subrange(a as int, b as int)));
        }
        i = i + 1;
    }
    assert(l.take(lines@.len() as int) =~= l);
    out
}

/// Parses JSON lines: each non-blank line a JSON object, flattened to
/// dotted-path columns; `floats` gives the float that a number's text
/// stands for where the number is not an `i64`.
pub fn parse(input: &[u8], floats: &[(String, u64)]) -> (r: Result<StoredTable, ArchiveError>)
    ensures
        match (r, spec_parse_jsonl(input@, float_fields_view(floats@))) {
            (Ok(tb), Ok(v)) => tb@ == v,
            (Err(e1), Err(e2)) => e1 == e2,
            _ => false,
        },
{
    let ghost fv = float_fields_view(floats@);
    let text = match string_from_utf8(vstd::slice::slice_to_vec(input)) {
        Some(s) => s,
        None => return Err(ArchiveError::InvalidUtf8),
    };
    let t = chars_of(text.as_str());
    let trailing = ends_with_newline_chars(&t);
    let lines = nonblank_lines(&t);
    let ghost nb = strings_view(lines@);
    let mut rows: Vec<Vec<(String, Cell)>> = Vec::new();
    let mut j: usize = 0;
    assert(rows_view(rows@) =~= Seq::<Seq<(Seq<char>, CellV)>>::empty());
    assert(nb.take(0) =~= Seq::<Seq<char>>::empty());
    assert(t@ == decode_utf8(input@));
    while j < lines.len()
        invariant
            0 <= j <= lines@.len(),
            valid_utf8(input@),
            nb == nonblank(lines_from(decode_utf8(input@), 0)),
            nb == strings_view(lines@),
            fv == float_fields_view(floats@),
            spec_json_rows(nb.take(j as int), fv) == Ok::<Seq<Seq<(Seq<char>, CellV)>>, ArchiveError>(rows_view(rows@)),
        decreases lines@.len() - j,
    {
        assert(nb.take(j + 1).drop_last() =~= nb.take(j as int));
        assert(nb.take(j + 1).last() == lines@[j as int]@);
        match json_from_str(lines[j].as_str()) {
            None => {
                proof {
                    lemma_rows_error(nb, j + 1, fv);
                }
                return Err(ArchiveError::InvalidJsonLine);
            },
            Some(v) => {
                let n = json_node(&v);
                match n {
                    JsonNode::Object(_) => {
                        let row = flatten_json(&v, floats);
                        let ghost before = rows@;
                        rows.push(row);
                        assert(rows_view(rows@) =~= rows_view(before).push(row_view(row@)));
                    },
                    _ => {
                        proof {
                            assert(node_view(n) !is Object);
                            lemma_rows_error(nb, j + 1, fv);
                        }
                        return Err(ArchiveError::JsonRowNotObject);
                    },
                }
            },
        }
        j = j + 1;
    }
    assert(nb.take(lines@.len() as int) =~= nb);
    Ok(rows_to_table(InputFormat::Jsonl, rows, trailing))
}

} // verus!
