//! JSON lines written back from a table: per row, an object built from the
//! dotted column paths, written by `serde_json`.
use vstd::prelude::*;
use vstd::utf8::encode_utf8;
use crate::formats::json::{JsonV, JsonNode, json_view, json_node, leaf_cell, leaf_of, node_view, strings_view};
use crate::formats::csv::float_fields_view;
use crate::formats::jsonl::{spec_reconstruct_raw, reconstruct_raw_lines};
use crate::formats::logs_text::cell_at;
use crate::formats::logs::lex_less;
use crate::formats::table::{Cell, CellV, ColumnV, StoredTable, TableV, columns_view};
use crate::column::cells::cells_view;
use crate::text::spec_i64_text;
use vstd::string::StringExecFns;

verus! {

/// The compact text that `serde_json::to_string` writes for a value.
pub uninterp spec fn json_text(v: JsonV) -> Seq<char>;

/// The position of the entry with key `k`, or the end.
pub open spec fn entry_pos(m: Seq<(Seq<char>, JsonV)>, k: Seq<char>, i: int) -> int
    decreases m.len() - i,
{
    if i >= m.len() {
        m.len() as int
    } else if m[i].0 == k {
        i
    } else {
        entry_pos(m, k, i + 1)
    }
}

/// How many keys of the entries come before `k` in the order of `String`.
pub open spec fn keys_before(m: Seq<(Seq<char>, JsonV)>, k: Seq<char>) -> nat
    decreases m.len(),
{
    if m.len() == 0 {
        0
    } else {
        keys_before(m.drop_last(), k) + (if lex_less(m.last().0, k) { 1nat } else { 0nat })
    }
}

/// A `BTreeMap` insertion into entries kept in key order: the entry with the
/// key takes the value, else the pair goes where its key belongs.
pub open spec fn map_insert(m: Seq<(Seq<char>, JsonV)>, k: Seq<char>, v: JsonV) -> Seq<(Seq<char>, JsonV)> {
    let p = entry_pos(m, k, 0);
    if p < m.len() {
        m.update(p, (k, v))
    } else {
        m.insert(keys_before(m, k) as int, (k, v))
    }
}

/// The entries of the `serde_json::Map` (a `BTreeMap`) collected from these
/// pairs in turn: sorted by key, the last value kept for a repeated key.
pub open spec fn map_entries(es: Seq<(Seq<char>, JsonV)>) -> Seq<(Seq<char>, JsonV)>
    decreases es.len(),
{
    if es.len() == 0 {
        Seq::empty()
    } else {
        map_insert(map_entries(es.drop_last()), es.last().0, es.last().1)
    }
}

/// The JSON value of a cell other than a float: null, a boolean, an integer
/// number with its decimal text, a string.
pub open spec fn plain_cell_json(c: CellV) -> JsonV {
    match c {
        CellV::Null => JsonV::Null,
        CellV::Bool(b) => JsonV::Bool(b),
        CellV::Integer(i) => JsonV::Number(Some(i), spec_i64_text(i)),
        CellV::Float(_) => JsonV::Null,
        CellV::String(s) => JsonV::Str(s),
    }
}

/// Builds the `serde_json::Value` of a cell that is not a float:
/// `Value::Null`, `Value::Bool`, `Value::from(i64)`, `Value::String`.
///
/// Trusted: the value's view is the cell's plain JSON value; a number made
/// from an `i64` reads back as that `i64` and is written in decimal.
#[verifier::external_body]
fn json_cell_value(c: &Cell) -> (r: Option<serde_json::Value>)
    ensures
        match c {
            Cell::Float(_) => r is None,
            _ => r matches Some(v) && json_view(v) == plain_cell_json(c.deep_view()),
        },
{
    match c {
        Cell::Null => Some(serde_json::Value::Null),
        Cell::Bool(b) => Some(serde_json::Value::Bool(*b)),
        Cell::Integer(i) => Some(serde_json::Value::from(*i)),
        Cell::Float(_) => None,
        Cell::String(s) => Some(serde_json::Value::String(s.clone())),
    }
}

/// `Value::clone`.
///
/// Trusted: the clone holds the same JSON value.
#[verifier::external_body]
fn json_clone(v: &serde_json::Value) -> (r: serde_json::Value)
    ensures
        json_view(r) == json_view(*v),
{
    v.clone()
}

/// Collects entries into a `serde_json::Map` and makes it a `Value::Object`.
///
/// Trusted: the map is a `BTreeMap` (no `preserve_order`); collecting inserts
/// the pairs in turn, so the object's entries are the pairs' views sorted by
/// key with the last value kept for a repeated key.
#[verifier::external_body]
fn json_object_of(es: Vec<(String, serde_json::Value)>) -> (r: serde_json::Value)
    ensures
        json_view(r) == JsonV::Object(map_entries(Seq::new(es@.len(), |i: int| (es@[i].0@, json_view(es@[i].1))))),
{
    serde_json::Value::Object(es.into_iter().collect())
}

/// `serde_json::to_string` of a value (the text `to_writer` writes).
///
/// Trusted: the text is the named compact text of the value's view.
#[verifier::external_body]
fn json_to_string(v: &serde_json::Value) -> (r: String)
    ensures
        r@ == json_text(json_view(*v)),
{
    v.to_string()
}

/// A row's object while it is built: a leaf value, or entries by key.
pub enum JsonOut {
    Leaf(serde_json::Value),
    Object(Vec<(String, JsonOut)>),
}

/// The mathematical value of a built object.
pub enum OutV {
    Leaf(JsonV),
    Object(Seq<(Seq<char>, OutV)>),
}

pub open spec fn out_view(o: JsonOut) -> OutV
    decreases o,
{
    match o {
        JsonOut::Leaf(v) => OutV::Leaf(json_view(v)),
        JsonOut::Object(es) => {
            proof {
                assert(decreases_to!(es => es@));
            }
            OutV::Object(out_entries(es@))
        },
    }
}

pub open spec fn out_entries(s: Seq<(String, JsonOut)>) -> Seq<(Seq<char>, OutV)>
    decreases s,
{
    if s.len() == 0 {
        Seq::empty()
    } else {
        proof {
            assert(decreases_to!(s => s[s.len() - 1]));
        }
        out_entries(s.drop_last()).push((s.last().0@, out_view(s.last().1)))
    }
}

proof fn lemma_out_entries(s: Seq<(String, JsonOut)>)
    ensures
        out_entries(s).len() == s.len(),
        forall|i: int| 0 <= i < s.len() ==> #[trigger] out_entries(s)[i] == (s[i].0@, out_view(s[i].1)),
    decreases s.len(),
{
    if s.len() > 0 {
        lemma_out_entries(s.drop_last());
        assert forall|i: int| 0 <= i < s.len() implies #[trigger] out_entries(s)[i] == (s[i].0@, out_view(s[i].1)) by {
            if i < s.len() - 1 {
                assert(s.drop_last()[i] == s[i]);
            }
        }
    }
}

/// The JSON value of a built object: each object as the object that a
/// `serde_json::Map` collects from its entries.
pub open spec fn out_json(o: OutV) -> JsonV
    decreases o,
{
    match o {
        OutV::Leaf(j) => j,
        OutV::Object(es) => JsonV::Object(map_entries(out_json_entries(es))),
    }
}

pub open spec fn out_json_entries(s: Seq<(Seq<char>, OutV)>) -> Seq<(Seq<char>, JsonV)>
    decreases s,
{
    if s.len() == 0 {
        Seq::empty()
    } else {
        proof {
            assert(decreases_to!(s => s[s.len() - 1]));
        }
        out_json_entries(s.drop_last()).push((s.last().0, out_json(s.last().1)))
    }
}

proof fn lemma_out_json_entries(s: Seq<(Seq<char>, OutV)>)
    ensures
        out_json_entries(s).len() == s.len(),
        forall|i: int| 0 <= i < s.len() ==> #[trigger] out_json_entries(s)[i] == (s[i].0, out_json(s[i].1)),
    decreases s.len(),
{
    if s.len() > 0 {
        lemma_out_json_entries(s.drop_last());
        assert forall|i: int| 0 <= i < s.len() implies #[trigger] out_json_entries(s)[i] == (s[i].0, out_json(s[i].1)) by {
            if i < s.len() - 1 {
                assert(s.drop_last()[i] == s[i]);
            }
        }
    }
}

/// The pieces of a text split at each `.`, as `str::split('.')` gives them.
pub open spec fn dot_split(s: Seq<char>) -> Seq<Seq<char>>
    decreases s.len(),
{
    if s.len() == 0 {
        seq![Seq::empty()]
    } else {
        let p = dot_split(s.drop_last());
        if s.last() == '.' {
            p.push(Seq::empty())
        } else {
            p.update(p.len() - 1, p.last().push(s.last()))
        }
    }
}

proof fn lemma_dot_split_len(s: Seq<char>)
    ensures
        dot_split(s).len() >= 1,
    decreases s.len(),
{
    if s.len() > 0 {
        lemma_dot_split_len(s.drop_last());
    }
}

/// The first position at or after `i` whose key is `k`, or the end.
pub open spec fn key_pos(es: Seq<(Seq<char>, OutV)>, k: Seq<char>, i: int) -> int
    decreases es.len() - i,
{
    if i >= es.len() {
        es.len() as int
    } else if es[i].0 == k {
        i
    } else {
        key_pos(es, k, i + 1)
    }
}

proof fn lemma_key_pos(es: Seq<(Seq<char>, OutV)>, k: Seq<char>, i: int)
    requires
        0 <= i <= es.len(),
    ensures
        i <= key_pos(es, k, i) <= es.len(),
        key_pos(es, k, i) < es.len() ==> es[key_pos(es, k, i)].0 == k,
        forall|j: int| i <= j < key_pos(es, k, i) ==> #[trigger] es[j].0 != k,
    decreases es.len() - i,
{
    if i < es.len() {
        lemma_key_pos(es, k, i + 1);
    }
}

/// A map insertion: the entry with the key gets the value, else the pair is
/// added at the end.
pub open spec fn obj_insert(es: Seq<(Seq<char>, OutV)>, k: Seq<char>, v: OutV) -> Seq<(Seq<char>, OutV)> {
    let p = key_pos(es, k, 0);
    if p < es.len() {
        es.update(p, (k, v))
    } else {
        es.push((k, v))
    }
}

/// The entries of the object under key `k`: empty where there is none or
/// where the key holds a leaf.
pub open spec fn child_entries(es: Seq<(Seq<char>, OutV)>, k: Seq<char>) -> Seq<(Seq<char>, OutV)> {
    let p = key_pos(es, k, 0);
    if p < es.len() {
        match es[p].1 {
            OutV::Object(c) => c,
            OutV::Leaf(_) => Seq::empty(),
        }
    } else {
        Seq::empty()
    }
}

/// Puts a leaf at a path of keys: every key but the last names an object,
/// made empty where it is missing or holds a leaf; the last key gets the leaf.
pub open spec fn spec_insert_path(es: Seq<(Seq<char>, OutV)>, parts: Seq<Seq<char>>, leaf: JsonV) -> Seq<(Seq<char>, OutV)>
    decreases parts.len(),
{
    if parts.len() == 0 {
        es
    } else if parts.len() == 1 {
        obj_insert(es, parts[0], OutV::Leaf(leaf))
    } else {
        obj_insert(es, parts[0], OutV::Object(spec_insert_path(child_entries(es, parts[0]), parts.drop_first(), leaf)))
    }
}

/// The view of the given float values by bit pattern.
pub open spec fn float_values_view(f: Seq<(u64, serde_json::Value)>) -> Seq<(u64, JsonV)> {
    Seq::new(f.len(), |i: int| (f[i].0, json_view(f[i].1)))
}

/// The JSON value given for a float's bits.
pub open spec fn float_value_of(fv: Seq<(u64, JsonV)>, b: u64) -> Option<JsonV>
    decreases fv.len(),
{
    if fv.len() == 0 {
        None
    } else if fv[0].0 == b {
        Some(fv[0].1)
    } else {
        float_value_of(fv.drop_first(), b)
    }
}

/// The JSON value of a cell: a float as the value given for its bits (null
/// where none is), any other cell as its plain JSON value.
pub open spec fn cell_json(c: CellV, fv: Seq<(u64, JsonV)>) -> JsonV {
    match c {
        CellV::Float(b) => match float_value_of(fv, b) {
            Some(j) => j,
            None => JsonV::Null,
        },
        _ => plain_cell_json(c),
    }
}

/// The entries of row `r`'s object: each column's present cell put at the
/// column name's dotted path, column by column.
pub open spec fn row_entries(cols: Seq<ColumnV>, r: int, fv: Seq<(u64, JsonV)>) -> Seq<(Seq<char>, OutV)>
    decreases cols.len(),
{
    if cols.len() == 0 {
        Seq::empty()
    } else {
        let base = row_entries(cols.drop_last(), r, fv);
        match cell_at(cols.last(), r) {
            Some(c) => spec_insert_path(base, dot_split(cols.last().name), cell_json(c, fv)),
            None => base,
        }
    }
}

/// Each row's JSON text and its newline.
pub open spec fn json_rows(t: TableV, fv: Seq<(u64, JsonV)>) -> Seq<Seq<char>> {
    Seq::new(t.row_count as nat, |r: int| json_text(out_json(OutV::Object(row_entries(t.columns, r, fv))))
        + (if r + 1 < t.row_count || t.trailing_newline { seq!['\n'] } else { Seq::empty() }))
}

/// The JSON lines text of a table: the raw lines where it keeps them, else
/// one object per row.
pub open spec fn spec_reconstruct_jsonl(t: TableV, fv: Seq<(u64, JsonV)>) -> Seq<char> {
    match spec_reconstruct_raw(t) {
        Some(s) => s,
        None => json_rows(t, fv).flatten(),
    }
}

/// Splits a column name at each `.`.
fn dot_parts(s: &String) -> (r: Vec<String>)
    ensures
        strings_view(r@) == dot_split(s@),
{
    let t = crate::detect::chars_of(s.as_str());
    let mut parts: Vec<String> = Vec::new();
    let mut cur = String::new();
    let mut i: usize = 0;
    assert(t@.take(0) =~= Seq::<char>::empty());
    assert(strings_view(parts@).push(cur@) =~= dot_split(t@.take(0)));
    while i < t.len()
        invariant
            0 <= i <= t@.len(),
            t@ == s@,
            strings_view(parts@).push(cur@) == dot_split(t@.take(i as int)),
        decreases t@.len() - i,
    {
        let c = t[i];
        let ghost before = strings_view(parts@).push(cur@);
        assert(t@.take(i + 1).drop_last() =~= t@.take(i as int));
        assert(t@.take(i + 1).last() == c);
        if c == '.' {
            let done = cur;
            parts.push(done);
            cur = String::new();
            assert(strings_view(parts@).push(cur@) =~= before.push(Seq::empty()));
        } else {
            cur.push(c);
            assert(strings_view(parts@).push(cur@) =~= before.update(before.len() - 1, before.last().push(c)));
        }
        i = i + 1;
    }
    assert(t@.take(t@.len() as int) =~= t@);
    parts.push(cur);
    parts
}

fn key_index(es: &Vec<(String, JsonOut)>, k: &String) -> (p: usize)
    ensures
        p == key_pos(out_entries(es@), k@, 0),
{
    let ghost s = out_entries(es@);
    proof {
        lemma_out_entries(es@);
    }
    let mut i: usize = 0;
    while i < es.len()
        invariant
            0 <= i <= es@.len(),
            s == out_entries(es@),
            s.len() == es@.len(),
            forall|j: int| 0 <= j < es@.len() ==> #[trigger] s[j] == (es@[j].0@, out_view(es@[j].1)),
            key_pos(s, k@, 0) == key_pos(s, k@, i as int),
        decreases es@.len() - i,
    {
        if es[i].0 == *k {
            assert(s[i as int].0 == k@);
            return i;
        }
        assert(s[i as int].0 != k@);
        i = i + 1;
    }
    i
}

/// Puts a leaf at the path `parts[p..]` of the entries.
fn insert_path(es: Vec<(String, JsonOut)>, parts: &Vec<String>, p: usize, leaf: serde_json::Value) -> (r: Vec<(String, JsonOut)>)
    requires
        p < parts@.len(),
    ensures
        out_entries(r@) == spec_insert_path(out_entries(es@), strings_view(parts@).skip(p as int), json_view(leaf)),
    decreases parts@.len() - p,
{
    let ghost orig = es@;
    let ghost s = out_entries(es@);
    let ghost ps = strings_view(parts@).skip(p as int);
    let ghost lv = json_view(leaf);
    let mut es = es;
    proof {
        lemma_out_entries(orig);
    }
    let key = parts[p].clone();
    assert(ps[0] == key@);
    let idx = key_index(&es, &key);
    proof {
        lemma_key_pos(s, key@, 0);
    }
    let value = if p == parts.len() - 1 {
        assert(ps.len() == 1);
        JsonOut::Leaf(leaf)
    } else {
        let mut child: Vec<(String, JsonOut)> = Vec::new();
        proof {
            lemma_out_entries(child@);
        }
        if idx < es.len() {
            let (k0, old) = es.remove(idx);
            assert(s[idx as int] == (k0@, out_view(old)));
            es.insert(idx, (k0, JsonOut::Object(Vec::new())));
            match old {
                JsonOut::Object(c) => {
                    child = c;
                },
                JsonOut::Leaf(_) => {},
            }
        }
        assert(out_entries(child@) =~= child_entries(s, key@));
        assert(ps.drop_first() =~= strings_view(parts@).skip(p + 1));
        let sub = insert_path(child, parts, p + 1, leaf);
        JsonOut::Object(sub)
    };
    let ghost vv = out_view(value);
    assert(ps.len() == 1 ==> vv == OutV::Leaf(lv));
    assert(ps.len() > 1 ==> vv == OutV::Object(spec_insert_path(child_entries(s, key@), ps.drop_first(), lv)));
    if idx < es.len() {
        es.set(idx, (key, value));
        proof {
            lemma_out_entries(es@);
            assert(out_entries(es@) =~= s.update(idx as int, (key@, vv)));
        }
    } else {
        es.push((key, value));
        proof {
            lemma_out_entries(es@);
            assert(out_entries(es@) =~= s.push((key@, vv)));
        }
    }
    es
}

fn to_value(o: &JsonOut) -> (v: serde_json::Value)
    ensures
        json_view(v) == out_json(out_view(*o)),
    decreases out_view(*o),
{
    match o {
        JsonOut::Leaf(x) => json_clone(x),
        JsonOut::Object(es) => {
            let ghost s = out_entries(es@);
            proof {
                lemma_out_entries(es@);
                lemma_out_json_entries(s);
            }
            let mut items: Vec<(String, serde_json::Value)> = Vec::new();
            let mut i: usize = 0;
            while i < es.len()
                invariant
                    0 <= i <= es@.len(),
                    s == out_entries(es@),
                    s.len() == es@.len(),
                    out_view(*o) == OutV::Object(s),
                    forall|j: int| 0 <= j < es@.len() ==> #[trigger] s[j] == (es@[j].0@, out_view(es@[j].1)),
                    items@.len() == i,
                    forall|k: int| 0 <= k < i ==> (#[trigger] items@[k].0@, json_view(items@[k].1)) == (s[k].0, out_json(s[k].1)),
                decreases es@.len() - i,
            {
                proof {
                    let ov = out_view(*o);
                    assert(ov->Object_0 == s);
                    assert(decreases_to!(ov => ov->Object_0));
                    assert(decreases_to!(s => s[i as int]));
                    assert(decreases_to!(s[i as int] => s[i as int].1));
                }
                let child = to_value(&es[i].1);
                items.push((es[i].0.clone(), child));
                i = i + 1;
            }
            assert(Seq::new(items@.len(), |k: int| (items@[k].0@, json_view(items@[k].1))) =~= out_json_entries(s));
            json_object_of(items)
        },
    }
}

impl Cell {
    /// The JSON value of the cell: a float as the value given for its bits
    /// (null where none is given).
    pub fn to_json(&self, floats: &[(u64, serde_json::Value)]) -> (v: serde_json::Value)
        ensures
            json_view(v) == cell_json(self.deep_view(), float_values_view(floats@)),
    {
        match self {
            Cell::Float(b) => {
                let ghost fv = float_values_view(floats@);
                let mut i: usize = 0;
                assert(fv.skip(0) =~= fv);
                while i < floats.len()
                    invariant
                        0 <= i <= floats@.len(),
                        fv == float_values_view(floats@),
                        self.deep_view() == CellV::Float(*b),
                        float_value_of(fv, *b) == float_value_of(fv.skip(i as int), *b),
                    decreases floats@.len() - i,
                {
                    assert(fv.skip(i as int)[0] == fv[i as int]);
                    assert(fv.skip(i as int).drop_first() =~= fv.skip(i + 1));
                    if floats[i].0 == *b {
                        assert(fv[i as int] == (floats@[i as int].0, json_view(floats@[i as int].1)));
                        assert(float_value_of(fv.skip(i as int), *b) == Some(fv[i as int].1));
                        return json_clone(&floats[i].1);
                    }
                    i = i + 1;
                }
                assert(fv.skip(i as int).len() == 0);
                json_cell_value(&Cell::Null).unwrap()
            },
            _ => json_cell_value(self).unwrap(),
        }
    }
}

/// The entries of row `r`'s object, built column by column.
fn row_object(t: &StoredTable, r: usize, floats: &[(u64, serde_json::Value)]) -> (es: Vec<(String, JsonOut)>)
    ensures
        out_entries(es@) == row_entries(columns_view(t.columns@), r as int, float_values_view(floats@)),
{
    let ghost cv = columns_view(t.columns@);
    let ghost fv = float_values_view(floats@);
    let mut es: Vec<(String, JsonOut)> = Vec::new();
    let mut j: usize = 0;
    proof {
        lemma_out_entries(es@);
    }
    assert(out_entries(es@) =~= row_entries(cv.take(0), r as int, fv));
    while j < t.columns.len()
        invariant
            0 <= j <= t.columns@.len(),
            cv == columns_view(t.columns@),
            fv == float_values_view(floats@),
            out_entries(es@) == row_entries(cv.take(j as int), r as int, fv),
        decreases t.columns@.len() - j,
    {
        let col = &t.columns[j];
        assert(cv.take(j + 1).drop_last() =~= cv.take(j as int));
        assert(cv.take(j + 1).last() == col@);
        if r < col.values.len() {
            assert(cell_at(col@, r as int) == col.values@[r as int].deep_view());
            match &col.values[r] {
                Some(c) => {
                    let leaf = c.to_json(floats);
                    let parts = dot_parts(&col.name);
                    proof {
                        lemma_dot_split_len(col.name@);
                        assert(strings_view(parts@).skip(0) =~= strings_view(parts@));
                    }
                    es = insert_path(es, &parts, 0, leaf);
                },
                None => {},
            }
        } else {
            assert(cell_at(col@, r as int) is None);
        }
        j = j + 1;
    }
    assert(cv.take(t.columns@.len() as int) =~= cv);
    es
}

/// Rebuilds JSON lines: the raw lines where the table keeps them, else one
/// object per row from the dotted column paths, written by `serde_json`;
/// `floats` gives the JSON value of each float cell's bits.
pub fn reconstruct(table: &StoredTable, floats: &[(u64, serde_json::Value)]) -> (out: Vec<u8>)
    ensures
        out@ == encode_utf8(spec_reconstruct_jsonl(table@, float_values_view(floats@))),
{
    match reconstruct_raw_lines(table) {
        Some(b) => {
            return b;
        },
        None => {},
    }
    let ghost fv = float_values_view(floats@);
    let ghost rows = json_rows(table@, fv);
    let mut out = String::new();
    let mut r: usize = 0;
    assert(rows.take(0) =~= Seq::<Seq<char>>::empty());
    while r < table.row_count
        invariant
            0 <= r <= table.row_count,
            fv == float_values_view(floats@),
            rows == json_rows(table@, fv),
            out@ == rows.take(r as int).flatten(),
        decreases table.row_count - r,
    {
        let ghost before = out@;
        let es = row_object(table, r, floats);
        let obj = JsonOut::Object(es);
        let v = to_value(&obj);
        let text = json_to_string(&v);
        out.append(text.as_str());
        if r + 1 < table.row_count || table.trailing_newline {
            out.push('\n');
        }
        assert(out@ =~= before + rows[r as int]);
        assert(rows.take(r + 1) =~= rows.take(r as int).push(rows[r as int]));
        proof {
            rows.take(r as int).lemma_flatten_push(rows[r as int]);
        }
        r = r + 1;
    }
    assert(rows.take(table.row_count as int) =~= rows);
    vstd::slice::slice_to_vec(out.as_str().as_bytes())
}

/// The cell a JSON value stands for: an object as its JSON text, any other
/// value as a leaf of a flattened row.
pub open spec fn value_cell(v: JsonV, ff: Seq<(Seq<char>, u64)>) -> CellV {
    match v {
        JsonV::Object(_) => CellV::String(json_text(v)),
        _ => leaf_cell(v, ff),
    }
}

/// The cell a JSON value stands for: an integer where the number reads as an
/// `i64`, else the float given for its text (null where none is given);
/// strings as text; arrays and objects as their JSON text.
pub fn value_to_cell(v: &serde_json::Value, floats: &[(String, u64)]) -> (c: Cell)
    ensures
        c.deep_view() == value_cell(json_view(*v), float_fields_view(floats@)),
{
    let n = json_node(v);
    match n {
        JsonNode::Object(_) => Cell::String(json_to_string(v)),
        _ => leaf_of(n, floats),
    }
}

} // verus!
