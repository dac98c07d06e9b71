//! The in-memory table: named columns of optional cells.
use vstd::prelude::*;
use crate::header::InputFormat;
use crate::column::cells::cells_view;
use crate::column::ColumnPlan;
use crate::column::chunk::{spec_choose_codec, spec_encode_chunk, choose_best_codec, estimate_encoded_len};
use crate::schema::{ColumnSchema, Schema};
use crate::schema::infer::{spec_infer_type, infer_type};
use vstd::utf8::encode_utf8;
use crate::text::{spec_i64_text, i64_to_string, string_of_range};

pub use crate::formats::json_write::value_to_cell;

verus! {

/// One value of a table. A float is held as its IEEE-754 bit pattern.
#[derive(Debug, Clone)]
pub enum Cell {
    Null,
    Bool(bool),
    Integer(i64),
    Float(u64),
    String(String),
}

/// The mathematical value of a cell.
pub enum CellV {
    Null,
    Bool(bool),
    Integer(i64),
    Float(u64),
    String(Seq<char>),
}

impl DeepView for Cell {
    type V = CellV;

    open spec fn deep_view(&self) -> CellV {
        match self {
            Cell::Null => CellV::Null,
            Cell::Bool(b) => CellV::Bool(*b),
            Cell::Integer(x) => CellV::Integer(*x),
            Cell::Float(x) => CellV::Float(*x),
            Cell::String(s) => CellV::String(s@),
        }
    }
}

#[derive(Debug, Clone, Copy, PartialEq, Eq, Structural)]
pub enum LineEnding {
    Lf,
    CrLf,
}

#[derive(Debug, Clone)]
pub struct StoredColumn {
    pub name: String,
    pub values: Vec<Option<Cell>>,
}

#[derive(Debug, Clone)]
pub struct StoredTable {
    pub format: InputFormat,
    pub delimiter: Option<u8>,
    pub line_ending: LineEnding,
    pub columns: Vec<StoredColumn>,
    pub row_count: usize,
    pub trailing_newline: bool,
}

/// The mathematical value of a column: its name and its values.
pub struct ColumnV {
    pub name: Seq<char>,
    pub values: Seq<Option<CellV>>,
}

/// The mathematical value of a table.
pub struct TableV {
    pub format: InputFormat,
    pub delimiter: Option<u8>,
    pub line_ending: LineEnding,
    pub columns: Seq<ColumnV>,
    pub row_count: usize,
    pub trailing_newline: bool,
}

impl View for StoredColumn {
    type V = ColumnV;

    open spec fn view(&self) -> ColumnV {
        ColumnV { name: self.name@, values: cells_view(self.values@) }
    }
}

/// The views of the columns.
pub open spec fn columns_view(c: Seq<StoredColumn>) -> Seq<ColumnV> {
    Seq::new(c.len(), |j: int| c[j]@)
}

impl View for StoredTable {
    type V = TableV;

    open spec fn view(&self) -> TableV {
        TableV {
            format: self.format,
            delimiter: self.delimiter,
            line_ending: self.line_ending,
            columns: columns_view(self.columns@),
            row_count: self.row_count,
            trailing_newline: self.trailing_newline,
        }
    }
}

/// The bytes hold a carriage return followed by a newline.
pub open spec fn has_crlf(b: Seq<u8>) -> bool {
    exists|i: int| 0 <= i && i + 1 < b.len() && b[i] == 13 && #[trigger] b[i + 1] == 10
}

/// The line ending a text is rebuilt with: CRLF where any CRLF occurs.
pub open spec fn spec_line_ending(b: Seq<u8>) -> LineEnding {
    if has_crlf(b) {
        LineEnding::CrLf
    } else {
        LineEnding::Lf
    }
}

/// The line ending of the input: `CrLf` where a carriage return and a newline
/// follow each other anywhere, else `Lf`.
pub fn line_ending_of(input: &[u8]) -> (le: LineEnding)
    ensures
        le == spec_line_ending(input@),
{
    if input.len() < 2 {
        return LineEnding::Lf;
    }
    let mut i: usize = 0;
    while i < input.len() - 1
        invariant
            0 <= i <= input@.len() - 1,
            input@.len() >= 2,
            forall|k: int| 0 <= k < i && k + 1 < input@.len() ==> !(input@[k] == 13 && #[trigger] input@[k + 1] == 10),
        decreases input@.len() - i,
    {
        if input[i] == 13 && input[i + 1] == 10 {
            return LineEnding::CrLf;
        }
        i = i + 1;
    }
    assert(!has_crlf(input@)) by {
        assert forall|k: int| 0 <= k && k + 1 < input@.len() implies !(input@[k] == 13 && #[trigger] input@[k + 1] == 10) by {
            assert(k < i);
        }
    }
    LineEnding::Lf
}

/// The text ends with a newline.
pub open spec fn ends_with_newline(t: Seq<char>) -> bool {
    t.len() > 0 && t.last() == '\n'
}

/// Whether the characters end with a newline.
pub fn ends_with_newline_chars(t: &[char]) -> (r: bool)
    ensures
        r == ends_with_newline(t@),
{
    t.len() > 0 && t[t.len() - 1] == '\n'
}

/// The texts given for floats, each with its bit pattern.
pub open spec fn floats_view(f: Seq<(u64, String)>) -> Seq<(u64, Seq<char>)> {
    Seq::new(f.len(), |i: int| (f[i].0, f[i].1@))
}

/// The text given for the float with bit pattern `b`: that of the first entry
/// for it, else nothing.
pub open spec fn float_text(ft: Seq<(u64, Seq<char>)>, b: u64) -> Seq<char>
    decreases ft.len(),
{
    if ft.len() == 0 {
        Seq::empty()
    } else if ft[0].0 == b {
        ft[0].1
    } else {
        float_text(ft.drop_first(), b)
    }
}

/// The text of a cell as `to_stable_string` writes it: `null`, `true` or
/// `false`, the decimal integer, the text given for a float, or the string.
pub open spec fn stable_text(c: CellV, ft: Seq<(u64, Seq<char>)>) -> Seq<char> {
    match c {
        CellV::Null => seq!['n', 'u', 'l', 'l'],
        CellV::Bool(b) => if b { seq!['t', 'r', 'u', 'e'] } else { seq!['f', 'a', 'l', 's', 'e'] },
        CellV::Integer(x) => spec_i64_text(x),
        CellV::Float(b) => float_text(ft, b),
        CellV::String(s) => s,
    }
}

/// The text given for the float with bit pattern `b`.
pub fn float_string(floats: &[(u64, String)], b: u64) -> (s: String)
    ensures
        s@ == float_text(floats_view(floats@), b),
{
    let ghost ft = floats_view(floats@);
    let mut i: usize = 0;
    assert(ft.skip(0) =~= ft);
    while i < floats.len()
        invariant
            0 <= i <= floats@.len(),
            ft == floats_view(floats@),
            float_text(ft, b) == float_text(ft.skip(i as int), b),
        decreases floats@.len() - i,
    {
        assert(ft.skip(i as int)[0] == ft[i as int]);
        assert(ft.skip(i as int).drop_first() =~= ft.skip(i + 1));
        if floats[i].0 == b {
            return floats[i].1.clone();
        }
        i = i + 1;
    }
    String::new()
}

/// The text of a cell; floats take the text given for their bit pattern.
pub fn stable_string(c: &Cell, floats: &[(u64, String)]) -> (s: String)
    ensures
        s@ == stable_text(c.deep_view(), floats_view(floats@)),
{
    match c {
        Cell::Null => {
            let a = ['n', 'u', 'l', 'l'];
            assert(a@.subrange(0, 4) =~= seq!['n', 'u', 'l', 'l']);
            string_of_range(&a, 0, 4)
        },
        Cell::Bool(b) => {
            if *b {
                let a = ['t', 'r', 'u', 'e'];
                assert(a@.subrange(0, 4) =~= seq!['t', 'r', 'u', 'e']);
                string_of_range(&a, 0, 4)
            } else {
                let a = ['f', 'a', 'l', 's', 'e'];
                assert(a@.subrange(0, 5) =~= seq!['f', 'a', 'l', 's', 'e']);
                string_of_range(&a, 0, 5)
            }
        },
        Cell::Integer(x) => i64_to_string(*x),
        Cell::Float(b) => float_string(floats, *b),
        Cell::String(s) => s.clone(),
    }
}

/// `x` is the bit pattern of a NaN.
pub open spec fn float_bits_is_nan(x: u64) -> bool {
    x & 0x7FF0_0000_0000_0000 == 0x7FF0_0000_0000_0000 && x & 0x000F_FFFF_FFFF_FFFF != 0
}

/// IEEE-754 equality of two doubles given by their bit patterns: NaN equals
/// nothing, the two zeros are equal, and otherwise equal means equal bits.
pub open spec fn float_bits_eq(a: u64, b: u64) -> bool {
    !float_bits_is_nan(a) && !float_bits_is_nan(b) && (a == b || (a | b) & 0x7FFF_FFFF_FFFF_FFFF == 0)
}

/// Equality of optional cells as `==` on them compares (floats by IEEE-754 equality).
pub open spec fn spec_cell_eq(a: Option<CellV>, b: Option<CellV>) -> bool {
    match (a, b) {
        (None, None) => true,
        (Some(CellV::Null), Some(CellV::Null)) => true,
        (Some(CellV::Bool(x)), Some(CellV::Bool(y))) => x == y,
        (Some(CellV::Integer(x)), Some(CellV::Integer(y))) => x == y,
        (Some(CellV::Float(x)), Some(CellV::Float(y))) => float_bits_eq(x, y),
        (Some(CellV::String(x)), Some(CellV::String(y))) => x == y,
        _ => false,
    }
}

pub fn float_bits_equal(a: u64, b: u64) -> (r: bool)
    ensures
        r == float_bits_eq(a, b),
{
    let a_nan = (a & 0x7FF0_0000_0000_0000) == 0x7FF0_0000_0000_0000 && (a & 0x000F_FFFF_FFFF_FFFF) != 0;
    let b_nan = (b & 0x7FF0_0000_0000_0000) == 0x7FF0_0000_0000_0000 && (b & 0x000F_FFFF_FFFF_FFFF) != 0;
    !a_nan && !b_nan && (a == b || ((a | b) & 0x7FFF_FFFF_FFFF_FFFF) == 0)
}

/// `==` on optional cells.
pub fn cell_eq(a: &Option<Cell>, b: &Option<Cell>) -> (r: bool)
    ensures
        r == spec_cell_eq(a.deep_view(), b.deep_view()),
{
    match (a, b) {
        (None, None) => true,
        (Some(Cell::Null), Some(Cell::Null)) => true,
        (Some(Cell::Bool(x)), Some(Cell::Bool(y))) => *x == *y,
        (Some(Cell::Integer(x)), Some(Cell::Integer(y))) => *x == *y,
        (Some(Cell::Float(x)), Some(Cell::Float(y))) => float_bits_equal(*x, *y),
        (Some(Cell::String(x)), Some(Cell::String(y))) => *x == *y,
        _ => false,
    }
}

/// The size of a cell's bincode encoding: a `u32` variant tag, then its value.
pub open spec fn bincode_cell_size(c: CellV) -> nat {
    4 + match c {
        CellV::Null => 0nat,
        CellV::Bool(_) => 1nat,
        CellV::Integer(_) => 8nat,
        CellV::Float(_) => 8nat,
        CellV::String(t) => 8 + encode_utf8(t).len(),
    }
}

/// The size of the bincode encoding of a column's values (`bincode::serialized_size`
/// with its default fixed-width integers): a `u64` length, then each value as an
/// option tag and the cell.
pub open spec fn bincode_values_size(v: Seq<Option<CellV>>) -> nat
    decreases v.len(),
{
    if v.len() == 0 {
        8
    } else {
        bincode_values_size(v.drop_last()) + match v.last() {
            None => 1nat,
            Some(c) => 1 + bincode_cell_size(c),
        }
    }
}

/// Whether some value is absent.
pub open spec fn has_absent(v: Seq<Option<CellV>>) -> bool {
    exists|i: int| 0 <= i < v.len() && #[trigger] v[i] is None
}

/// The schema entry of a column.
pub open spec fn schema_entry(c: ColumnV, row_count: nat, unique: nat) -> crate::header::SchemaColV {
    crate::header::SchemaColV {
        name: c.name,
        column_type: spec_infer_type(c.values, row_count, unique),
        nullable: has_absent(c.values),
    }
}

/// The plan of a column: its type, the codec chosen for all its values, the
/// size of its bincode encoding and the length of its chunk under that codec.
pub open spec fn plan_entry(c: ColumnV, row_count: nat, unique: nat) -> crate::header::PlanV {
    let codec = spec_choose_codec(c.values);
    crate::header::PlanV {
        name: c.name,
        column_type: spec_infer_type(c.values, row_count, unique),
        codec,
        original_len: bincode_values_size(c.values) as u64,
        encoded_len_estimate: match spec_encode_chunk(c.values, codec) {
            Ok(b) => b.len() as u64,
            Err(_) => u64::MAX,
        },
    }
}

proof fn lemma_bincode_prefix(v: Seq<Option<CellV>>, i: int)
    requires
        0 <= i <= v.len(),
    ensures
        bincode_values_size(v.take(i)) <= bincode_values_size(v),
    decreases v.len() - i,
{
    if i < v.len() {
        lemma_bincode_prefix(v, i + 1);
        assert(v.take(i + 1).drop_last() =~= v.take(i));
    } else {
        assert(v.take(i) =~= v);
    }
}

/// The size of the bincode encoding of a column's values, when it fits in a
/// `u64`.
pub fn bincode_size_checked(values: &[Option<Cell>]) -> (r: Option<u64>)
    ensures
        match r {
            Some(n) => bincode_values_size(cells_view(values@)) <= u64::MAX && n == bincode_values_size(cells_view(values@)),
            None => bincode_values_size(cells_view(values@)) > u64::MAX,
        },
{
    let ghost v = cells_view(values@);
    let mut acc: u64 = 8;
    let mut i: usize = 0;
    while i < values.len()
        invariant
            0 <= i <= values.len(),
            v == cells_view(values@),
            acc == bincode_values_size(v.take(i as int)),
        decreases values.len() - i,
    {
        assert(v.take(i + 1).drop_last() =~= v.take(i as int));
        assert(v[i as int] == values@[i as int].deep_view());
        let add: u64 = match &values[i] {
            None => 1,
            Some(c) => match c {
                Cell::String(t) => {
                    let b = t.as_str().as_bytes();
                    if b.len() as u64 > u64::MAX - 13 {
                        proof {
                            lemma_bincode_prefix(v, i + 1);
                        }
                        return None;
                    }
                    13 + b.len() as u64
                },
                Cell::Null => 5,
                Cell::Bool(_) => 6,
                _ => 13,
            },
        };
        if acc > u64::MAX - add {
            proof {
                lemma_bincode_prefix(v, i + 1);
            }
            return None;
        }
        acc = acc + add;
        i = i + 1;
    }
    assert(v.take(values.len() as int) =~= v);
    Some(acc)
}

impl StoredTable {
    /// The schema and the column plans of the table; `uniques[j]` is the number
    /// of distinct texts among column `j`'s present values.
    pub fn schema_and_plans(&self, uniques: &[usize]) -> (r: (Schema, Vec<ColumnPlan>))
        requires
            uniques@.len() == self.columns@.len(),
            forall|j: int| 0 <= j < self.columns@.len() ==> bincode_values_size(#[trigger] self@.columns[j].values) <= u64::MAX,
        ensures
            r.0.columns@.len() == self.columns@.len(),
            r.1@.len() == self.columns@.len(),
            forall|j: int| 0 <= j < self.columns@.len() ==> crate::header::schema_col_view(#[trigger] r.0.columns@[j])
                == schema_entry(self@.columns[j], self.row_count as nat, uniques@[j] as nat),
            forall|j: int| 0 <= j < self.columns@.len() ==> crate::header::plan_view(#[trigger] r.1@[j])
                == plan_entry(self@.columns[j], self.row_count as nat, uniques@[j] as nat),
    {
        let mut schema: Vec<ColumnSchema> = Vec::new();
        let mut plans: Vec<ColumnPlan> = Vec::new();
        let mut j: usize = 0;
        while j < self.columns.len()
            invariant
                0 <= j <= self.columns@.len(),
                uniques@.len() == self.columns@.len(),
                forall|m: int| 0 <= m < self.columns@.len() ==> bincode_values_size(#[trigger] self@.columns[m].values) <= u64::MAX,
                schema@.len() == j,
                plans@.len() == j,
                forall|k: int| 0 <= k < j ==> crate::header::schema_col_view(#[trigger] schema@[k])
                    == schema_entry(self@.columns[k], self.row_count as nat, uniques@[k] as nat),
                forall|k: int| 0 <= k < j ==> crate::header::plan_view(#[trigger] plans@[k])
                    == plan_entry(self@.columns[k], self.row_count as nat, uniques@[k] as nat),
            decreases self.columns@.len() - j,
        {
            let col = &self.columns[j];
            let values = col.values.as_slice();
            assert(self@.columns[j as int] == col@);
            assert(cells_view(values@) == self@.columns[j as int].values);
            let column_type = infer_type(values, self.row_count, uniques[j]);
            let codec = choose_best_codec(values);
            let original_len = match bincode_size_checked(values) {
                Some(n) => n,
                None => 0,
            };
            let encoded_len_estimate = estimate_encoded_len(values, codec);
            let mut nullable = false;
            let mut k: usize = 0;
            while k < values.len()
                invariant
                    0 <= k <= values@.len(),
                    nullable <==> exists|m: int| 0 <= m < k && #[trigger] cells_view(values@)[m] is None,
                decreases values@.len() - k,
            {
                if values[k].is_none() {
                    nullable = true;
                    assert(cells_view(values@)[k as int] is None);
                }
                k = k + 1;
            }
            schema.push(ColumnSchema { name: col.name.clone(), column_type, nullable });
            plans.push(ColumnPlan {
                name: col.name.clone(),
                column_type,
                codec,
                original_len,
                encoded_len_estimate,
            });
            j = j + 1;
        }
        (Schema { columns: schema }, plans)
    }
}

/// The pairs of a row as keys and cell values.
pub open spec fn row_view(row: Seq<(String, Cell)>) -> Seq<(Seq<char>, CellV)> {
    Seq::new(row.len(), |k: int| (row[k].0@, row[k].1.deep_view()))
}

/// The rows as keys and cell values.
pub open spec fn rows_view(rows: Seq<Vec<(String, Cell)>>) -> Seq<Seq<(Seq<char>, CellV)>> {
    Seq::new(rows.len(), |r: int| row_view(rows[r]@))
}

/// How many of the names come before `x` in the order of `String`.
pub open spec fn count_less(s: Seq<Seq<char>>, x: Seq<char>) -> nat
    decreases s.len(),
{
    if s.len() == 0 {
        0
    } else {
        count_less(s.drop_last(), x) + (if crate::formats::logs::lex_less(s.last(), x) { 1nat } else { 0nat })
    }
}

/// The names with `x` put in after those that come before it, unless it is
/// there already.
pub open spec fn insert_name(s: Seq<Seq<char>>, x: Seq<char>) -> Seq<Seq<char>> {
    if s.contains(x) {
        s
    } else {
        s.insert(count_less(s, x) as int, x)
    }
}

/// The names with each key of a row put in.
pub open spec fn insert_keys(s: Seq<Seq<char>>, row: Seq<(Seq<char>, CellV)>) -> Seq<Seq<char>>
    decreases row.len(),
{
    if row.len() == 0 {
        s
    } else {
        insert_name(insert_keys(s, row.drop_last()), row.last().0)
    }
}

/// The keys of all rows in the order of `String`, each once.
pub open spec fn row_names(rows: Seq<Seq<(Seq<char>, CellV)>>) -> Seq<Seq<char>>
    decreases rows.len(),
{
    if rows.len() == 0 {
        Seq::empty()
    } else {
        insert_keys(row_names(rows.drop_last()), rows.last())
    }
}

/// The value of the last pair of a row with the key `name`.
pub open spec fn row_value(row: Seq<(Seq<char>, CellV)>, name: Seq<char>) -> Option<CellV>
    decreases row.len(),
{
    if row.len() == 0 {
        None
    } else if row.last().0 == name {
        Some(row.last().1)
    } else {
        row_value(row.drop_last(), name)
    }
}

/// The table of rows of keyed cells: a column per key, in the order of
/// `String`, absent where a row lacks the key.
pub open spec fn spec_rows_to_table(format: InputFormat, rows: Seq<Seq<(Seq<char>, CellV)>>, trailing: bool) -> TableV {
    let names = row_names(rows);
    TableV {
        format,
        delimiter: None,
        line_ending: LineEnding::Lf,
        columns: Seq::new(names.len(), |j: int| ColumnV {
            name: names[j],
            values: Seq::new(rows.len(), |r: int| row_value(rows[r], names[j])),
        }),
        row_count: rows.len() as usize,
        trailing_newline: trailing,
    }
}

/// Puts `key` among the sorted names unless it is there.
fn insert_name_exec(names: &mut Vec<String>, key: &String)
    ensures
        crate::formats::logs::names_view(final(names)@) == insert_name(crate::formats::logs::names_view(old(names)@), key@),
{
    let ghost s = crate::formats::logs::names_view(names@);
    if crate::formats::logs::contains_name(names, key) {
        return;
    }
    let kc = crate::detect::chars_of(key.as_str());
    let mut p: usize = 0;
    let mut i: usize = 0;
    while i < names.len()
        invariant
            0 <= p <= i <= names@.len(),
            s == crate::formats::logs::names_view(names@),
            kc@ == key@,
            p == count_less(s.take(i as int), key@),
        decreases names@.len() - i,
    {
        assert(s.take(i + 1).drop_last() =~= s.take(i as int));
        assert(s[i as int] == names@[i as int]@);
        let nc = crate::detect::chars_of(names[i].as_str());
        if crate::formats::logs::lex_less_chars(&nc, &kc) {
            p = p + 1;
        }
        i = i + 1;
    }
    assert(s.take(names@.len() as int) =~= s);
    names.insert(p, key.clone());
    assert(crate::formats::logs::names_view(names@) =~= s.insert(p as int, key@));
}

/// The table of rows of keyed cells: a column per key, in the order of
/// `String`, absent where a row lacks the key; for a key that a row holds
/// twice, its last value.
pub fn rows_to_table(format: InputFormat, rows: Vec<Vec<(String, Cell)>>, trailing_newline: bool) -> (t: StoredTable)
    ensures
        t@ == spec_rows_to_table(format, rows_view(rows@), trailing_newline),
{
    let ghost rv = rows_view(rows@);
    let n = rows.len();
    let mut names: Vec<String> = Vec::new();
    let mut r: usize = 0;
    assert(crate::formats::logs::names_view(names@) =~= row_names(rv.take(0)));
    while r < n
        invariant
            0 <= r <= n,
            n == rows@.len(),
            rv == rows_view(rows@),
            crate::formats::logs::names_view(names@) == row_names(rv.take(r as int)),
        decreases n - r,
    {
        let row = &rows[r];
        let ghost base = row_names(rv.take(r as int));
        let ghost rw = rv[r as int];
        assert(rw == row_view(row@));
        let mut k: usize = 0;
        assert(rw.take(0) =~= Seq::<(Seq<char>, CellV)>::empty());
        while k < row.len()
            invariant
                0 <= k <= row@.len(),
                rw == row_view(row@),
                crate::formats::logs::names_view(names@) == insert_keys(base, rw.take(k as int)),
            decreases row@.len() - k,
        {
            assert(rw.take(k + 1).drop_last() =~= rw.take(k as int));
            assert(rw[k as int].0 == row@[k as int].0@);
            insert_name_exec(&mut names, &row[k].0);
            k = k + 1;
        }
        assert(rw.take(row@.len() as int) =~= rw);
        assert(rv.take(r + 1).drop_last() =~= rv.take(r as int));
        r = r + 1;
    }
    assert(rv.take(n as int) =~= rv);
    let ghost nv = row_names(rv);
    let mut columns: Vec<StoredColumn> = Vec::new();
    let mut j: usize = 0;
    while j < names.len()
        invariant
            0 <= j <= names@.len(),
            n == rows@.len(),
            rv == rows_view(rows@),
            crate::formats::logs::names_view(names@) == nv,
            columns@.len() == j,
            forall|c: int| 0 <= c < j ==> (#[trigger] columns@[c])@ == (ColumnV {
                name: nv[c],
                values: Seq::new(n as nat, |i: int| row_value(rv[i], nv[c])),
            }),
        decreases names@.len() - j,
    {
        let name = &names[j];
        assert(name@ == nv[j as int]);
        let mut values: Vec<Option<Cell>> = Vec::new();
        let mut r: usize = 0;
        while r < n
            invariant
                0 <= r <= n,
                n == rows@.len(),
                rv == rows_view(rows@),
                values@.len() == r,
                forall|i: int| 0 <= i < r ==> (#[trigger] values@[i]).deep_view() == row_value(rv[i], name@),
            decreases n - r,
        {
            let row = &rows[r];
            let ghost rw = rv[r as int];
            assert(rw == row_view(row@));
            let mut found: Option<usize> = None;
            let mut k: usize = 0;
            while k < row.len()
                invariant
                    0 <= k <= row@.len(),
                    rw == row_view(row@),
                    match found {
                        Some(i) => i < k && row_value(rw.take(k as int), name@) == Some(rw[i as int].1),
                        None => row_value(rw.take(k as int), name@) is None,
                    },
                decreases row@.len() - k,
            {
                assert(rw.take(k + 1).drop_last() =~= rw.take(k as int));
                assert(rw[k as int].0 == row@[k as int].0@);
                if row[k].0 == *name {
                    found = Some(k);
                }
                k = k + 1;
            }
            assert(rw.take(row@.len() as int) =~= rw);
            match found {
                Some(i) => {
                    values.push(Some(crate::column::cells::clone_cell(&row[i].1)));
                },
                None => {
                    values.push(None);
                },
            }
            r = r + 1;
        }
        assert(cells_view(values@) =~= Seq::new(n as nat, |i: int| row_value(rv[i], nv[j as int])));
        columns.push(StoredColumn { name: name.clone(), values });
        j = j + 1;
    }
    let t = StoredTable {
        format,
        delimiter: None,
        line_ending: LineEnding::Lf,
        columns,
        row_count: n,
        trailing_newline,
    };
    assert(t@.columns =~= spec_rows_to_table(format, rv, trailing_newline).columns);
    t
}

} // verus!
