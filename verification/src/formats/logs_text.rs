//! Log tables back to text.
use vstd::prelude::*;
use vstd::utf8::encode_utf8;
use vstd::string::StringExecFns;
use crate::detect::chars_of;
use crate::formats::fields::{find_char, lemma_find_char};
use crate::formats::logs::{timestamp_name, level_name, order_name};
use crate::formats::table::{CellV, ColumnV, LineEnding, StoredColumn, StoredTable, TableV, columns_view, floats_view, stable_text, stable_string};

use crate::header::InputFormat;
use crate::text::string_of_range;

verus! {

/// The cell of a column in row `r`; a row past its values has none.
pub open spec fn cell_at(c: ColumnV, r: int) -> Option<CellV> {
    if 0 <= r < c.values.len() {
        c.values[r]
    } else {
        None
    }
}

/// The text of an optional cell: nothing for an absent one.
pub open spec fn opt_text(o: Option<CellV>, ft: Seq<(u64, Seq<char>)>) -> Seq<char> {
    match o {
        Some(c) => stable_text(c, ft),
        None => Seq::empty(),
    }
}

/// The line ending after row `r`: none after the last row unless the text
/// ended with a newline.
pub open spec fn line_end(t: TableV, r: int) -> Seq<char> {
    if r + 1 < t.row_count || t.trailing_newline {
        match t.line_ending {
            LineEnding::Lf => seq!['\n'],
            LineEnding::CrLf => seq!['\r', '\n'],
        }
    } else {
        Seq::empty()
    }
}

/// A row by word position: the texts of the cells, a space between columns.
pub open spec fn plain_row(cols: Seq<ColumnV>, r: int, ft: Seq<(u64, Seq<char>)>) -> Seq<char>
    decreases cols.len(),
{
    if cols.len() == 0 {
        Seq::empty()
    } else if cols.len() == 1 {
        opt_text(cell_at(cols[0], r), ft)
    } else {
        plain_row(cols.drop_last(), r, ft) + seq![' '] + opt_text(cell_at(cols.last(), r), ft)
    }
}

/// The first `n` rows by word position, each with its line ending.
pub open spec fn plain_text(t: TableV, n: nat, ft: Seq<(u64, Seq<char>)>) -> Seq<char>
    decreases n,
{
    if n == 0 {
        Seq::empty()
    } else {
        plain_text(t, (n - 1) as nat, ft) + plain_row(t.columns, n - 1, ft) + line_end(t, n - 1)
    }
}

/// The first column at or after `i` named `name`.
pub open spec fn first_named(cols: Seq<ColumnV>, name: Seq<char>, i: int) -> Option<int>
    decreases cols.len() - i,
{
    if i < 0 || i >= cols.len() {
        None
    } else if cols[i].name == name {
        Some(i)
    } else {
        first_named(cols, name, i + 1)
    }
}

/// The cell in row `r` of the first column named `name`.
pub open spec fn named_cell(cols: Seq<ColumnV>, name: Seq<char>, r: int) -> Option<CellV> {
    match first_named(cols, name, 0) {
        Some(j) => cell_at(cols[j], r),
        None => None,
    }
}

/// The names of the key columns that have a cell in row `r`.
pub open spec fn present_names(cols: Seq<ColumnV>, r: int) -> Seq<Seq<char>>
    decreases cols.len(),
{
    if cols.len() == 0 {
        Seq::empty()
    } else {
        let p = present_names(cols.drop_last(), r);
        let c = cols.last();
        if c.name != timestamp_name() && c.name != level_name() && c.name != order_name() && cell_at(c, r) is Some {
            p.push(c.name)
        } else {
            p
        }
    }
}

/// Names joined by commas.
pub open spec fn join_commas(names: Seq<Seq<char>>) -> Seq<char>
    decreases names.len(),
{
    if names.len() == 0 {
        Seq::empty()
    } else if names.len() == 1 {
        names[0]
    } else {
        join_commas(names.drop_last()) + seq![','] + names.last()
    }
}

/// The pieces of `s` from `i` on between commas, as `str::split(',')` gives them.
pub open spec fn comma_split(s: Seq<char>, i: int) -> Seq<Seq<char>>
    decreases s.len() + 1 - i,
{
    if i < 0 || i > s.len() {
        Seq::empty()
    } else {
        let p = find_char(s, ',', i);
        proof {
            lemma_find_char(s, ',', i);
        }
        if p >= s.len() {
            seq![s.subrange(i, s.len() as int)]
        } else {
            seq![s.subrange(i, p)] + comma_split(s, p + 1)
        }
    }
}

/// The pieces that are not empty.
pub open spec fn nonempty_names(p: Seq<Seq<char>>) -> Seq<Seq<char>>
    decreases p.len(),
{
    if p.len() == 0 {
        Seq::empty()
    } else {
        (if p[0].len() > 0 { seq![p[0]] } else { Seq::empty() }) + nonempty_names(p.drop_first())
    }
}

/// The keys of row `r` in order: those the key-order column records, or else
/// the key columns that have a cell there.
pub open spec fn row_keys(t: TableV, r: int, ft: Seq<(u64, Seq<char>)>) -> Seq<Seq<char>> {
    let s = match named_cell(t.columns, order_name(), r) {
        Some(c) => stable_text(c, ft),
        None => join_commas(present_names(t.columns, r)),
    };
    nonempty_names(comma_split(s, 0))
}

/// ` key=value` for a key whose column has a cell in row `r`, else nothing.
pub open spec fn field_part(cols: Seq<ColumnV>, name: Seq<char>, r: int, ft: Seq<(u64, Seq<char>)>) -> Seq<char> {
    match named_cell(cols, name, r) {
        Some(c) => seq![' '] + name + seq!['='] + stable_text(c, ft),
        None => Seq::empty(),
    }
}

/// The fields of row `r` for the keys `names`.
pub open spec fn fields_text(cols: Seq<ColumnV>, names: Seq<Seq<char>>, r: int, ft: Seq<(u64, Seq<char>)>) -> Seq<char>
    decreases names.len(),
{
    if names.len() == 0 {
        Seq::empty()
    } else {
        field_part(cols, names[0], r, ft) + fields_text(cols, names.drop_first(), r, ft)
    }
}

/// A template row: timestamp, a space, level, then ` key=value` per key.
pub open spec fn template_row(t: TableV, r: int, ft: Seq<(u64, Seq<char>)>) -> Seq<char> {
    opt_text(named_cell(t.columns, timestamp_name(), r), ft) + seq![' ']
        + opt_text(named_cell(t.columns, level_name(), r), ft)
        + fields_text(t.columns, row_keys(t, r, ft), r, ft)
}

/// The first `n` template rows, each with its line ending.
pub open spec fn template_text(t: TableV, n: nat, ft: Seq<(u64, Seq<char>)>) -> Seq<char>
    decreases n,
{
    if n == 0 {
        Seq::empty()
    } else {
        template_text(t, (n - 1) as nat, ft) + template_row(t, n - 1, ft) + line_end(t, n - 1)
    }
}

/// A log table of the template: its first columns are timestamp and level,
/// and there is at least one more.
pub open spec fn is_template_table(t: TableV) -> bool {
    t.format == InputFormat::Logs && t.columns.len() >= 3 && t.columns[0].name == timestamp_name()
        && t.columns[1].name == level_name()
}

/// The text of a log table.
pub open spec fn spec_reconstruct_logs(t: TableV, ft: Seq<(u64, Seq<char>)>) -> Seq<char> {
    if is_template_table(t) {
        template_text(t, t.row_count as nat, ft)
    } else {
        plain_text(t, t.row_count as nat, ft)
    }
}

/// The text of the cell of a column in row `r`, if it has one.
pub(crate) fn cell_text(col: &StoredColumn, r: usize, floats: &[(u64, String)]) -> (s: Option<String>)
    ensures
        match s {
            Some(x) => cell_at(col@, r as int) is Some && x@ == stable_text(cell_at(col@, r as int)->0, floats_view(floats@)),
            None => cell_at(col@, r as int) is None,
        },
{
    if r < col.values.len() {
        match &col.values[r] {
            Some(c) => Some(stable_string(c, floats)),
            None => None,
        }
    } else {
        None
    }
}

/// The first column named `name`.
pub(crate) fn find_named(cols: &Vec<StoredColumn>, name: &String) -> (j: Option<usize>)
    ensures
        match j {
            Some(k) => first_named(columns_view(cols@), name@, 0) == Some(k as int) && k < cols@.len(),
            None => first_named(columns_view(cols@), name@, 0) is None,
        },
{
    let ghost cv = columns_view(cols@);
    let mut i: usize = 0;
    while i < cols.len()
        invariant
            0 <= i <= cols@.len(),
            cv == columns_view(cols@),
            first_named(cv, name@, 0) == first_named(cv, name@, i as int),
        decreases cols@.len() - i,
    {
        assert(cv[i as int].name == cols@[i as int].name@);
        if cols[i].name == *name {
            return Some(i);
        }
        i = i + 1;
    }
    None
}

/// Appends the text of the cell in row `r` of the first column named `name`.
fn push_named(out: &mut String, cols: &Vec<StoredColumn>, name: &String, r: usize, floats: &[(u64, String)])
    ensures
        final(out)@ == old(out)@ + opt_text(named_cell(columns_view(cols@), name@, r as int), floats_view(floats@)),
{
    match find_named(cols, name) {
        Some(j) => {
            assert(columns_view(cols@)[j as int] == cols@[j as int]@);
            match cell_text(&cols[j], r, floats) {
                Some(s) => {
                    out.append(s.as_str());
                },
                None => {
                    assert(out@ =~= old(out)@ + Seq::<char>::empty());
                },
            }
        },
        None => {
            assert(out@ =~= old(out)@ + Seq::<char>::empty());
        },
    }
}

/// Appends a row by word position.
fn push_plain_row(out: &mut String, cols: &Vec<StoredColumn>, r: usize, floats: &[(u64, String)])
    ensures
        final(out)@ == old(out)@ + plain_row(columns_view(cols@), r as int, floats_view(floats@)),
{
    let ghost cv = columns_view(cols@);
    let ghost ft = floats_view(floats@);
    let ghost base = out@;
    let mut j: usize = 0;
    assert(out@ =~= base + plain_row(cv.take(0), r as int, ft));
    while j < cols.len()
        invariant
            0 <= j <= cols@.len(),
            cv == columns_view(cols@),
            ft == floats_view(floats@),
            out@ == base + plain_row(cv.take(j as int), r as int, ft),
        decreases cols@.len() - j,
    {
        assert(cv.take(j + 1).drop_last() =~= cv.take(j as int));
        assert(cv.take(j + 1).last() == cols@[j as int]@);
        if j > 0 {
            out.push(' ');
        }
        match cell_text(&cols[j], r, floats) {
            Some(s) => {
                out.append(s.as_str());
            },
            None => {},
        }
        assert(out@ =~= base + plain_row(cv.take(j + 1), r as int, ft));
        j = j + 1;
    }
    assert(cv.take(cols@.len() as int) =~= cv);
}

/// The names of the key columns with a cell in row `r`, joined by commas.
fn join_present(
    cols: &Vec<StoredColumn>,
    r: usize,
    timestamp: &String,
    level: &String,
    order: &String,
) -> (s: String)
    requires
        timestamp@ == timestamp_name(),
        level@ == level_name(),
        order@ == order_name(),
    ensures
        s@ == join_commas(present_names(columns_view(cols@), r as int)),
{
    let ghost cv = columns_view(cols@);
    let mut s = String::new();
    let mut count: usize = 0;
    let mut j: usize = 0;
    while j < cols.len()
        invariant
            0 <= j <= cols@.len(),
            cv == columns_view(cols@),
            timestamp@ == timestamp_name(),
            level@ == level_name(),
            order@ == order_name(),
            count == present_names(cv.take(j as int), r as int).len(),
            count <= j,
            s@ == join_commas(present_names(cv.take(j as int), r as int)),
        decreases cols@.len() - j,
    {
        let ghost p = present_names(cv.take(j as int), r as int);
        assert(cv.take(j + 1).drop_last() =~= cv.take(j as int));
        assert(cv.take(j + 1).last() == cols@[j as int]@);
        let c = &cols[j];
        let present = r < c.values.len() && c.values[r].is_some();
        if c.name != *timestamp && c.name != *level && c.name != *order && present {
            if count > 0 {
                s.push(',');
            }
            s.append(c.name.as_str());
            assert(p.push(c.name@).drop_last() =~= p);
            assert(s@ =~= join_commas(p.push(c.name@)));
            count = count + 1;
        }
        j = j + 1;
    }
    assert(cv.take(cols@.len() as int) =~= cv);
    s
}

/// Appends ` key=value` for each key among the comma-separated `keys`.
fn push_fields(out: &mut String, cols: &Vec<StoredColumn>, keys: &String, r: usize, floats: &[(u64, String)])
    ensures
        final(out)@ == old(out)@ + fields_text(columns_view(cols@), nonempty_names(comma_split(keys@, 0)), r as int, floats_view(floats@)),
{
    let ghost cv = columns_view(cols@);
    let ghost ft = floats_view(floats@);
    let ghost s = keys@;
    let ghost base = out@;
    let kc = chars_of(keys.as_str());
    let mut start: usize = 0;
    loop
        invariant_except_break
            0 <= start <= kc@.len(),
            kc@ == s,
            cv == columns_view(cols@),
            ft == floats_view(floats@),
            out@ + fields_text(cv, nonempty_names(comma_split(s, start as int)), r as int, ft)
                == base + fields_text(cv, nonempty_names(comma_split(s, 0)), r as int, ft),
        ensures
            out@ == base + fields_text(cv, nonempty_names(comma_split(s, 0)), r as int, ft),
        decreases kc@.len() - start,
    {
        let mut p = start;
        while p < kc.len() && kc[p] != ','
            invariant
                start <= p <= kc@.len(),
                kc@ == s,
                find_char(s, ',', start as int) == find_char(s, ',', p as int),
            decreases kc@.len() - p,
        {
            p = p + 1;
        }
        proof {
            lemma_find_char(s, ',', start as int);
        }
        let ghost piece = s.subrange(start as int, p as int);
        let ghost rest: Seq<Seq<char>> = if p < kc@.len() { comma_split(s, p + 1) } else { Seq::empty() };
        assert(comma_split(s, start as int) =~= seq![piece] + rest);
        assert((seq![piece] + rest)[0] == piece);
        assert((seq![piece] + rest).drop_first() =~= rest);
        let ghost mid = out@;
        if p > start {
            let name = string_of_range(&kc, start, p);
            assert(name@ == piece);
            match find_named(cols, &name) {
                Some(j) => {
                    assert(cv[j as int] == cols@[j as int]@);
                    match cell_text(&cols[j], r, floats) {
                        Some(v) => {
                            out.push(' ');
                            out.append(name.as_str());
                            out.push('=');
                            out.append(v.as_str());
                        },
                        None => {},
                    }
                },
                None => {},
            }
            assert(out@ =~= mid + field_part(cv, piece, r as int, ft));
            let ghost nn = nonempty_names(rest);
            assert(nonempty_names(seq![piece] + rest) =~= seq![piece] + nn);
            assert((seq![piece] + nn).drop_first() =~= nn);
            assert(fields_text(cv, seq![piece] + nn, r as int, ft) == field_part(cv, piece, r as int, ft) + fields_text(cv, nn, r as int, ft));
        } else {
            assert(nonempty_names(seq![piece] + rest) =~= nonempty_names(rest));
        }
        if p == kc.len() {
            assert(nonempty_names(rest) =~= Seq::<Seq<char>>::empty());
            break;
        }
        start = p + 1;
    }
}

/// Appends a template row.
fn push_template_row(
    out: &mut String,
    table: &StoredTable,
    r: usize,
    floats: &[(u64, String)],
    timestamp: &String,
    level: &String,
    order: &String,
)
    requires
        timestamp@ == timestamp_name(),
        level@ == level_name(),
        order@ == order_name(),
    ensures
        final(out)@ == old(out)@ + template_row(table@, r as int, floats_view(floats@)),
{
    let ghost cv = columns_view(table.columns@);
    let ghost ft = floats_view(floats@);
    let ghost base = out@;
    push_named(out, &table.columns, timestamp, r, floats);
    out.push(' ');
    push_named(out, &table.columns, level, r, floats);
    let ghost head = out@;
    let keys = match find_named(&table.columns, order) {
        Some(j) => {
            assert(cv[j as int] == table.columns@[j as int]@);
            match cell_text(&table.columns[j], r, floats) {
                Some(s) => s,
                None => join_present(&table.columns, r, timestamp, level, order),
            }
        },
        None => join_present(&table.columns, r, timestamp, level, order),
    };
    push_fields(out, &table.columns, &keys, r, floats);
    assert(out@ =~= base + template_row(table@, r as int, ft));
}

/// Appends the line ending after row `r`.
fn push_line_end(out: &mut String, table: &StoredTable, r: usize)
    requires
        r < table.row_count,
    ensures
        final(out)@ == old(out)@ + line_end(table@, r as int),
{
    if r + 1 < table.row_count || table.trailing_newline {
        match table.line_ending {
            LineEnding::Lf => {
                out.push('\n');
            },
            LineEnding::CrLf => {
                out.push('\r');
                out.push('\n');
            },
        }
        assert(out@ =~= old(out)@ + line_end(table@, r as int));
    } else {
        assert(out@ =~= old(out)@ + line_end(table@, r as int));
    }
}

/// Whether a table is a log table of the template.
fn is_template(table: &StoredTable, timestamp: &String, level: &String) -> (b: bool)
    requires
        timestamp@ == timestamp_name(),
        level@ == level_name(),
    ensures
        b == is_template_table(table@),
{
    let logs = match table.format {
        InputFormat::Logs => true,
        _ => false,
    };
    logs && table.columns.len() >= 3 && table.columns[0].name == *timestamp && table.columns[1].name == *level
}

/// Rebuilds the text of a log table. A float is written with the text that
/// `floats` gives for its bit pattern.
pub fn reconstruct(table: &StoredTable, floats: &[(u64, String)]) -> (out: Vec<u8>)
    ensures
        out@ == encode_utf8(spec_reconstruct_logs(table@, floats_view(floats@))),
{
    let ghost ft = floats_view(floats@);
    let ts_chars = ['t', 'i', 'm', 'e', 's', 't', 'a', 'm', 'p'];
    let level_chars = ['l', 'e', 'v', 'e', 'l'];
    let order_chars = ['_', '_', 'n', 'x', 'z', '_', 'f', 'i', 'e', 'l', 'd', '_', 'o', 'r', 'd', 'e', 'r'];
    assert(ts_chars@.subrange(0, 9) =~= timestamp_name());
    assert(level_chars@.subrange(0, 5) =~= level_name());
    assert(order_chars@.subrange(0, 17) =~= order_name());
    let ts_s = string_of_range(&ts_chars, 0, 9);
    let level_s = string_of_range(&level_chars, 0, 5);
    let order_s = string_of_range(&order_chars, 0, 17);
    let template = is_template(table, &ts_s, &level_s);
    let mut out = String::new();
    let mut r: usize = 0;
    while r < table.row_count
        invariant
            0 <= r <= table.row_count,
            ft == floats_view(floats@),
            ts_s@ == timestamp_name(),
            level_s@ == level_name(),
            order_s@ == order_name(),
            template == is_template_table(table@),
            out@ == (if template { template_text(table@, r as nat, ft) } else { plain_text(table@, r as nat, ft) }),
        decreases table.row_count - r,
    {
        if template {
            push_template_row(&mut out, table, r, floats, &ts_s, &level_s, &order_s);
        } else {
            push_plain_row(&mut out, &table.columns, r, floats);
        }
        push_line_end(&mut out, table, r);
        r = r + 1;
    }
    vstd::slice::slice_to_vec(out.as_str().as_bytes())
}

} // verus!
