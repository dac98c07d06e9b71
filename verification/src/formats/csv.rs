//! CSV and TSV tables: a header row of column names, then one record per row.
//! The `csv` crate reads and writes the records; the library builds the table
//! from them and the records from the table.
use vstd::prelude::*;

use crate::error::ArchiveError;
use crate::formats::fields::{spec_parse_i64, parse_i64};
use crate::formats::logs_text::{cell_at, opt_text, cell_text};
use crate::formats::table::{Cell, CellV, ColumnV, LineEnding, StoredColumn, StoredTable, TableV, floats_view, spec_line_ending, line_ending_of};
use crate::column::cells::cells_view;
use crate::detect::chars_of;
use crate::header::InputFormat;
use crate::text::{spec_decimal, u64_to_string, string_of_range};
use vstd::string::StringExecFns;

verus! {

/// What `csv::Reader` reads from the bytes with the delimiter and a header
/// row: the header's fields and each record's fields, or nothing where it
/// reports an error.
pub uninterp spec fn csv_records(input: Seq<u8>, delimiter: u8) -> Option<(Seq<Seq<char>>, Seq<Seq<Seq<char>>>)>;

/// What `csv::Writer` writes for the records, with the delimiter and a
/// newline or CRLF after each record, or nothing where it reports an error.
pub uninterp spec fn csv_written(records: Seq<Seq<Seq<char>>>, delimiter: u8, crlf: bool) -> Option<Seq<u8>>;

/// Reads the header and the records with `csv::ReaderBuilder`.
///
/// Trusted: the result is the named reading of the input with the delimiter,
/// a function of these alone; any error of the reader gives `None`.
#[verifier::external_body]
fn csv_read(input: &[u8], delimiter: u8) -> (r: Option<(Vec<String>, Vec<Vec<String>>)>)
    ensures
        match r {
            Some((h, recs)) => csv_records(input@, delimiter) == Some((h.deep_view(), recs.deep_view())),
            None => csv_records(input@, delimiter) is None,
        },
{
    let mut rdr = ::csv::ReaderBuilder::new().delimiter(delimiter).from_reader(input);
    let headers: Vec<String> = rdr.headers().ok()?.iter().map(|s| s.to_string()).collect();
    let mut records: Vec<Vec<String>> = Vec::new();
    for record in rdr.records() {
        records.push(record.ok()?.iter().map(|s| s.to_string()).collect());
    }
    Some((headers, records))
}

/// Writes the records with `csv::WriterBuilder` into a byte vector.
///
/// Trusted: the result is the named writing of the records with the delimiter
/// and terminator, a function of these alone; any error of the writer gives
/// `None`.
#[verifier::external_body]
fn csv_write(records: &Vec<Vec<String>>, delimiter: u8, crlf: bool) -> (r: Option<Vec<u8>>)
    ensures
        match r {
            Some(b) => csv_written(records.deep_view(), delimiter, crlf) == Some(b@),
            None => csv_written(records.deep_view(), delimiter, crlf) is None,
        },
{
    let terminator = if crlf { ::csv::Terminator::CRLF } else { ::csv::Terminator::Any(b'\n') };
    let mut wtr = ::csv::WriterBuilder::new().delimiter(delimiter).terminator(terminator).from_writer(vec![]);
    for record in records {
        wtr.write_record(record).ok()?;
    }
    wtr.into_inner().ok()
}

/// The float, if any, that the caller gives for a field's text.
pub open spec fn float_of(ff: Seq<(Seq<char>, u64)>, s: Seq<char>) -> Option<u64>
    decreases ff.len(),
{
    if ff.len() == 0 {
        None
    } else if ff[0].0 == s {
        Some(ff[0].1)
    } else {
        float_of(ff.drop_first(), s)
    }
}

/// The float readings given for field texts.
pub open spec fn float_fields_view(f: Seq<(String, u64)>) -> Seq<(Seq<char>, u64)> {
    Seq::new(f.len(), |i: int| (f[i].0@, f[i].1))
}

/// The cell of a field: an integer where it parses as an `i64`, else the
/// float given for its text, else a boolean for `true` or `false`, else text.
pub open spec fn field_cell(s: Seq<char>, ff: Seq<(Seq<char>, u64)>) -> CellV {
    match spec_parse_i64(s) {
        Some(x) => CellV::Integer(x),
        None => match float_of(ff, s) {
            Some(b) => CellV::Float(b),
            None => if s == seq!['t', 'r', 'u', 'e'] {
                CellV::Bool(true)
            } else if s == seq!['f', 'a', 'l', 's', 'e'] {
                CellV::Bool(false)
            } else {
                CellV::String(s)
            },
        },
    }
}

/// The largest number of fields of a record, and at least the header's.
pub open spec fn max_fields(h: nat, recs: Seq<Seq<Seq<char>>>) -> nat
    decreases recs.len(),
{
    if recs.len() == 0 {
        h
    } else {
        let m = max_fields(h, recs.drop_last());
        if recs.last().len() > m {
            recs.last().len()
        } else {
            m
        }
    }
}

/// The name of column `idx`: the header's field, or `col` and the index for
/// a column past the header.
pub open spec fn column_name(h: Seq<Seq<char>>, idx: int) -> Seq<char> {
    if idx < h.len() {
        h[idx]
    } else {
        seq!['c', 'o', 'l'] + spec_decimal(idx as nat)
    }
}

/// The table of the records under the header.
pub open spec fn delimited_table(
    h: Seq<Seq<char>>,
    recs: Seq<Seq<Seq<char>>>,
    ff: Seq<(Seq<char>, u64)>,
    format: InputFormat,
    delimiter: u8,
    le: LineEnding,
    trailing: bool,
) -> TableV {
    TableV {
        format,
        delimiter: Some(delimiter),
        line_ending: le,
        columns: Seq::new(max_fields(h.len(), recs), |j: int| ColumnV {
            name: column_name(h, j),
            values: Seq::new(recs.len(), |r: int| if j < recs[r].len() { Some(field_cell(recs[r][j], ff)) } else { None }),
        }),
        row_count: recs.len() as usize,
        trailing_newline: trailing,
    }
}

/// The bytes end with a newline.
pub open spec fn ends_with_lf(b: Seq<u8>) -> bool {
    b.len() > 0 && b.last() == 10
}

/// The header and records of delimited text, as the `csv` reader gives them.
pub fn read_records(input: &[u8], delimiter: u8) -> (r: Option<(Vec<String>, Vec<Vec<String>>)>)
    ensures
        match r {
            Some((h, recs)) => csv_records(input@, delimiter) == Some((h.deep_view(), recs.deep_view())),
            None => csv_records(input@, delimiter) is None,
        },
{
    csv_read(input, delimiter)
}

/// The float given for a field's text.
pub(crate) fn float_lookup(ff: &[(String, u64)], s: &String) -> (r: Option<u64>)
    ensures
        r == float_of(float_fields_view(ff@), s@),
{
    let ghost v = float_fields_view(ff@);
    let mut i: usize = 0;
    assert(v.skip(0) =~= v);
    while i < ff.len()
        invariant
            0 <= i <= ff@.len(),
            v == float_fields_view(ff@),
            float_of(v, s@) == float_of(v.skip(i as int), s@),
        decreases ff@.len() - i,
    {
        assert(v.skip(i as int)[0] == v[i as int]);
        assert(v.skip(i as int).drop_first() =~= v.skip(i + 1));
        if ff[i].0 == *s {
            return Some(ff[i].1);
        }
        i = i + 1;
    }
    None
}

/// The cell of a field.
pub fn parse_field(s: &String, ff: &[(String, u64)]) -> (c: Cell)
    ensures
        c.deep_view() == field_cell(s@, float_fields_view(ff@)),
{
    let chars = chars_of(s.as_str());
    match parse_i64(chars.as_slice()) {
        Some(x) => Cell::Integer(x),
        None => match float_lookup(ff, s) {
            Some(b) => Cell::Float(b),
            None => {
                let t = ['t', 'r', 'u', 'e'];
                let f = ['f', 'a', 'l', 's', 'e'];
                assert(t@ =~= seq!['t', 'r', 'u', 'e']);
                assert(f@ =~= seq!['f', 'a', 'l', 's', 'e']);
                if chars.len() == 4 && chars[0] == 't' && chars[1] == 'r' && chars[2] == 'u' && chars[3] == 'e' {
                    assert(chars@ =~= t@);
                    Cell::Bool(true)
                } else if chars.len() == 5 && chars[0] == 'f' && chars[1] == 'a' && chars[2] == 'l' && chars[3] == 's'
                    && chars[4] == 'e' {
                    assert(chars@ =~= f@);
                    Cell::Bool(false)
                } else {
                    assert(chars@ != t@ && chars@ != f@) by {
                        if chars@ == t@ {
                            assert(chars@[0] == 't' && chars@[3] == 'e');
                        }
                        if chars@ == f@ {
                            assert(chars@[0] == 'f' && chars@[4] == 'e');
                        }
                    }
                    Cell::String(s.clone())
                }
            },
        },
    }
}

/// The table of records under a header row, as the `csv` reader gives them;
/// `floats` gives the float that a field's text stands for where it is not
/// an integer.
pub fn table_of_records(
    headers: Vec<String>,
    records: Vec<Vec<String>>,
    floats: &[(String, u64)],
    format: InputFormat,
    delimiter: u8,
    le: LineEnding,
    trailing: bool,
) -> (t: StoredTable)
    ensures
        t@ == delimited_table(headers.deep_view(), records.deep_view(), float_fields_view(floats@), format, delimiter, le, trailing),
{
    let ghost h = headers.deep_view();
    let ghost recs = records.deep_view();
    let ghost ff = float_fields_view(floats@);
    let n = records.len();
    let mut m = headers.len();
    let mut r: usize = 0;
    while r < n
        invariant
            0 <= r <= n,
            n == records@.len(),
            recs == records.deep_view(),
            h == headers.deep_view(),
            m == max_fields(h.len(), recs.take(r as int)),
        decreases n - r,
    {
        assert(recs.take(r + 1).drop_last() =~= recs.take(r as int));
        assert(recs[r as int].len() == records@[r as int]@.len());
        if records[r].len() > m {
            m = records[r].len();
        }
        r = r + 1;
    }
    assert(recs.take(n as int) =~= recs);
    let mut columns: Vec<StoredColumn> = Vec::new();
    let mut j: usize = 0;
    while j < m
        invariant
            0 <= j <= m,
            n == records@.len(),
            recs == records.deep_view(),
            h == headers.deep_view(),
            ff == float_fields_view(floats@),
            m == max_fields(h.len(), recs),
            columns@.len() == j,
            forall|c: int| 0 <= c < j ==> (#[trigger] columns@[c])@ == (ColumnV {
                name: column_name(h, c),
                values: Seq::new(recs.len(), |i: int| if c < recs[i].len() { Some(field_cell(recs[i][c], ff)) } else { None }),
            }),
        decreases m - j,
    {
        let mut values: Vec<Option<Cell>> = Vec::new();
        let mut r: usize = 0;
        while r < n
            invariant
                0 <= r <= n,
                n == records@.len(),
                recs == records.deep_view(),
                ff == float_fields_view(floats@),
                values@.len() == r,
                forall|i: int| 0 <= i < r ==> (#[trigger] values@[i]).deep_view()
                    == (if j < recs[i].len() { Some(field_cell(recs[i][j as int], ff)) } else { None }),
            decreases n - r,
        {
            let rec = &records[r];
            assert(recs[r as int] == rec.deep_view());
            if j < rec.len() {
                assert(recs[r as int][j as int] == rec@[j as int]@);
                values.push(Some(parse_field(&rec[j], floats)));
            } else {
                values.push(None);
            }
            r = r + 1;
        }
        let name = if j < headers.len() {
            assert(h[j as int] == headers@[j as int]@);
            headers[j].clone()
        } else {
            let d = u64_to_string(j as u64);
            let mut s = string_of_range(&['c', 'o', 'l'], 0, 3);
            s.append(d.as_str());
            assert(s@ =~= seq!['c', 'o', 'l'] + spec_decimal(j as nat));
            s
        };
        assert(cells_view(values@) =~= Seq::new(recs.len(), |i: int| if j < recs[i].len() { Some(field_cell(recs[i][j as int], ff)) } else { None }));
        columns.push(StoredColumn { name, values });
        j = j + 1;
    }
    let t = StoredTable {
        format,
        delimiter: Some(delimiter),
        line_ending: le,
        columns,
        row_count: n,
        trailing_newline: trailing,
    };
    assert(t@.columns =~= delimited_table(h, recs, ff, format, delimiter, le, trailing).columns);
    t
}

/// Parses delimited text with a header row; `floats` gives the float that a
/// field's text stands for where it is not an integer (`str::parse::<f64>`).
/// Fails where the `csv` reader reports an error.
pub fn parse_delimited(input: &[u8], delimiter: u8, format: InputFormat, floats: &[(String, u64)]) -> (r: Result<StoredTable, ArchiveError>)
    ensures
        match csv_records(input@, delimiter) {
            None => r == Err::<StoredTable, ArchiveError>(ArchiveError::Csv),
            Some((h, recs)) => r matches Ok(t) && t@ == delimited_table(
                h, recs, float_fields_view(floats@), format, delimiter, spec_line_ending(input@), ends_with_lf(input@),
            ),
        },
{
    let trailing = input.len() > 0 && input[input.len() - 1] == 10;
    let le = line_ending_of(input);
    match csv_read(input, delimiter) {
        Some((headers, records)) => Ok(table_of_records(headers, records, floats, format, delimiter, le, trailing)),
        None => Err(ArchiveError::Csv),
    }
}

/// Parses CSV text; `floats` as for `parse_delimited`.
pub fn parse(input: &[u8], floats: &[(String, u64)]) -> (r: Result<StoredTable, ArchiveError>)
    ensures
        match csv_records(input@, 44) {
            None => r == Err::<StoredTable, ArchiveError>(ArchiveError::Csv),
            Some((h, recs)) => r matches Ok(t) && t@ == delimited_table(
                h, recs, float_fields_view(floats@), InputFormat::Csv, 44, spec_line_ending(input@), ends_with_lf(input@),
            ),
        },
{
    parse_delimited(input, 44, InputFormat::Csv, floats)
}

/// The records written for a table: the column names, then each row's cell
/// texts (empty for an absent cell).
pub open spec fn csv_rows(t: TableV, ft: Seq<(u64, Seq<char>)>) -> Seq<Seq<Seq<char>>> {
    seq![Seq::new(t.columns.len(), |j: int| t.columns[j].name)] + Seq::new(
        t.row_count as nat,
        |r: int| Seq::new(t.columns.len(), |j: int| opt_text(cell_at(t.columns[j], r), ft)),
    )
}

/// The written text without its final line ending where the source text had none.
pub open spec fn spec_trim_final(b: Seq<u8>, trailing: bool, le: LineEnding) -> Seq<u8> {
    if trailing {
        b
    } else {
        match le {
            LineEnding::Lf => if ends_with_lf(b) { b.drop_last() } else { b },
            LineEnding::CrLf => if b.len() >= 2 && b[b.len() - 2] == 13 && b[b.len() - 1] == 10 {
                b.take(b.len() - 2)
            } else {
                b
            },
        }
    }
}

/// Drops the final line ending of written text where the source had none.
pub fn trim_final_newline(out: Vec<u8>, trailing: bool, le: LineEnding) -> (r: Vec<u8>)
    ensures
        r@ == spec_trim_final(out@, trailing, le),
{
    let ghost b = out@;
    let mut out = out;
    if trailing {
        return out;
    }
    let n = out.len();
    match le {
        LineEnding::Lf => {
            if n > 0 && out[n - 1] == 10 {
                out.truncate(n - 1);
                assert(out@ =~= b.drop_last());
            }
        },
        LineEnding::CrLf => {
            if n >= 2 && out[n - 2] == 13 && out[n - 1] == 10 {
                out.truncate(n - 2);
            }
        },
    }
    out
}

/// The text of a cell for a record; empty for an absent one.
fn field_text(col: &StoredColumn, r: usize, floats: &[(u64, String)]) -> (s: String)
    ensures
        s@ == opt_text(cell_at(col@, r as int), floats_view(floats@)),
{
    match cell_text(col, r, floats) {
        Some(s) => s,
        None => String::new(),
    }
}

/// Rebuilds delimited text with the table's delimiter and line ending; floats
/// are written with the text `floats` gives for their bit pattern. Fails where
/// the table records no delimiter or the `csv` writer reports an error.
pub fn reconstruct(table: &StoredTable, floats: &[(u64, String)]) -> (r: Result<Vec<u8>, ArchiveError>)
    ensures
        match table.delimiter {
            None => r == Err::<Vec<u8>, ArchiveError>(ArchiveError::MissingDelimiter),
            Some(d) => match csv_written(csv_rows(table@, floats_view(floats@)), d, table.line_ending == LineEnding::CrLf) {
                None => r == Err::<Vec<u8>, ArchiveError>(ArchiveError::Csv),
                Some(b) => r matches Ok(o) && o@ == spec_trim_final(b, table.trailing_newline, table.line_ending),
            },
        },
{
    let d = match table.delimiter {
        Some(d) => d,
        None => return Err(ArchiveError::MissingDelimiter),
    };
    let ghost t = table@;
    let ghost ft = floats_view(floats@);
    let ghost want = csv_rows(t, ft);
    let ncols = table.columns.len();
    let mut header: Vec<String> = Vec::new();
    let mut j: usize = 0;
    while j < ncols
        invariant
            0 <= j <= ncols,
            ncols == table.columns@.len(),
            t == table@,
            header@.len() == j,
            forall|k: int| 0 <= k < j ==> (#[trigger] header@[k])@ == t.columns[k].name,
        decreases ncols - j,
    {
        assert(t.columns[j as int] == table.columns@[j as int]@);
        header.push(table.columns[j].name.clone());
        j = j + 1;
    }
    let mut rows: Vec<Vec<String>> = Vec::new();
    rows.push(header);
    assert(rows@[0].deep_view() =~= want[0]);
    let mut r: usize = 0;
    while r < table.row_count
        invariant
            0 <= r <= table.row_count,
            ncols == table.columns@.len(),
            t == table@,
            ft == floats_view(floats@),
            want == csv_rows(t, ft),
            rows@.len() == r + 1,
            forall|k: int| 0 <= k <= r ==> (#[trigger] rows@[k]).deep_view() == want[k],
        decreases table.row_count - r,
    {
        let mut row: Vec<String> = Vec::new();
        let mut j: usize = 0;
        while j < ncols
            invariant
                0 <= j <= ncols,
                ncols == table.columns@.len(),
                t == table@,
                ft == floats_view(floats@),
                row@.len() == j,
                forall|k: int| 0 <= k < j ==> (#[trigger] row@[k])@ == opt_text(cell_at(t.columns[k], r as int), ft),
            decreases ncols - j,
        {
            assert(t.columns[j as int] == table.columns@[j as int]@);
            row.push(field_text(&table.columns[j], r, floats));
            j = j + 1;
        }
        assert(row.deep_view() =~= want[r + 1]);
        rows.push(row);
        r = r + 1;
    }
    assert(rows.deep_view() =~= want);
    match csv_write(&rows, d, table.line_ending == LineEnding::CrLf) {
        Some(b) => Ok(trim_final_newline(b, table.trailing_newline, table.line_ending)),
        None => Err(ArchiveError::Csv),
    }
}

/// How a field is typed: an integer where it parses as an `i64`; else the
/// float given for its text; else a boolean for exactly `true` or `false`;
/// else the text itself.
pub proof fn lemma_field_kinds(s: Seq<char>, ff: Seq<(Seq<char>, u64)>)
    ensures
        spec_parse_i64(s) matches Some(x) ==> field_cell(s, ff) == CellV::Integer(x),
        spec_parse_i64(s) is None && float_of(ff, s) is Some ==> field_cell(s, ff) == CellV::Float(float_of(ff, s)->Some_0),
        spec_parse_i64(s) is None && float_of(ff, s) is None ==> (field_cell(s, ff) == CellV::Bool(true)
            <==> s == seq!['t', 'r', 'u', 'e']),
        spec_parse_i64(s) is None && float_of(ff, s) is None ==> (field_cell(s, ff) == CellV::Bool(false)
            <==> s == seq!['f', 'a', 'l', 's', 'e']),
        spec_parse_i64(s) is None && float_of(ff, s) is None && s != seq!['t', 'r', 'u', 'e'] && s != seq![
            'f',
            'a',
            'l',
            's',
            'e',
        ] ==> field_cell(s, ff) == CellV::String(s),
{
}

/// Neither `true` nor `false` reads as an integer.
pub proof fn lemma_bool_words_not_integers()
    ensures
        spec_parse_i64(seq!['t', 'r', 'u', 'e']) is None,
        spec_parse_i64(seq!['f', 'a', 'l', 's', 'e']) is None,
{
    let t = seq!['t', 'r', 'u', 'e'];
    let f = seq!['f', 'a', 'l', 's', 'e'];
    assert(!crate::formats::fields::is_digit(t[0]));
    assert(!crate::formats::fields::is_digit(f[0]));
}

proof fn lemma_max_fields_ge(h: nat, recs: Seq<Seq<Seq<char>>>, r: int)
    requires
        0 <= r < recs.len(),
    ensures
        recs[r].len() <= max_fields(h, recs),
        h <= max_fields(h, recs),
    decreases recs.len(),
{
    let m = max_fields(h, recs.drop_last());
    assert(max_fields(h, recs) >= m);
    assert(max_fields(h, recs) >= recs.last().len());
    if recs.len() > 1 {
        if r < recs.len() - 1 {
            lemma_max_fields_ge(h, recs.drop_last(), r);
            assert(recs.drop_last()[r] == recs[r]);
        } else {
            lemma_max_fields_ge(h, recs.drop_last(), 0);
        }
    } else {
        assert(recs.drop_last().len() == 0);
        assert(m == h);
    }
}

/// In the table of delimited text, a field that is exactly `true` or `false`
/// (with no float reading given for it) is a boolean cell in its column and
/// row, and a field that parses as an `i64` is that integer.
pub proof fn lemma_delimited_typed_cells(
    h: Seq<Seq<char>>,
    recs: Seq<Seq<Seq<char>>>,
    ff: Seq<(Seq<char>, u64)>,
    format: InputFormat,
    delimiter: u8,
    le: LineEnding,
    trailing: bool,
    r: int,
    j: int,
)
    requires
        0 <= r < recs.len(),
        0 <= j < recs[r].len(),
    ensures
        j < delimited_table(h, recs, ff, format, delimiter, le, trailing).columns.len(),
        recs[r][j] == seq!['t', 'r', 'u', 'e'] && float_of(ff, recs[r][j]) is None
            ==> delimited_table(h, recs, ff, format, delimiter, le, trailing).columns[j].values[r] == Some(CellV::Bool(true)),
        recs[r][j] == seq!['f', 'a', 'l', 's', 'e'] && float_of(ff, recs[r][j]) is None
            ==> delimited_table(h, recs, ff, format, delimiter, le, trailing).columns[j].values[r] == Some(CellV::Bool(false)),
        spec_parse_i64(recs[r][j]) matches Some(x)
            ==> delimited_table(h, recs, ff, format, delimiter, le, trailing).columns[j].values[r] == Some(CellV::Integer(x)),
{
    lemma_max_fields_ge(h.len(), recs, r);
    lemma_bool_words_not_integers();
    lemma_field_kinds(recs[r][j], ff);
}

} // verus!
