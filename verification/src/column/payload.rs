//! The structural payload: table metadata, then row blocks of column chunks.
use vstd::prelude::*;
use vstd::bytes::{spec_u32_to_le_bytes, spec_u64_to_le_bytes};

use crate::error::ArchiveError;
use crate::header::InputFormat;
use crate::formats::table::{Cell, CellV, ColumnV, TableV, LineEnding, StoredColumn, StoredTable, columns_view};
use crate::column::types::{ColumnCodec, ColumnPlan};
use crate::column::cells::cells_view;
use crate::column::chunk::{spec_codec_id, spec_codec_from_id, spec_encode_chunk, spec_decode_chunk, spec_choose_codec, codec_id, codec_from_id, encode_column_chunk, decode_column_chunk};
use crate::column::packchunks::{strings_fields, spec_read_strings};

use crate::wire::{spec_read_u8, spec_read_u32, spec_read_u64, write_u8, write_u32, write_u64, write_string, read_u8, read_u32, read_u64, read_string, append_bytes};

pub use crate::column::chunk::{choose_best_codec, estimate_encoded_len, is_near_linear};

verus! {

/// The number of rows a block holds, but for the last block.
pub const TARGET_BLOCK_ROWS: usize = 16384;

pub open spec fn spec_format_id(f: InputFormat) -> u8 {
    match f {
        InputFormat::Jsonl => 0,
        InputFormat::Csv => 1,
        InputFormat::Tsv => 2,
        InputFormat::Logs => 3,
        InputFormat::BinaryFallback => 4,
    }
}

pub open spec fn spec_format_from_id(id: u8) -> Result<InputFormat, ArchiveError> {
    if id == 0 {
        Ok(InputFormat::Jsonl)
    } else if id == 1 {
        Ok(InputFormat::Csv)
    } else if id == 2 {
        Ok(InputFormat::Tsv)
    } else if id == 3 {
        Ok(InputFormat::Logs)
    } else if id == 4 {
        Ok(InputFormat::BinaryFallback)
    } else {
        Err(ArchiveError::UnknownFormat(id))
    }
}

/// The id of a source format on the wire.
pub fn format_id(format: InputFormat) -> (id: u8)
    ensures
        id == spec_format_id(format),
        spec_format_from_id(id) == Ok::<InputFormat, ArchiveError>(format),
{
    match format {
        InputFormat::Jsonl => 0,
        InputFormat::Csv => 1,
        InputFormat::Tsv => 2,
        InputFormat::Logs => 3,
        InputFormat::BinaryFallback => 4,
    }
}

/// The source format with a wire id.
pub fn format_from_id(id: u8) -> (r: Result<InputFormat, ArchiveError>)
    ensures
        r == spec_format_from_id(id),
{
    match id {
        0 => Ok(InputFormat::Jsonl),
        1 => Ok(InputFormat::Csv),
        2 => Ok(InputFormat::Tsv),
        3 => Ok(InputFormat::Logs),
        4 => Ok(InputFormat::BinaryFallback),
        _ => Err(ArchiveError::UnknownFormat(id)),
    }
}

/// The names of the columns.
pub open spec fn column_names(t: TableV) -> Seq<Seq<char>> {
    t.columns.map_values(|c: ColumnV| c.name)
}

/// The metadata bytes: format, delimiter, trailing newline, line ending, row
/// count, column count and column names.
pub open spec fn meta_bytes(t: TableV) -> Seq<u8> {
    seq![spec_format_id(t.format)] + (match t.delimiter {
        Some(d) => seq![1u8, d],
        None => seq![0u8],
    }) + seq![if t.trailing_newline { 1u8 } else { 0u8 }] + seq![
        match t.line_ending {
            LineEnding::Lf => 0u8,
            LineEnding::CrLf => 1u8,
        },
    ] + spec_u64_to_le_bytes(t.row_count as u64) + spec_u32_to_le_bytes(t.columns.len() as u32)
        + strings_fields(column_names(t))
}

/// A table with the given names and no values.
pub open spec fn empty_columns(names: Seq<Seq<char>>) -> Seq<ColumnV> {
    Seq::new(names.len(), |j: int| ColumnV { name: names[j], values: Seq::empty() })
}

/// Reads the delimiter: a marker (0 or 1), then the delimiter byte after a 1.
pub open spec fn spec_read_delimiter(s: Seq<u8>, pos: int) -> Result<(Option<u8>, int), ArchiveError> {
    match spec_read_u8(s, pos) {
        Err(e) => Err(e),
        Ok((m, p)) => if m == 0 {
            Ok((None, p))
        } else if m == 1 {
            match spec_read_u8(s, p) {
                Err(e) => Err(e),
                Ok((d, q)) => Ok((Some(d), q)),
            }
        } else {
            Err(ArchiveError::BadDelimiterMarker(m))
        },
    }
}

pub open spec fn spec_line_ending_from_id(id: u8) -> Result<LineEnding, ArchiveError> {
    if id == 0 {
        Ok(LineEnding::Lf)
    } else if id == 1 {
        Ok(LineEnding::CrLf)
    } else {
        Err(ArchiveError::BadLineEnding(id))
    }
}

/// Reads the metadata: a table with its columns named and empty, and the
/// position after the metadata.
pub open spec fn spec_read_meta(s: Seq<u8>) -> Result<(TableV, int), ArchiveError> {
    match spec_read_u8(s, 0) {
        Err(e) => Err(e),
        Ok((fid, p1)) => match spec_format_from_id(fid) {
            Err(e) => Err(e),
            Ok(format) => match spec_read_delimiter(s, p1) {
                Err(e) => Err(e),
                Ok((delimiter, p2)) => match spec_read_u8(s, p2) {
                    Err(e) => Err(e),
                    Ok((tn, p3)) => match spec_read_u8(s, p3) {
                        Err(e) => Err(e),
                        Ok((le, p4)) => match spec_line_ending_from_id(le) {
                            Err(e) => Err(e),
                            Ok(line_ending) => match spec_read_u64(s, p4) {
                                Err(e) => Err(e),
                                Ok((rows, p5)) => match spec_read_u32(s, p5) {
                                    Err(e) => Err(e),
                                    Ok((ncols, p6)) => match spec_read_strings(s, p6, ncols as nat) {
                                        Err(e) => Err(e),
                                        Ok((names, p7)) => Ok((
                                            TableV {
                                                format,
                                                delimiter,
                                                line_ending,
                                                columns: empty_columns(names),
                                                row_count: rows as usize,
                                                trailing_newline: tn != 0,
                                            },
                                            p7,
                                        )),
                                    },
                                },
                            },
                        },
                    },
                },
            },
        },
    }
}

/// Appends the metadata of a table.
#[verifier::rlimit(40)]
#[verifier::spinoff_prover]
fn write_meta(out: &mut Vec<u8>, table: &StoredTable)
    ensures
        final(out)@ == old(out)@ + meta_bytes(table@),
{
    write_u8(out, format_id(table.format));
    match table.delimiter {
        Some(d) => {
            write_u8(out, 1);
            write_u8(out, d);
        },
        None => {
            write_u8(out, 0);
        },
    }
    write_u8(out, if table.trailing_newline { 1 } else { 0 });
    write_u8(
        out,
        match table.line_ending {
            LineEnding::Lf => 0,
            LineEnding::CrLf => 1,
        },
    );
    write_u64(out, table.row_count as u64);
    write_u32(out, table.columns.len() as u32);
    let ghost mid = out@;
    let mut i: usize = 0;
    while i < table.columns.len()
        invariant
            0 <= i <= table.columns.len(),
            out@ == mid + strings_fields(column_names(table@).take(i as int)),
        decreases table.columns.len() - i,
    {
        assert(column_names(table@).take(i + 1).drop_last() =~= column_names(table@).take(i as int));
        write_string(out, table.columns[i].name.as_str());
        i = i + 1;
        assert(out@ =~= mid + strings_fields(column_names(table@).take(i as int)));
    }
    assert(column_names(table@).take(table.columns.len() as int) =~= column_names(table@));
    assert(out@ =~= old(out)@ + meta_bytes(table@));
}

/// Reads `n` names as empty columns.
fn read_columns(s: &[u8], pos: usize, n: u32) -> (r: Result<(Vec<StoredColumn>, usize), ArchiveError>)
    ensures
        match (r, spec_read_strings(s@, pos as int, n as nat)) {
            (Ok((d, p)), Ok((e, q))) => columns_view(d@) == empty_columns(e) && p == q,
            (Err(e1), Err(e2)) => e1 == e2,
            _ => false,
        },
{
    let mut out: Vec<StoredColumn> = Vec::new();
    let ghost mut names: Seq<Seq<char>> = Seq::empty();
    let mut p = pos;
    let mut i: u32 = 0;
    assert(columns_view(out@) =~= empty_columns(names));
    while i < n
        invariant
            0 <= i <= n,
            spec_read_strings(s@, pos as int, i as nat) == Ok::<(Seq<Seq<char>>, int), ArchiveError>(
                (names, p as int),
            ),
            columns_view(out@) == empty_columns(names),
            out@.len() == names.len(),
        decreases n - i,
    {
        let ghost before = out@;
        let ghost old_names = names;
        match read_string(s, p) {
            Ok((x, q)) => {
                proof {
                    names = names.push(x@);
                }
                let col = StoredColumn { name: x, values: Vec::new() };
                assert(cells_view(col.values@) =~= Seq::<Option<CellV>>::empty());
                let ghost colv = col;
                out.push(col);
                p = q;
                assert forall|k: int| 0 <= k < out@.len() implies #[trigger] columns_view(out@)[k] == empty_columns(names)[k] by {
                    if k < before.len() {
                        assert(out@[k] == before[k]);
                        assert(columns_view(before)[k] == empty_columns(old_names)[k]);
                    } else {
                        assert(out@[k] == colv);
                        assert(names[k] == x@);
                    }
                }
                assert(columns_view(out@) =~= empty_columns(names));
            },
            Err(e) => {
                proof {
                    lemma_names_error_persists(s@, pos as int, (i + 1) as nat, n as nat);
                }
                return Err(e);
            },
        }
        i = i + 1;
    }
    Ok((out, p))
}

#[verifier::spinoff_prover]
proof fn lemma_names_error_persists(s: Seq<u8>, pos: int, n: nat, m: nat)
    requires
        n <= m,
        spec_read_strings(s, pos, n) is Err,
    ensures
        spec_read_strings(s, pos, m) == spec_read_strings(s, pos, n),
    decreases m - n,
{
    if n < m {
        lemma_names_error_persists(s, pos, n, (m - 1) as nat);
    }
}

/// Reads the metadata: the table fields and the column names.
fn read_meta(s: &[u8]) -> (r: Result<(StoredTable, usize), ArchiveError>)
    ensures
        match (r, spec_read_meta(s@)) {
            (Ok((t, p)), Ok((u, q))) => t@ == u && p == q,
            (Err(e1), Err(e2)) => e1 == e2,
            _ => false,
        },
{
    let (fid, p1) = match read_u8(s, 0) {
        Ok(x) => x,
        Err(e) => return Err(e),
    };
    let format = match format_from_id(fid) {
        Ok(f) => f,
        Err(e) => return Err(e),
    };
    let (marker, p1b) = match read_u8(s, p1) {
        Ok(x) => x,
        Err(e) => return Err(e),
    };
    let delimiter: Option<u8>;
    let p2: usize;
    if marker == 0 {
        delimiter = None;
        p2 = p1b;
    } else if marker == 1 {
        match read_u8(s, p1b) {
            Ok((d, q)) => {
                delimiter = Some(d);
                p2 = q;
            },
            Err(e) => return Err(e),
        }
    } else {
        return Err(ArchiveError::BadDelimiterMarker(marker));
    }
    let (tn, p3) = match read_u8(s, p2) {
        Ok(x) => x,
        Err(e) => return Err(e),
    };
    let (le, p4) = match read_u8(s, p3) {
        Ok(x) => x,
        Err(e) => return Err(e),
    };
    let line_ending = if le == 0 {
        LineEnding::Lf
    } else if le == 1 {
        LineEnding::CrLf
    } else {
        return Err(ArchiveError::BadLineEnding(le));
    };
    let (rows, p5) = match read_u64(s, p4) {
        Ok(x) => x,
        Err(e) => return Err(e),
    };
    let (ncols, p6) = match read_u32(s, p5) {
        Ok(x) => x,
        Err(e) => return Err(e),
    };
    let (columns, p7) = match read_columns(s, p6, ncols) {
        Ok(x) => x,
        Err(e) => return Err(e),
    };
    let table = StoredTable {
        format,
        delimiter,
        line_ending,
        columns,
        row_count: rows as usize,
        trailing_newline: tn != 0,
    };
    Ok((table, p7))
}

/// The number of blocks of a table: `ceil(rows / 16384)`, and one block for no rows.
pub open spec fn block_total(rows: nat) -> nat {
    if rows == 0 {
        1
    } else {
        ((rows + 16383) / 16384) as nat
    }
}

/// The first row of block `b`.
pub open spec fn block_start(b: nat) -> int {
    (b * 16384) as int
}

/// The row after the last row of block `b`.
pub open spec fn block_end(b: nat, rows: nat) -> int {
    if rows - block_start(b) > 16384 {
        block_start(b) + 16384
    } else {
        rows as int
    }
}

/// The record of one column chunk: column id, codec id, length, chunk bytes;
/// the codec is the one chosen for the slice.
pub open spec fn chunk_record(v: Seq<Option<CellV>>, j: nat) -> Result<Seq<u8>, ArchiveError> {
    let c = spec_choose_codec(v);
    match spec_encode_chunk(v, c) {
        Ok(b) => Ok(spec_u32_to_le_bytes(j as u32) + seq![spec_codec_id(c)] + spec_u64_to_le_bytes(
            b.len() as u64,
        ) + b),
        Err(e) => Err(e),
    }
}

/// The records of the first `k` columns for rows `start .. end`.
pub open spec fn block_records(cols: Seq<ColumnV>, start: int, end: int, k: nat) -> Result<Seq<u8>, ArchiveError>
    decreases k,
{
    if k == 0 {
        Ok(Seq::empty())
    } else {
        match block_records(cols, start, end, (k - 1) as nat) {
            Err(e) => Err(e),
            Ok(b) => match chunk_record(cols[k - 1].values.subrange(start, end), (k - 1) as nat) {
                Err(e) => Err(e),
                Ok(r) => Ok(b + r),
            },
        }
    }
}

/// Block `b`: its row count, then one record per column.
pub open spec fn block_bytes(t: TableV, b: nat) -> Result<Seq<u8>, ArchiveError> {
    let start = block_start(b);
    let end = block_end(b, t.row_count as nat);
    match block_records(t.columns, start, end, t.columns.len()) {
        Ok(r) => Ok(spec_u32_to_le_bytes((end - start) as u32) + r),
        Err(e) => Err(e),
    }
}

/// The first `k` blocks.
pub open spec fn blocks_bytes(t: TableV, k: nat) -> Result<Seq<u8>, ArchiveError>
    decreases k,
{
    if k == 0 {
        Ok(Seq::empty())
    } else {
        match blocks_bytes(t, (k - 1) as nat) {
            Err(e) => Err(e),
            Ok(a) => match block_bytes(t, (k - 1) as nat) {
                Err(e) => Err(e),
                Ok(b) => Ok(a + b),
            },
        }
    }
}

/// The payload of a table: metadata, block count, blocks.
pub open spec fn spec_encode_table(t: TableV) -> Result<Seq<u8>, ArchiveError> {
    let nb = block_total(t.row_count as nat);
    match blocks_bytes(t, nb) {
        Ok(b) => Ok(meta_bytes(t) + spec_u32_to_le_bytes(nb as u32) + b),
        Err(e) => Err(e),
    }
}

/// Reads one chunk record of a block of `rows` rows and appends its values to
/// the column it names.
pub open spec fn spec_read_chunk(s: Seq<u8>, pos: int, rows: nat, cols: Seq<Seq<Option<CellV>>>) -> Result<(Seq<Seq<Option<CellV>>>, int), ArchiveError> {
    match spec_read_u32(s, pos) {
        Err(e) => Err(e),
        Ok((id, p)) => match spec_read_u8(s, p) {
            Err(e) => Err(e),
            Ok((cid, q)) => match spec_codec_from_id(cid) {
                Err(e) => Err(e),
                Ok(codec) => match spec_read_u64(s, q) {
                    Err(e) => Err(e),
                    Ok((len, r)) => if r + len > s.len() {
                        Err(ArchiveError::UnexpectedEnd)
                    } else {
                        match spec_decode_chunk(s.subrange(r, r + len), codec, rows) {
                            Err(e) => Err(e),
                            Ok(vals) => if id >= cols.len() {
                                Err(ArchiveError::BadColumnId(id))
                            } else {
                                Ok((cols.update(id as int, cols[id as int] + vals), r + len))
                            },
                        }
                    },
                },
            },
        },
    }
}

/// Reads `k` chunk records.
pub open spec fn spec_read_chunks(s: Seq<u8>, pos: int, rows: nat, cols: Seq<Seq<Option<CellV>>>, k: nat) -> Result<(Seq<Seq<Option<CellV>>>, int), ArchiveError>
    decreases k,
{
    if k == 0 {
        Ok((cols, pos))
    } else {
        match spec_read_chunks(s, pos, rows, cols, (k - 1) as nat) {
            Err(e) => Err(e),
            Ok((c, p)) => spec_read_chunk(s, p, rows, c),
        }
    }
}

/// Reads one block: its row count, then one chunk record per column.
pub open spec fn spec_read_block(s: Seq<u8>, pos: int, cols: Seq<Seq<Option<CellV>>>) -> Result<(Seq<Seq<Option<CellV>>>, int), ArchiveError> {
    match spec_read_u32(s, pos) {
        Err(e) => Err(e),
        Ok((rows, p)) => spec_read_chunks(s, p, rows as nat, cols, cols.len()),
    }
}

/// Reads `k` blocks.
pub open spec fn spec_read_blocks(s: Seq<u8>, pos: int, cols: Seq<Seq<Option<CellV>>>, k: nat) -> Result<(Seq<Seq<Option<CellV>>>, int), ArchiveError>
    decreases k,
{
    if k == 0 {
        Ok((cols, pos))
    } else {
        match spec_read_blocks(s, pos, cols, (k - 1) as nat) {
            Err(e) => Err(e),
            Ok((c, p)) => spec_read_block(s, p, c),
        }
    }
}

/// The columns of the metadata with the values read from the blocks.
pub open spec fn with_values(m: TableV, vals: Seq<Seq<Option<CellV>>>) -> TableV {
    TableV {
        columns: Seq::new(m.columns.len(), |j: int| ColumnV { name: m.columns[j].name, values: vals[j] }),
        ..m
    }
}

/// `n` empty value sequences.
pub open spec fn no_values(n: nat) -> Seq<Seq<Option<CellV>>> {
    Seq::new(n, |_j: int| Seq::<Option<CellV>>::empty())
}

/// Reads a payload: metadata, block count, blocks.
pub open spec fn spec_decode_table(s: Seq<u8>) -> Result<TableV, ArchiveError> {
    match spec_read_meta(s) {
        Err(e) => Err(e),
        Ok((m, p)) => match spec_read_u32(s, p) {
            Err(e) => Err(e),
            Ok((nb, q)) => match spec_read_blocks(s, q, no_values(m.columns.len()), nb as nat) {
                Err(e) => Err(e),
                Ok((vals, _)) => Ok(with_values(m, vals)),
            },
        },
    }
}

/// The number of blocks for `rows` rows.
fn block_total_of(rows: usize) -> (n: usize)
    ensures
        n == block_total(rows as nat),
        n >= 1,
        rows > 0 ==> (n - 1) * 16384 < rows,
{
    if rows == 0 {
        1
    } else {
        let n = rows / 16384 + if rows % 16384 == 0 { 0 } else { 1 };
        assert(n == (rows + 16383) / 16384);
        assert((n - 1) * 16384 < rows) by (nonlinear_arith)
            requires
                n == (rows + 16383) / 16384,
                rows > 0,
        ;
        n
    }
}

/// The records of one block: for each column, the chosen codec's chunk of
/// the column's rows `start .. end`.
#[verifier::rlimit(40)]
#[verifier::spinoff_prover]
fn encode_block_records(table: &StoredTable, start: usize, end: usize) -> (r: Result<Vec<u8>, ArchiveError>)
    requires
        start <= end,
        forall|j: int| 0 <= j < table.columns@.len() ==> end <= (#[trigger] table.columns@[j]).values@.len(),
    ensures
        match (r, block_records(table@.columns, start as int, end as int, table.columns@.len())) {
            (Ok(b), Ok(c)) => b@ == c,
            (Err(e1), Err(e2)) => e1 == e2,
            _ => false,
        },
{
    let ghost t = table@;
    let ncols = table.columns.len();
    let mut rec: Vec<u8> = Vec::new();
    let mut j: usize = 0;
    while j < ncols
        invariant
            0 <= j <= ncols,
            ncols == table.columns@.len(),
            t == table@,
            start <= end,
            forall|k: int| 0 <= k < ncols ==> end <= (#[trigger] table.columns@[k]).values@.len(),
            block_records(t.columns, start as int, end as int, j as nat) == Ok::<Seq<u8>, ArchiveError>(rec@),
        decreases ncols - j,
    {
        let col = &table.columns[j];
        let values = vstd::slice::slice_subrange(col.values.as_slice(), start, end);
        assert(t.columns[j as int] == table.columns@[j as int]@);
        assert(cells_view(values@) =~= t.columns[j as int].values.subrange(start as int, end as int));
        let codec = choose_best_codec(values);
        let chunk = match encode_column_chunk(values, codec) {
            Ok(c) => c,
            Err(e) => {
                proof {
                    lemma_block_records_error(t.columns, start as int, end as int, (j + 1) as nat, ncols as nat);
                }
                return Err(e);
            },
        };
        let ghost before = rec@;
        write_u32(&mut rec, j as u32);
        write_u8(&mut rec, codec_id(codec));
        write_u64(&mut rec, chunk.len() as u64);
        append_bytes(&mut rec, chunk.as_slice());
        assert(rec@ =~= before + (spec_u32_to_le_bytes(j as u32) + seq![spec_codec_id(codec)] + spec_u64_to_le_bytes(chunk@.len() as u64) + chunk@));
        j = j + 1;
    }
    Ok(rec)
}

/// Encodes a table as row blocks of at most 16,384 rows; each column slice of
/// each block gets the codec that `choose_best_codec` picks for it.
pub fn encode_table(table: &StoredTable, _plans: &[ColumnPlan]) -> (r: Result<Vec<u8>, ArchiveError>)
    requires
        forall|j: int| 0 <= j < table.columns@.len() ==> table.row_count <= (#[trigger] table.columns@[j]).values@.len(),
    ensures
        match (r, spec_encode_table(table@)) {
            (Ok(b), Ok(c)) => b@ == c,
            (Err(e1), Err(e2)) => e1 == e2,
            _ => false,
        },
{
    let ghost t = table@;
    let mut out: Vec<u8> = Vec::new();
    write_meta(&mut out, table);
    let rows = table.row_count;
    let nb = block_total_of(rows);
    write_u32(&mut out, nb as u32);
    let ghost head = out@;
    let ghost mut acc: Seq<u8> = Seq::empty();
    assert(out@ =~= head + acc);
    let mut b: usize = 0;
    while b < nb
        invariant
            0 <= b <= nb,
            nb == block_total(rows as nat),
            rows > 0 ==> (nb - 1) * 16384 < rows,
            rows == table.row_count,
            t == table@,
            forall|j: int| 0 <= j < table.columns@.len() ==> rows <= (#[trigger] table.columns@[j]).values@.len(),
            blocks_bytes(t, b as nat) == Ok::<Seq<u8>, ArchiveError>(acc),
            out@ == head + acc,
        decreases nb - b,
    {
        let start: usize;
        if rows == 0 {
            start = 0;
        } else {
            assert(b * 16384 < rows) by (nonlinear_arith)
                requires
                    b < nb,
                    (nb - 1) * 16384 < rows,
            ;
            start = b * 16384;
        }
        assert(start == block_start(b as nat));
        let end = if rows - start > 16384 { start + 16384 } else { rows };
        assert(end == block_end(b as nat, rows as nat));
        let rec = match encode_block_records(table, start, end) {
            Ok(r) => r,
            Err(e) => {
                proof {
                    lemma_blocks_error(t, (b + 1) as nat, nb as nat);
                }
                return Err(e);
            },
        };
        let mut blk: Vec<u8> = Vec::new();
        write_u32(&mut blk, (end - start) as u32);
        append_bytes(&mut blk, rec.as_slice());
        append_bytes(&mut out, blk.as_slice());
        proof {
            acc = acc + blk@;
        }
        assert(out@ =~= head + acc);
        b = b + 1;
    }
    assert(out@ =~= meta_bytes(t) + spec_u32_to_le_bytes(nb as u32) + acc);
    Ok(out)
}

#[verifier::spinoff_prover]
proof fn lemma_block_records_error(cols: Seq<ColumnV>, start: int, end: int, k: nat, m: nat)
    requires
        k <= m,
        block_records(cols, start, end, k) is Err,
    ensures
        block_records(cols, start, end, m) == block_records(cols, start, end, k),
    decreases m - k,
{
    if k < m {
        lemma_block_records_error(cols, start, end, k, (m - 1) as nat);
    }
}

#[verifier::spinoff_prover]
proof fn lemma_blocks_error(t: TableV, k: nat, m: nat)
    requires
        k <= m,
        blocks_bytes(t, k) is Err,
    ensures
        blocks_bytes(t, m) == blocks_bytes(t, k),
    decreases m - k,
{
    if k < m {
        lemma_blocks_error(t, k, (m - 1) as nat);
    }
}

/// The values of each column.
pub open spec fn values_of(cols: Seq<StoredColumn>) -> Seq<Seq<Option<CellV>>> {
    Seq::new(cols.len(), |j: int| cells_view(cols[j].values@))
}

/// Appends values to column `id`.
fn append_to_column(cols: &mut Vec<StoredColumn>, id: usize, vals: Vec<Option<Cell>>)
    requires
        id < old(cols)@.len(),
    ensures
        final(cols)@.len() == old(cols)@.len(),
        forall|j: int| 0 <= j < old(cols)@.len() && j != id ==> #[trigger] final(cols)@[j] == old(cols)@[j],
        final(cols)@[id as int].name == old(cols)@[id as int].name,
        final(cols)@[id as int].values@ == old(cols)@[id as int].values@ + vals@,
{
    let mut vals = vals;
    cols[id].values.append(&mut vals);
}

/// The names of the columns.
pub open spec fn names_of(cols: Seq<StoredColumn>) -> Seq<Seq<char>> {
    Seq::new(cols.len(), |j: int| cols[j].name@)
}

/// Reads one chunk record of a block of `rows` rows into the column it names.
fn read_chunk(s: &[u8], pos: usize, rows: usize, cols: &mut Vec<StoredColumn>) -> (r: Result<usize, ArchiveError>)
    ensures
        match (r, spec_read_chunk(s@, pos as int, rows as nat, values_of(old(cols)@))) {
            (Ok(p), Ok((c, q))) => values_of(final(cols)@) == c && p == q,
            (Err(e1), Err(e2)) => e1 == e2,
            _ => false,
        },
        names_of(final(cols)@) == names_of(old(cols)@),
        final(cols)@.len() == old(cols)@.len(),
{
    let (id, p) = match read_u32(s, pos) {
        Ok(x) => x,
        Err(e) => return Err(e),
    };
    let (cid, q) = match read_u8(s, p) {
        Ok(x) => x,
        Err(e) => return Err(e),
    };
    let codec = match codec_from_id(cid) {
        Ok(c) => c,
        Err(e) => return Err(e),
    };
    let (len, r) = match read_u64(s, q) {
        Ok(x) => x,
        Err(e) => return Err(e),
    };
    if len > (s.len() - r) as u64 {
        return Err(ArchiveError::UnexpectedEnd);
    }
    let end = r + len as usize;
    let chunk = vstd::slice::slice_subrange(s, r, end);
    let vals = match decode_column_chunk(chunk, codec, rows) {
        Ok(v) => v,
        Err(e) => return Err(e),
    };
    if id as usize >= cols.len() {
        return Err(ArchiveError::BadColumnId(id));
    }
    let ghost old_vals = values_of(cols@);
    let ghost old_cols = cols@;
    let ghost added = cells_view(vals@);
    let ghost vv = vals@;
    append_to_column(cols, id as usize, vals);
    assert(cells_view(old_cols[id as int].values@ + vv) =~= cells_view(old_cols[id as int].values@) + added);
    assert forall|j: int| 0 <= j < old_vals.len() implies #[trigger] values_of(cols@)[j] == old_vals.update(id as int, old_vals[id as int] + added)[j] by {
        if j != id {
            assert(cols@[j] == old_cols[j]);
        }
    }
    assert(values_of(cols@) =~= old_vals.update(id as int, old_vals[id as int] + added));
    assert(names_of(cols@) =~= names_of(old(cols)@));
    Ok(end)
}

#[verifier::spinoff_prover]
proof fn lemma_chunks_error(s: Seq<u8>, pos: int, rows: nat, cols: Seq<Seq<Option<CellV>>>, k: nat, m: nat)
    requires
        k <= m,
        spec_read_chunks(s, pos, rows, cols, k) is Err,
    ensures
        spec_read_chunks(s, pos, rows, cols, m) == spec_read_chunks(s, pos, rows, cols, k),
    decreases m - k,
{
    if k < m {
        lemma_chunks_error(s, pos, rows, cols, k, (m - 1) as nat);
    }
}

#[verifier::spinoff_prover]
proof fn lemma_read_blocks_error(s: Seq<u8>, pos: int, cols: Seq<Seq<Option<CellV>>>, k: nat, m: nat)
    requires
        k <= m,
        spec_read_blocks(s, pos, cols, k) is Err,
    ensures
        spec_read_blocks(s, pos, cols, m) == spec_read_blocks(s, pos, cols, k),
    decreases m - k,
{
    if k < m {
        lemma_read_blocks_error(s, pos, cols, k, (m - 1) as nat);
    }
}

/// Reads one block into the columns.
#[verifier::rlimit(40)]
#[verifier::spinoff_prover]
fn read_block(s: &[u8], pos: usize, cols: &mut Vec<StoredColumn>) -> (r: Result<usize, ArchiveError>)
    ensures
        match (r, spec_read_block(s@, pos as int, values_of(old(cols)@))) {
            (Ok(p), Ok((c, q))) => values_of(final(cols)@) == c && p == q,
            (Err(e1), Err(e2)) => e1 == e2,
            _ => false,
        },
        names_of(final(cols)@) == names_of(old(cols)@),
        final(cols)@.len() == old(cols)@.len(),
{
    let (rows, p0) = match read_u32(s, pos) {
        Ok(x) => x,
        Err(e) => return Err(e),
    };
    let ghost init = values_of(cols@);
    let ncols = cols.len();
    let mut p = p0;
    let mut k: usize = 0;
    while k < ncols
        invariant
            0 <= k <= ncols,
            ncols == init.len(),
            init == values_of(old(cols)@),
            cols@.len() == ncols,
            spec_read_u32(s@, pos as int) == Ok::<(u32, int), ArchiveError>((rows, p0 as int)),
            spec_read_chunks(s@, p0 as int, rows as nat, init, k as nat) == Ok::<(Seq<Seq<Option<CellV>>>, int), ArchiveError>(
                (values_of(cols@), p as int),
            ),
            names_of(cols@) == names_of(old(cols)@),
        decreases ncols - k,
    {
        match read_chunk(s, p, rows as usize, cols) {
            Ok(q) => {
                p = q;
            },
            Err(e) => {
                proof {
                    lemma_chunks_error(s@, p0 as int, rows as nat, init, (k + 1) as nat, ncols as nat);
                }
                return Err(e);
            },
        }
        k = k + 1;
    }
    Ok(p)
}

/// Decodes a payload into a table: the metadata, then the values of each
/// block appended to the columns their records name.
pub fn decode_table(bytes: &[u8]) -> (r: Result<StoredTable, ArchiveError>)
    ensures
        match (r, spec_decode_table(bytes@)) {
            (Ok(t), Ok(u)) => t@ == u,
            (Err(e1), Err(e2)) => e1 == e2,
            _ => false,
        },
{
    let (mut table, p) = match read_meta(bytes) {
        Ok(x) => x,
        Err(e) => return Err(e),
    };
    let ghost m = table@;
    let (nb, q) = match read_u32(bytes, p) {
        Ok(x) => x,
        Err(e) => return Err(e),
    };
    assert(values_of(table.columns@) =~= no_values(m.columns.len())) by {
        assert forall|j: int| 0 <= j < table.columns@.len() implies #[trigger] values_of(table.columns@)[j] == no_values(m.columns.len())[j] by {
            assert(table@.columns[j] == table.columns@[j]@);
        }
    }
    let ghost names0 = names_of(table.columns@);
    let mut pos = q;
    let mut b: u32 = 0;
    while b < nb
        invariant
            0 <= b <= nb,
            spec_read_meta(bytes@) == Ok::<(TableV, int), ArchiveError>((m, p as int)),
            spec_read_u32(bytes@, p as int) == Ok::<(u32, int), ArchiveError>((nb, q as int)),
            spec_read_blocks(bytes@, q as int, no_values(m.columns.len()), b as nat) == Ok::<(Seq<Seq<Option<CellV>>>, int), ArchiveError>(
                (values_of(table.columns@), pos as int),
            ),
            names_of(table.columns@) == names0,
            table.columns@.len() == m.columns.len(),
            table.format == m.format,
            table.delimiter == m.delimiter,
            table.line_ending == m.line_ending,
            table.row_count == m.row_count,
            table.trailing_newline == m.trailing_newline,
        decreases nb - b,
    {
        match read_block(bytes, pos, &mut table.columns) {
            Ok(np) => {
                pos = np;
            },
            Err(e) => {
                proof {
                    lemma_read_blocks_error(bytes@, q as int, no_values(m.columns.len()), (b + 1) as nat, nb as nat);
                }
                return Err(e);
            },
        }
        b = b + 1;
    }
    assert(table@ =~= with_values(m, values_of(table.columns@))) by {
        assert forall|j: int| 0 <= j < m.columns.len() implies #[trigger] table@.columns[j] == with_values(m, values_of(table.columns@)).columns[j] by {
            assert(names_of(table.columns@)[j] == names0[j]);
            assert(m.columns[j].name == names0[j]);
        }
        assert(table@.columns =~= with_values(m, values_of(table.columns@)).columns);
    }
    Ok(table)
}

/// The number of blocks that a payload announces.
pub fn block_count(bytes: &[u8]) -> (r: Result<usize, ArchiveError>)
    ensures
        match (r, spec_read_meta(bytes@)) {
            (Ok(n), Ok((_, p))) => spec_read_u32(bytes@, p) == Ok::<(u32, int), ArchiveError>((n as u32, p + 4)) && n == (n as u32),
            (Err(e1), Err(e2)) => e1 == e2,
            (Err(e1), Ok((_, p))) => spec_read_u32(bytes@, p) == Err::<(u32, int), ArchiveError>(e1),
            _ => false,
        },
{
    let (_table, p) = match read_meta(bytes) {
        Ok(x) => x,
        Err(e) => return Err(e),
    };
    match read_u32(bytes, p) {
        Ok((n, _)) => Ok(n as usize),
        Err(e) => Err(e),
    }
}

/// The head of a chunk record: its column id, codec and length.
pub struct ChunkHead {
    pub column_id: u32,
    pub codec: ColumnCodec,
    pub len: u64,
}

/// Reads a chunk head and steps over the chunk, which must lie inside the payload.
pub open spec fn spec_scan_record(s: Seq<u8>, pos: int) -> Result<(ChunkHead, int), ArchiveError> {
    match spec_read_u32(s, pos) {
        Err(e) => Err(e),
        Ok((id, p)) => match spec_read_u8(s, p) {
            Err(e) => Err(e),
            Ok((cid, q)) => match spec_codec_from_id(cid) {
                Err(e) => Err(e),
                Ok(codec) => match spec_read_u64(s, q) {
                    Err(e) => Err(e),
                    Ok((len, r)) => if r + len > s.len() {
                        Err(ArchiveError::UnexpectedEnd)
                    } else {
                        Ok((ChunkHead { column_id: id, codec, len }, r + len))
                    },
                },
            },
        },
    }
}

/// Scans `k` chunk records.
pub open spec fn spec_scan_records(s: Seq<u8>, pos: int, k: nat) -> Result<(Seq<ChunkHead>, int), ArchiveError>
    decreases k,
{
    if k == 0 {
        Ok((Seq::empty(), pos))
    } else {
        match spec_scan_records(s, pos, (k - 1) as nat) {
            Err(e) => Err(e),
            Ok((h, p)) => match spec_scan_record(s, p) {
                Err(e) => Err(e),
                Ok((x, q)) => Ok((h.push(x), q)),
            },
        }
    }
}

/// Scans `k` blocks of `ncols` records each.
pub open spec fn spec_scan_blocks(s: Seq<u8>, pos: int, ncols: nat, k: nat) -> Result<(Seq<ChunkHead>, int), ArchiveError>
    decreases k,
{
    if k == 0 {
        Ok((Seq::empty(), pos))
    } else {
        match spec_scan_blocks(s, pos, ncols, (k - 1) as nat) {
            Err(e) => Err(e),
            Ok((h, p)) => match spec_read_u32(s, p) {
                Err(e) => Err(e),
                Ok((_, q)) => match spec_scan_records(s, q, ncols) {
                    Err(e) => Err(e),
                    Ok((x, r)) => Ok((h + x, r)),
                },
            },
        }
    }
}

/// The metadata and the heads of every chunk record of a payload.
pub open spec fn spec_chunk_heads(s: Seq<u8>) -> Result<(TableV, Seq<ChunkHead>), ArchiveError> {
    match spec_read_meta(s) {
        Err(e) => Err(e),
        Ok((m, p)) => match spec_read_u32(s, p) {
            Err(e) => Err(e),
            Ok((nb, q)) => match spec_scan_blocks(s, q, m.columns.len(), nb as nat) {
                Err(e) => Err(e),
                Ok((h, _)) => Ok((m, h)),
            },
        },
    }
}

proof fn lemma_scan_of_read_chunks(s: Seq<u8>, pos: int, rows: nat, cols: Seq<Seq<Option<CellV>>>, k: nat)
    requires
        spec_read_chunks(s, pos, rows, cols, k) is Ok,
    ensures
        spec_scan_records(s, pos, k) is Ok,
        spec_scan_records(s, pos, k)->Ok_0.1 == spec_read_chunks(s, pos, rows, cols, k)->Ok_0.1,
        spec_read_chunks(s, pos, rows, cols, k)->Ok_0.0.len() == cols.len(),
    decreases k,
{
    if k > 0 {
        lemma_scan_of_read_chunks(s, pos, rows, cols, (k - 1) as nat);
    }
}

proof fn lemma_scan_of_read_blocks(s: Seq<u8>, pos: int, cols: Seq<Seq<Option<CellV>>>, k: nat)
    requires
        spec_read_blocks(s, pos, cols, k) is Ok,
    ensures
        spec_scan_blocks(s, pos, cols.len(), k) is Ok,
        spec_scan_blocks(s, pos, cols.len(), k)->Ok_0.1 == spec_read_blocks(s, pos, cols, k)->Ok_0.1,
        spec_read_blocks(s, pos, cols, k)->Ok_0.0.len() == cols.len(),
    decreases k,
{
    if k > 0 {
        lemma_scan_of_read_blocks(s, pos, cols, (k - 1) as nat);
        let (c, p) = spec_read_blocks(s, pos, cols, (k - 1) as nat)->Ok_0;
        let (rows, q) = spec_read_u32(s, p)->Ok_0;
        lemma_scan_of_read_chunks(s, q, rows as nat, c, c.len());
    }
}

proof fn lemma_scan_records_len(s: Seq<u8>, pos: int, k: nat)
    requires
        spec_scan_records(s, pos, k) is Ok,
    ensures
        spec_scan_records(s, pos, k)->Ok_0.0.len() == k,
    decreases k,
{
    if k > 0 {
        lemma_scan_records_len(s, pos, (k - 1) as nat);
    }
}

/// Walking `k` blocks of `n` columns gives `k * n` chunk heads.
pub proof fn lemma_scan_blocks_len(s: Seq<u8>, pos: int, n: nat, k: nat)
    requires
        spec_scan_blocks(s, pos, n, k) is Ok,
    ensures
        spec_scan_blocks(s, pos, n, k)->Ok_0.0.len() == k * n,
    decreases k,
{
    if k > 0 {
        lemma_scan_blocks_len(s, pos, n, (k - 1) as nat);
        let (h, p) = spec_scan_blocks(s, pos, n, (k - 1) as nat)->Ok_0;
        let (_, q) = spec_read_u32(s, p)->Ok_0;
        assert(spec_read_u32(s, p) is Ok);
        assert(spec_scan_records(s, q, n) is Ok);
        lemma_scan_records_len(s, q, n);
        let x = spec_scan_records(s, q, n)->Ok_0.0;
        assert(spec_scan_blocks(s, pos, n, k)->Ok_0.0 == h + x);
        assert(h.len() == ((k - 1) as nat) * n);
        assert(((k - 1) as nat) * n + n == k * n) by (nonlinear_arith)
            requires
                k > 0,
        ;
    } else {
        assert(k * n == 0) by (nonlinear_arith)
            requires
                k == 0,
        ;
    }
}

/// The block count a payload announces after its metadata.
pub open spec fn announced_blocks(s: Seq<u8>) -> nat {
    spec_read_u32(s, spec_read_meta(s)->Ok_0.1)->Ok_0.0 as nat
}

/// A payload that decodes to a table can also be walked chunk head by chunk
/// head, as the codec statistics do.
pub proof fn lemma_decoded_payload_scans(s: Seq<u8>)
    requires
        spec_decode_table(s) is Ok,
    ensures
        spec_chunk_heads(s) is Ok,
{
    let (m, p) = spec_read_meta(s)->Ok_0;
    let (nb, q) = spec_read_u32(s, p)->Ok_0;
    assert(no_values(m.columns.len()).len() == m.columns.len());
    lemma_scan_of_read_blocks(s, q, no_values(m.columns.len()), nb as nat);
}

/// How many chunks and bytes one column had under one codec.
#[derive(Debug, Clone)]
pub struct CodecStat {
    pub column_id: usize,
    pub column_name: String,
    pub codec: ColumnCodec,
    pub chunks: u64,
    pub bytes: u64,
}

/// Orders (column, codec) keys by column id, then codec id.
pub open spec fn key_lt(a_id: int, a_codec: ColumnCodec, b_id: int, b_codec: ColumnCodec) -> bool {
    a_id < b_id || (a_id == b_id && spec_codec_id(a_codec) < spec_codec_id(b_codec))
}

/// The number of chunk records of a column under a codec.
pub open spec fn count_key(h: Seq<ChunkHead>, id: int, codec: ColumnCodec) -> nat
    decreases h.len(),
{
    if h.len() == 0 {
        0
    } else {
        count_key(h.drop_last(), id, codec) + (if h.last().column_id == id && h.last().codec == codec { 1nat } else { 0nat })
    }
}

/// The chunk bytes of a column under a codec.
pub open spec fn bytes_key(h: Seq<ChunkHead>, id: int, codec: ColumnCodec) -> nat
    decreases h.len(),
{
    if h.len() == 0 {
        0
    } else {
        bytes_key(h.drop_last(), id, codec) + (if h.last().column_id == id && h.last().codec == codec { h.last().len as nat } else { 0nat })
    }
}

/// The chunk bytes of all records.
pub open spec fn bytes_all(h: Seq<ChunkHead>) -> nat
    decreases h.len(),
{
    if h.len() == 0 {
        0
    } else {
        bytes_all(h.drop_last()) + h.last().len as nat
    }
}

/// The label of a column id: its name, or `col` and the id for an id past the columns.
pub open spec fn column_label(names: Seq<Seq<char>>, id: int) -> Seq<char> {
    if 0 <= id < names.len() {
        names[id]
    } else {
        seq!['c', 'o', 'l'] + crate::text::spec_decimal(id as nat)
    }
}

/// `stats` holds one entry per (column, codec) pair of the records, ordered by
/// column id, then codec id, with the number of chunks and their bytes.
pub open spec fn stats_describe(stats: Seq<CodecStat>, names: Seq<Seq<char>>, h: Seq<ChunkHead>) -> bool {
    &&& forall|i: int, j: int| #![trigger stats[i], stats[j]]
        0 <= i < j < stats.len() ==> key_lt(stats[i].column_id as int, stats[i].codec, stats[j].column_id as int, stats[j].codec)
    &&& forall|i: int| 0 <= i < stats.len() ==> {
        let st = #[trigger] stats[i];
        &&& st.chunks == count_key(h, st.column_id as int, st.codec)
        &&& st.bytes == bytes_key(h, st.column_id as int, st.codec)
        &&& st.chunks > 0
        &&& st.column_name@ == column_label(names, st.column_id as int)
    }
    &&& forall|k: int| 0 <= k < h.len() ==> exists|i: int| 0 <= i < stats.len()
        && (#[trigger] stats[i]).column_id == (#[trigger] h[k]).column_id && stats[i].codec == h[k].codec
}

#[verifier::spinoff_prover]
proof fn lemma_count_key_exists(h: Seq<ChunkHead>, id: int, codec: ColumnCodec)
    requires
        count_key(h, id, codec) > 0,
    ensures
        exists|k: int| 0 <= k < h.len() && (#[trigger] h[k]).column_id == id && h[k].codec == codec,
    decreases h.len(),
{
    if h.last().column_id == id && h.last().codec == codec {
        assert(h[h.len() - 1] == h.last());
    } else {
        lemma_count_key_exists(h.drop_last(), id, codec);
        let k = choose|k: int| 0 <= k < h.drop_last().len() && (#[trigger] h.drop_last()[k]).column_id == id && h.drop_last()[k].codec == codec;
        assert(h[k] == h.drop_last()[k]);
    }
}

#[verifier::spinoff_prover]
proof fn lemma_key_bounds(h: Seq<ChunkHead>, id: int, codec: ColumnCodec)
    ensures
        count_key(h, id, codec) <= h.len(),
        bytes_key(h, id, codec) <= bytes_all(h),
    decreases h.len(),
{
    if h.len() > 0 {
        lemma_key_bounds(h.drop_last(), id, codec);
    }
}

/// The label of a column id.
fn label_of(columns: &Vec<StoredColumn>, id: u32) -> (s: String)
    ensures
        s@ == column_label(names_of(columns@), id as int),
{
    if (id as usize) < columns.len() {
        columns[id as usize].name.clone()
    } else {
        let mut b: Vec<u8> = Vec::new();
        b.push(99);
        b.push(111);
        b.push(108);
        let ghost head = b@;
        crate::text::push_decimal(&mut b, id as u64);
        proof {
            crate::text::lemma_decimal_ascii(id as nat);
        }
        assert(crate::text::all_ascii(b@));
        assert(crate::text::ascii_chars(b@) =~= seq!['c', 'o', 'l'] + crate::text::spec_decimal(id as nat)) by {
            assert(b@ =~= head + crate::text::spec_decimal_bytes(id as nat));
            assert(crate::text::ascii_chars(head) =~= seq!['c', 'o', 'l']);
        }
        crate::text::ascii_string(b)
    }
}

/// Counting a record of a pair that has an entry: the entry grows by one chunk.
#[verifier::rlimit(60)]
#[verifier::spinoff_prover]
proof fn lemma_stats_update(old_stats: Seq<CodecStat>, new_stats: Seq<CodecStat>, names: Seq<Seq<char>>, h: Seq<ChunkHead>, head: ChunkHead, i: int)
    requires
        stats_describe(old_stats, names, h),
        0 <= i < old_stats.len(),
        old_stats[i].column_id == head.column_id,
        old_stats[i].codec == head.codec,
        new_stats.len() == old_stats.len(),
        forall|j: int| 0 <= j < old_stats.len() && j != i ==> #[trigger] new_stats[j] == old_stats[j],
        new_stats[i].column_id == old_stats[i].column_id,
        new_stats[i].codec == old_stats[i].codec,
        new_stats[i].column_name == old_stats[i].column_name,
        new_stats[i].chunks == old_stats[i].chunks + 1,
        new_stats[i].bytes == old_stats[i].bytes + head.len,
    ensures
        stats_describe(new_stats, names, h.push(head)),
{
    let hn = h.push(head);
    assert(hn.drop_last() =~= h);
    assert forall|j: int| 0 <= j < new_stats.len() implies {
        let st = #[trigger] new_stats[j];
        &&& st.chunks == count_key(hn, st.column_id as int, st.codec)
        &&& st.bytes == bytes_key(hn, st.column_id as int, st.codec)
        &&& st.chunks > 0
        &&& st.column_name@ == column_label(names, st.column_id as int)
    } by {
        if j != i {
            if j < i {
                assert(key_lt(old_stats[j].column_id as int, old_stats[j].codec, old_stats[i].column_id as int, old_stats[i].codec));
            } else {
                assert(key_lt(old_stats[i].column_id as int, old_stats[i].codec, old_stats[j].column_id as int, old_stats[j].codec));
            }
        }
    }
    assert forall|a: int, b: int| #![trigger new_stats[a], new_stats[b]]
        0 <= a < b < new_stats.len() implies key_lt(new_stats[a].column_id as int, new_stats[a].codec, new_stats[b].column_id as int, new_stats[b].codec) by {
        assert(key_lt(old_stats[a].column_id as int, old_stats[a].codec, old_stats[b].column_id as int, old_stats[b].codec));
    }
    assert forall|k: int| 0 <= k < hn.len() implies exists|j: int| 0 <= j < new_stats.len()
        && (#[trigger] new_stats[j]).column_id == (#[trigger] hn[k]).column_id && new_stats[j].codec == hn[k].codec by {
        if k < h.len() {
            assert(hn[k] == h[k]);
            let j = choose|j: int| 0 <= j < old_stats.len() && (#[trigger] old_stats[j]).column_id == h[k].column_id && old_stats[j].codec == h[k].codec;
            assert(new_stats[j].column_id == old_stats[j].column_id && new_stats[j].codec == old_stats[j].codec);
        } else {
            assert(new_stats[i].column_id == hn[k].column_id);
        }
    }
}

/// Counting a record of a pair with no entry: a new entry goes where its key belongs.
#[verifier::rlimit(80)]
#[verifier::spinoff_prover]
proof fn lemma_stats_insert(old_stats: Seq<CodecStat>, names: Seq<Seq<char>>, h: Seq<ChunkHead>, head: ChunkHead, i: int, entry: CodecStat)
    requires
        stats_describe(old_stats, names, h),
        0 <= i <= old_stats.len(),
        forall|j: int| 0 <= j < i ==> key_lt((#[trigger] old_stats[j]).column_id as int, old_stats[j].codec, head.column_id as int, head.codec),
        i < old_stats.len() ==> key_lt(head.column_id as int, head.codec, old_stats[i].column_id as int, old_stats[i].codec),
        entry.column_id == head.column_id,
        entry.codec == head.codec,
        entry.chunks == 1,
        entry.bytes == head.len,
        entry.column_name@ == column_label(names, head.column_id as int),
    ensures
        stats_describe(old_stats.insert(i, entry), names, h.push(head)),
{
    let hn = h.push(head);
    let new_stats = old_stats.insert(i, entry);
    assert(hn.drop_last() =~= h);
    if count_key(h, head.column_id as int, head.codec) > 0 {
        lemma_count_key_exists(h, head.column_id as int, head.codec);
        let k = choose|k: int| 0 <= k < h.len() && (#[trigger] h[k]).column_id == head.column_id && h[k].codec == head.codec;
        let j = choose|j: int| 0 <= j < old_stats.len() && (#[trigger] old_stats[j]).column_id == h[k].column_id && old_stats[j].codec == h[k].codec;
        if j > i {
            assert(key_lt(old_stats[i].column_id as int, old_stats[i].codec, old_stats[j].column_id as int, old_stats[j].codec));
        }
        assert(false);
    }
    if bytes_key(h, head.column_id as int, head.codec) > 0 {
        lemma_bytes_count(h, head.column_id as int, head.codec);
    }
    assert forall|j: int| 0 <= j < new_stats.len() implies {
        let st = #[trigger] new_stats[j];
        &&& st.chunks == count_key(hn, st.column_id as int, st.codec)
        &&& st.bytes == bytes_key(hn, st.column_id as int, st.codec)
        &&& st.chunks > 0
        &&& st.column_name@ == column_label(names, st.column_id as int)
    } by {
        if j < i {
            assert(new_stats[j] == old_stats[j]);
        } else if j > i {
            assert(new_stats[j] == old_stats[j - 1]);
            if j - 1 > i {
                assert(key_lt(old_stats[i].column_id as int, old_stats[i].codec, old_stats[j - 1].column_id as int, old_stats[j - 1].codec));
            }
        }
    }
    assert forall|a: int, b: int| #![trigger new_stats[a], new_stats[b]]
        0 <= a < b < new_stats.len() implies key_lt(new_stats[a].column_id as int, new_stats[a].codec, new_stats[b].column_id as int, new_stats[b].codec) by {
        if a < i && b > i {
            assert(new_stats[a] == old_stats[a]);
            assert(new_stats[b] == old_stats[b - 1]);
            if b - 1 > i {
                assert(key_lt(old_stats[i].column_id as int, old_stats[i].codec, old_stats[b - 1].column_id as int, old_stats[b - 1].codec));
            }
        } else if a < i && b == i {
            assert(new_stats[a] == old_stats[a]);
        } else if a == i && b > i {
            assert(new_stats[b] == old_stats[b - 1]);
            if b - 1 > i {
                assert(key_lt(old_stats[i].column_id as int, old_stats[i].codec, old_stats[b - 1].column_id as int, old_stats[b - 1].codec));
            }
        } else if a < i && b < i {
            assert(new_stats[a] == old_stats[a] && new_stats[b] == old_stats[b]);
            assert(key_lt(old_stats[a].column_id as int, old_stats[a].codec, old_stats[b].column_id as int, old_stats[b].codec));
        } else {
            assert(new_stats[a] == old_stats[a - 1] && new_stats[b] == old_stats[b - 1]);
            assert(key_lt(old_stats[a - 1].column_id as int, old_stats[a - 1].codec, old_stats[b - 1].column_id as int, old_stats[b - 1].codec));
        }
    }
    assert forall|k: int| 0 <= k < hn.len() implies exists|j: int| 0 <= j < new_stats.len()
        && (#[trigger] new_stats[j]).column_id == (#[trigger] hn[k]).column_id && new_stats[j].codec == hn[k].codec by {
        if k < h.len() {
            assert(hn[k] == h[k]);
            let j = choose|j: int| 0 <= j < old_stats.len() && (#[trigger] old_stats[j]).column_id == h[k].column_id && old_stats[j].codec == h[k].codec;
            if j < i {
                assert(new_stats[j] == old_stats[j]);
            } else {
                assert(new_stats[j + 1] == old_stats[j]);
            }
        } else {
            assert(new_stats[i] == entry);
        }
    }
}

/// The chunks of all entries.
pub open spec fn sum_chunks(st: Seq<CodecStat>) -> nat
    decreases st.len(),
{
    if st.len() == 0 {
        0
    } else {
        sum_chunks(st.drop_last()) + st.last().chunks as nat
    }
}

/// The bytes of all entries.
pub open spec fn sum_bytes(st: Seq<CodecStat>) -> nat
    decreases st.len(),
{
    if st.len() == 0 {
        0
    } else {
        sum_bytes(st.drop_last()) + st.last().bytes as nat
    }
}

spec fn sum_count(k: Seq<CodecStat>, h: Seq<ChunkHead>) -> nat
    decreases k.len(),
{
    if k.len() == 0 {
        0
    } else {
        sum_count(k.drop_last(), h) + count_key(h, k.last().column_id as int, k.last().codec)
    }
}

spec fn sum_bkey(k: Seq<CodecStat>, h: Seq<ChunkHead>) -> nat
    decreases k.len(),
{
    if k.len() == 0 {
        0
    } else {
        sum_bkey(k.drop_last(), h) + bytes_key(h, k.last().column_id as int, k.last().codec)
    }
}

spec fn key_is(s: CodecStat, x: ChunkHead) -> bool {
    s.column_id == x.column_id as int && s.codec == x.codec
}

spec fn hits(k: Seq<CodecStat>, x: ChunkHead) -> nat
    decreases k.len(),
{
    if k.len() == 0 {
        0
    } else {
        hits(k.drop_last(), x) + (if key_is(k.last(), x) { 1nat } else { 0nat })
    }
}

spec fn keys_sorted(k: Seq<CodecStat>) -> bool {
    forall|i: int, j: int| #![trigger k[i], k[j]]
        0 <= i < j < k.len() ==> key_lt(k[i].column_id as int, k[i].codec, k[j].column_id as int, k[j].codec)
}

#[verifier::spinoff_prover]
proof fn lemma_hits(k: Seq<CodecStat>, x: ChunkHead)
    requires
        keys_sorted(k),
    ensures
        hits(k, x) == (if exists|i: int| 0 <= i < k.len() && key_is(#[trigger] k[i], x) { 1nat } else { 0nat }),
    decreases k.len(),
{
    if k.len() > 0 {
        let d = k.drop_last();
        assert(keys_sorted(d)) by {
            assert forall|i: int, j: int| #![trigger d[i], d[j]] 0 <= i < j < d.len() implies key_lt(d[i].column_id as int, d[i].codec, d[j].column_id as int, d[j].codec) by {
                assert(d[i] == k[i] && d[j] == k[j]);
            }
        }
        lemma_hits(d, x);
        if key_is(k.last(), x) {
            assert(key_is(k[k.len() - 1], x));
            assert forall|i: int| 0 <= i < d.len() implies !key_is(#[trigger] d[i], x) by {
                assert(d[i] == k[i]);
                assert(key_lt(k[i].column_id as int, k[i].codec, k[k.len() - 1].column_id as int, k[k.len() - 1].codec));
            }
        } else {
            if exists|i: int| 0 <= i < k.len() && key_is(#[trigger] k[i], x) {
                let i = choose|i: int| 0 <= i < k.len() && key_is(#[trigger] k[i], x);
                assert(i < k.len() - 1);
                assert(d[i] == k[i]);
            }
            if exists|i: int| 0 <= i < d.len() && key_is(#[trigger] d[i], x) {
                let i = choose|i: int| 0 <= i < d.len() && key_is(#[trigger] d[i], x);
                assert(d[i] == k[i]);
            }
        }
    }
}

#[verifier::spinoff_prover]
proof fn lemma_sums_push(k: Seq<CodecStat>, h: Seq<ChunkHead>, x: ChunkHead)
    ensures
        sum_count(k, h.push(x)) == sum_count(k, h) + hits(k, x),
        sum_bkey(k, h.push(x)) == sum_bkey(k, h) + hits(k, x) * (x.len as nat),
    decreases k.len(),
{
    assert(h.push(x).drop_last() =~= h);
    if k.len() > 0 {
        lemma_sums_push(k.drop_last(), h, x);
        let kl = k.last();
        assert(bytes_key(h.push(x), kl.column_id as int, kl.codec) == bytes_key(h, kl.column_id as int, kl.codec)
            + (if key_is(kl, x) { x.len as nat } else { 0nat }));
        assert((if key_is(kl, x) { 1nat } else { 0nat }) * (x.len as nat) == (if key_is(kl, x) { x.len as nat } else { 0nat }));
        assert(hits(k, x) * (x.len as nat) == hits(k.drop_last(), x) * (x.len as nat)
            + (if key_is(k.last(), x) { 1nat } else { 0nat }) * (x.len as nat)) by (nonlinear_arith)
            requires
                hits(k, x) == hits(k.drop_last(), x) + (if key_is(k.last(), x) { 1nat } else { 0nat }),
        ;
    }
}

proof fn lemma_sums_empty(k: Seq<CodecStat>)
    ensures
        sum_count(k, Seq::empty()) == 0,
        sum_bkey(k, Seq::empty()) == 0,
    decreases k.len(),
{
    if k.len() > 0 {
        lemma_sums_empty(k.drop_last());
    }
}

#[verifier::spinoff_prover]
proof fn lemma_sums_total(k: Seq<CodecStat>, h: Seq<ChunkHead>)
    requires
        keys_sorted(k),
        forall|m: int| 0 <= m < h.len() ==> exists|i: int| 0 <= i < k.len() && key_is(#[trigger] k[i], #[trigger] h[m]),
    ensures
        sum_count(k, h) == h.len(),
        sum_bkey(k, h) == bytes_all(h),
    decreases h.len(),
{
    if h.len() == 0 {
        lemma_sums_empty(k);
        assert(h =~= Seq::<ChunkHead>::empty());
    } else {
        let d = h.drop_last();
        let x = h.last();
        assert forall|m: int| 0 <= m < d.len() implies exists|i: int| 0 <= i < k.len() && key_is(#[trigger] k[i], #[trigger] d[m]) by {
            assert(d[m] == h[m]);
        }
        lemma_sums_total(k, d);
        assert(h == d.push(x));
        lemma_sums_push(k, d, x);
        assert(h[h.len() - 1] == x);
        lemma_hits(k, x);
    }
}

#[verifier::spinoff_prover]
proof fn lemma_sums_match(st: Seq<CodecStat>, h: Seq<ChunkHead>)
    requires
        forall|i: int| 0 <= i < st.len() ==> (#[trigger] st[i]).chunks == count_key(h, st[i].column_id as int, st[i].codec)
            && st[i].bytes == bytes_key(h, st[i].column_id as int, st[i].codec),
    ensures
        sum_chunks(st) == sum_count(st, h),
        sum_bytes(st) == sum_bkey(st, h),
    decreases st.len(),
{
    if st.len() > 0 {
        let d = st.drop_last();
        assert forall|i: int| 0 <= i < d.len() implies (#[trigger] d[i]).chunks == count_key(h, d[i].column_id as int, d[i].codec)
            && d[i].bytes == bytes_key(h, d[i].column_id as int, d[i].codec) by {
            assert(d[i] == st[i]);
        }
        lemma_sums_match(d, h);
        assert(st[st.len() - 1] == st.last());
    }
}

/// The statistics count every chunk record once: their chunks add up to the
/// number of records read and their bytes to the records' total length.
#[verifier::spinoff_prover]
pub proof fn lemma_stats_totals(stats: Seq<CodecStat>, names: Seq<Seq<char>>, h: Seq<ChunkHead>)
    requires
        stats_describe(stats, names, h),
    ensures
        sum_chunks(stats) == h.len(),
        sum_bytes(stats) == bytes_all(h),
{
    assert forall|i: int| 0 <= i < stats.len() implies (#[trigger] stats[i]).chunks == count_key(h, stats[i].column_id as int, stats[i].codec)
        && stats[i].bytes == bytes_key(h, stats[i].column_id as int, stats[i].codec) by {
    }
    lemma_sums_match(stats, h);
    assert forall|m: int| 0 <= m < h.len() implies exists|i: int| 0 <= i < stats.len() && key_is(#[trigger] stats[i], #[trigger] h[m]) by {
        let i = choose|i: int| 0 <= i < stats.len() && (#[trigger] stats[i]).column_id == (#[trigger] h[m]).column_id && stats[i].codec == h[m].codec;
        assert(key_is(stats[i], h[m]));
    }
    lemma_sums_total(stats, h);
}

/// Counts one more chunk record in the statistics.
fn record_stat(stats: &mut Vec<CodecStat>, columns: &Vec<StoredColumn>, id: u32, codec: ColumnCodec, len: u64, Ghost(h): Ghost<Seq<ChunkHead>>)
    requires
        stats_describe(old(stats)@, names_of(columns@), h),
        bytes_all(h) + len <= u64::MAX,
        h.len() < u64::MAX,
    ensures
        stats_describe(final(stats)@, names_of(columns@), h.push(ChunkHead { column_id: id, codec, len })),
{
    let ghost head = ChunkHead { column_id: id, codec, len };
    let cid = codec_id(codec);
    let mut i: usize = 0;
    while i < stats.len() && (stats[i].column_id < id as usize || (stats[i].column_id == id as usize && codec_id(stats[i].codec) < cid))
        invariant
            0 <= i <= stats@.len(),
            cid == spec_codec_id(codec),
            forall|j: int| 0 <= j < i ==> key_lt((#[trigger] stats@[j]).column_id as int, stats@[j].codec, id as int, codec),
        decreases stats@.len() - i,
    {
        i = i + 1;
    }
    if i < stats.len() && stats[i].column_id == id as usize && stats[i].codec == codec {
        let ghost old_stats = stats@;
        proof {
            lemma_key_bounds(h, id as int, codec);
        }
        let entry = CodecStat {
            column_id: stats[i].column_id,
            column_name: stats[i].column_name.clone(),
            codec: codec,
            chunks: stats[i].chunks + 1,
            bytes: stats[i].bytes + len,
        };
        stats.set(i, entry);
        proof {
            lemma_stats_update(old_stats, stats@, names_of(columns@), h, head, i as int);
        }
    } else {
        let ghost old_stats = stats@;
        let name = label_of(columns, id);
        let entry = CodecStat { column_id: id as usize, column_name: name, codec: codec, chunks: 1, bytes: len };
        proof {
            lemma_stats_insert(old_stats, names_of(columns@), h, head, i as int, entry);
        }
        stats.insert(i, entry);
    }
}

#[verifier::spinoff_prover]
proof fn lemma_bytes_count(h: Seq<ChunkHead>, id: int, codec: ColumnCodec)
    requires
        bytes_key(h, id, codec) > 0,
    ensures
        count_key(h, id, codec) > 0,
    decreases h.len(),
{
    if !(h.last().column_id == id && h.last().codec == codec) {
        lemma_bytes_count(h.drop_last(), id, codec);
    }
}

#[verifier::spinoff_prover]
proof fn lemma_scan_records_error(s: Seq<u8>, pos: int, k: nat, m: nat)
    requires
        k <= m,
        spec_scan_records(s, pos, k) is Err,
    ensures
        spec_scan_records(s, pos, m) == spec_scan_records(s, pos, k),
    decreases m - k,
{
    if k < m {
        lemma_scan_records_error(s, pos, k, (m - 1) as nat);
    }
}

#[verifier::spinoff_prover]
proof fn lemma_scan_blocks_error(s: Seq<u8>, pos: int, ncols: nat, k: nat, m: nat)
    requires
        k <= m,
        spec_scan_blocks(s, pos, ncols, k) is Err,
    ensures
        spec_scan_blocks(s, pos, ncols, m) == spec_scan_blocks(s, pos, ncols, k),
    decreases m - k,
{
    if k < m {
        lemma_scan_blocks_error(s, pos, ncols, k, (m - 1) as nat);
    }
}

/// Scans the records of one block into the statistics.
fn scan_block_records(bytes: &[u8], start: usize, ncols: usize, columns: &Vec<StoredColumn>, stats: &mut Vec<CodecStat>, Ghost(h0): Ghost<Seq<ChunkHead>>) -> (r: Result<(usize, Ghost<Seq<ChunkHead>>), ArchiveError>)
    requires
        stats_describe(old(stats)@, names_of(columns@), h0),
        bytes_all(h0) + 13 * h0.len() <= start,
        start <= bytes@.len(),
    ensures
        match (r, spec_scan_records(bytes@, start as int, ncols as nat)) {
            (Ok((p, x)), Ok((y, q))) => x@ == y && p == q && stats_describe(final(stats)@, names_of(columns@), h0 + y)
                && bytes_all(h0 + y) + 13 * (h0 + y).len() <= p,
            (Err(e1), Err(e2)) => e1 == e2,
            _ => false,
        },
{
    let ghost mut x: Seq<ChunkHead> = Seq::empty();
    let mut pos = start;
    let mut k: usize = 0;
    assert(h0 + x =~= h0);
    while k < ncols
        invariant
            0 <= k <= ncols,
            spec_scan_records(bytes@, start as int, k as nat) == Ok::<(Seq<ChunkHead>, int), ArchiveError>((x, pos as int)),
            stats_describe(stats@, names_of(columns@), h0 + x),
            bytes_all(h0 + x) + 13 * (h0 + x).len() <= pos,
            pos <= bytes@.len(),
        decreases ncols - k,
    {
        let (id, p) = match read_u32(bytes, pos) {
            Ok(v) => v,
            Err(e) => {
                proof { lemma_scan_records_error(bytes@, start as int, (k + 1) as nat, ncols as nat); }
                return Err(e);
            },
        };
        let (cid, q) = match read_u8(bytes, p) {
            Ok(v) => v,
            Err(e) => {
                proof { lemma_scan_records_error(bytes@, start as int, (k + 1) as nat, ncols as nat); }
                return Err(e);
            },
        };
        let codec = match codec_from_id(cid) {
            Ok(c) => c,
            Err(e) => {
                proof { lemma_scan_records_error(bytes@, start as int, (k + 1) as nat, ncols as nat); }
                return Err(e);
            },
        };
        let (len, r) = match read_u64(bytes, q) {
            Ok(v) => v,
            Err(e) => {
                proof { lemma_scan_records_error(bytes@, start as int, (k + 1) as nat, ncols as nat); }
                return Err(e);
            },
        };
        if len > (bytes.len() - r) as u64 {
            proof { lemma_scan_records_error(bytes@, start as int, (k + 1) as nat, ncols as nat); }
            return Err(ArchiveError::UnexpectedEnd);
        }
        let ghost head = ChunkHead { column_id: id, codec, len };
        record_stat(stats, columns, id, codec, len, Ghost(h0 + x));
        proof {
            assert((h0 + x).push(head) =~= h0 + x.push(head));
            assert((h0 + x).push(head).drop_last() =~= h0 + x);
            x = x.push(head);
        }
        pos = r + len as usize;
        k = k + 1;
    }
    Ok((pos, Ghost(x)))
}

/// Per column and codec, the number of chunks and their bytes over all blocks,
/// ordered by column id, then codec id.
pub fn codec_stats(bytes: &[u8]) -> (r: Result<Vec<CodecStat>, ArchiveError>)
    ensures
        match (r, spec_chunk_heads(bytes@)) {
            (Ok(st), Ok((m, h))) => stats_describe(st@, column_names(m), h) && sum_chunks(st@) == h.len()
                && sum_bytes(st@) == bytes_all(h) && h.len() == announced_blocks(bytes@) * m.columns.len(),
            (Err(e1), Err(e2)) => e1 == e2,
            _ => false,
        },
{
    let (table, p) = match read_meta(bytes) {
        Ok(x) => x,
        Err(e) => return Err(e),
    };
    let ghost m = table@;
    assert(names_of(table.columns@) =~= column_names(m));
    let (nb, q) = match read_u32(bytes, p) {
        Ok(x) => x,
        Err(e) => return Err(e),
    };
    let ncols = table.columns.len();
    let mut stats: Vec<CodecStat> = Vec::new();
    let ghost mut h: Seq<ChunkHead> = Seq::empty();
    let mut pos = q;
    let mut b: u32 = 0;
    while b < nb
        invariant
            0 <= b <= nb,
            ncols == m.columns.len(),
            m == table@,
            names_of(table.columns@) == column_names(m),
            spec_read_meta(bytes@) == Ok::<(TableV, int), ArchiveError>((m, p as int)),
            spec_read_u32(bytes@, p as int) == Ok::<(u32, int), ArchiveError>((nb, q as int)),
            spec_scan_blocks(bytes@, q as int, ncols as nat, b as nat) == Ok::<(Seq<ChunkHead>, int), ArchiveError>((h, pos as int)),
            stats_describe(stats@, column_names(m), h),
            bytes_all(h) + 13 * h.len() <= pos,
            pos <= bytes@.len(),
        decreases nb - b,
    {
        let (_rows, p2) = match read_u32(bytes, pos) {
            Ok(x) => x,
            Err(e) => {
                proof { lemma_scan_blocks_error(bytes@, q as int, ncols as nat, (b + 1) as nat, nb as nat); }
                return Err(e);
            },
        };
        match scan_block_records(bytes, p2, ncols, &table.columns, &mut stats, Ghost(h)) {
            Ok((np, gx)) => {
                proof {
                    h = h + gx@;
                }
                pos = np;
            },
            Err(e) => {
                proof { lemma_scan_blocks_error(bytes@, q as int, ncols as nat, (b + 1) as nat, nb as nat); }
                return Err(e);
            },
        }
        b = b + 1;
    }
    proof {
        lemma_stats_totals(stats@, column_names(m), h);
        lemma_scan_blocks_len(bytes@, q as int, ncols as nat, nb as nat);
    }
    Ok(stats)
}

} // verus!
