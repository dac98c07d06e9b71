//! Reading a payload gives back the table it was written from.
use vstd::prelude::*;
use vstd::bytes::{spec_u32_to_le_bytes, spec_u64_to_le_bytes};
use vstd::utf8::encode_utf8;
use crate::error::ArchiveError;
use crate::formats::table::{CellV, ColumnV, TableV, LineEnding};
use crate::column::types::ColumnCodec;
use crate::column::cells::cells_fit;
use crate::column::chunk::{spec_codec_id, spec_codec_from_id, spec_encode_chunk, spec_choose_codec, lemma_chunk_roundtrip, lemma_choice_admissible};
use crate::column::rlechunk::rle_exact;
use crate::column::packchunks::{strings_fields, lemma_read_strings_of};
use crate::column::payload::{spec_chunk_heads, announced_blocks, meta_bytes, column_names, empty_columns, spec_read_meta, spec_format_id, spec_format_from_id, block_total, block_start, block_end, chunk_record, block_records, block_bytes, blocks_bytes, spec_encode_table, spec_read_chunk, spec_read_chunks, spec_read_block, spec_read_blocks, spec_decode_table, with_values, no_values};
use crate::wire::{lemma_le_lengths, lemma_read_u32_of, lemma_read_u64_of, lemma_read_u8_of, lemma_sub_prefix};

verus! {

/// A table that the payload can hold: every column has exactly `row_count`
/// values, the column and block counts fit their `u32` fields, every string
/// fits its length field, and no block whose codec is run-length coding has
/// two neighbouring values that compare equal without being identical (which
/// that coding would merge).
pub open spec fn table_writable(t: TableV) -> bool {
    &&& t.columns.len() <= u32::MAX
    &&& block_total(t.row_count as nat) <= u32::MAX
    &&& forall|j: int| 0 <= j < t.columns.len() ==> (#[trigger] t.columns[j]).values.len() == t.row_count
    &&& forall|j: int| 0 <= j < t.columns.len() ==> cells_fit((#[trigger] t.columns[j]).values)
    &&& forall|j: int| 0 <= j < t.columns.len() ==> rle_blocks_exact((#[trigger] t.columns[j]).values, t.row_count as nat)
    &&& forall|j: int| 0 <= j < t.columns.len() ==> encode_utf8((#[trigger] t.columns[j]).name).len() <= u64::MAX
}

/// Each block of the column that run-length coding is chosen for has no two
/// neighbours that compare equal without being identical.
pub open spec fn rle_blocks_exact(v: Seq<Option<CellV>>, rows: nat) -> bool {
    forall|b: nat| b < block_total(rows)
        && #[trigger] spec_choose_codec(v.subrange(block_start(b), block_end(b, rows))) == ColumnCodec::Rle
        ==> rle_exact(v.subrange(block_start(b), block_end(b, rows)))
}

#[verifier::spinoff_prover]
proof fn lemma_codec_ids(c: ColumnCodec)
    ensures
        spec_codec_from_id(spec_codec_id(c)) == Ok::<ColumnCodec, ArchiveError>(c),
{
}

#[verifier::spinoff_prover]
proof fn lemma_format_ids(t: TableV)
    ensures
        spec_format_from_id(spec_format_id(t.format)) == Ok::<crate::header::InputFormat, ArchiveError>(t.format),
{
}

/// Reading one chunk record appends the slice it was made from to its column.
#[verifier::spinoff_prover]
proof fn lemma_read_record(s: Seq<u8>, pos: int, cols: Seq<Seq<Option<CellV>>>, v: Seq<Option<CellV>>, j: nat)
    requires
        chunk_record(v, j) is Ok,
        0 <= pos,
        pos + chunk_record(v, j)->Ok_0.len() <= s.len(),
        s.len() <= u64::MAX,
        s.subrange(pos, pos + chunk_record(v, j)->Ok_0.len()) == chunk_record(v, j)->Ok_0,
        j < cols.len(),
        j <= u32::MAX,
        v.len() <= u32::MAX,
        cells_fit(v),
        spec_choose_codec(v) == ColumnCodec::Rle ==> rle_exact(v),
    ensures
        spec_read_chunk(s, pos, v.len(), cols) == Ok::<(Seq<Seq<Option<CellV>>>, int), ArchiveError>(
            (cols.update(j as int, cols[j as int] + v), pos + chunk_record(v, j)->Ok_0.len()),
        ),
{
    let c = spec_choose_codec(v);
    let b = spec_encode_chunk(v, c)->Ok_0;
    let h = spec_u32_to_le_bytes(j as u32);
    let l = spec_u64_to_le_bytes(b.len() as u64);
    let rec = chunk_record(v, j)->Ok_0;
    lemma_le_lengths(j as u32, b.len() as u64);
    let one = seq![spec_codec_id(c)];
    assert(rec =~= h + (one + (l + b)));
    lemma_sub_prefix(s, pos, h, one + (l + b));
    lemma_read_u32_of(s, pos, j as u32);
    lemma_sub_prefix(s, pos + 4, one, l + b);
    assert(s[pos + 4] == one[0]) by {
        assert(s.subrange(pos + 4, pos + 5)[0] == one[0]);
    }
    lemma_read_u8_of(s, pos + 4, spec_codec_id(c));
    lemma_codec_ids(c);
    lemma_sub_prefix(s, pos + 5, l, b);
    lemma_read_u64_of(s, pos + 5, b.len() as u64);
    lemma_choice_admissible(v);
    crate::codecs::dict::lemma_first_occurrences(crate::column::presence::string_values(v));
    crate::column::packchunks::lemma_string_values_len(v);
    lemma_chunk_roundtrip(v, c);
}

/// Every prefix of the records that were made is made too, and lies at the
/// start of the whole.
#[verifier::spinoff_prover]
proof fn lemma_records_prefix(cols: Seq<ColumnV>, start: int, end: int, k: nat, m: nat)
    requires
        k <= m,
        block_records(cols, start, end, m) is Ok,
    ensures
        block_records(cols, start, end, k) is Ok,
        block_records(cols, start, end, m)->Ok_0.subrange(0, block_records(cols, start, end, k)->Ok_0.len() as int)
            == block_records(cols, start, end, k)->Ok_0,
        block_records(cols, start, end, k)->Ok_0.len() <= block_records(cols, start, end, m)->Ok_0.len(),
    decreases m - k,
{
    if k < m {
        lemma_records_prefix(cols, start, end, k, (m - 1) as nat);
        let a = block_records(cols, start, end, (m - 1) as nat)->Ok_0;
        let r = chunk_record(cols[m - 1].values.subrange(start, end), (m - 1) as nat)->Ok_0;
        let kk = block_records(cols, start, end, k)->Ok_0;
        assert(block_records(cols, start, end, m)->Ok_0 == a + r);
        assert((a + r).subrange(0, kk.len() as int) =~= a.subrange(0, kk.len() as int));
    } else {
        let w = block_records(cols, start, end, m)->Ok_0;
        assert(w.subrange(0, w.len() as int) =~= w);
    }
}

/// The columns after the records of the first `k` columns for rows `start .. end`.
pub open spec fn extended(cols: Seq<Seq<Option<CellV>>>, t: TableV, start: int, end: int, k: nat) -> Seq<Seq<Option<CellV>>> {
    Seq::new(
        cols.len(),
        |j: int| if j < k { cols[j] + t.columns[j].values.subrange(start, end) } else { cols[j] },
    )
}

/// Reading the records of a block appends each column's rows to it.
#[verifier::spinoff_prover]
#[verifier::rlimit(50)]
proof fn lemma_read_records(s: Seq<u8>, pos: int, t: TableV, start: int, end: int, cols: Seq<Seq<Option<CellV>>>, k: nat)
    requires
        table_writable(t),
        0 <= start <= end <= t.row_count,
        end - start <= 16384,
        cols.len() == t.columns.len(),
        k <= t.columns.len(),
        block_records(t.columns, start, end, k) is Ok,
        0 <= pos,
        s.len() <= u64::MAX,
        pos + block_records(t.columns, start, end, k)->Ok_0.len() <= s.len(),
        s.subrange(pos, pos + block_records(t.columns, start, end, k)->Ok_0.len())
            == block_records(t.columns, start, end, k)->Ok_0,
        forall|j: int| 0 <= j < t.columns.len()
            && #[trigger] spec_choose_codec(t.columns[j].values.subrange(start, end)) == ColumnCodec::Rle
            ==> rle_exact(t.columns[j].values.subrange(start, end)),
    ensures
        spec_read_chunks(s, pos, (end - start) as nat, cols, k) == Ok::<(Seq<Seq<Option<CellV>>>, int), ArchiveError>(
            (extended(cols, t, start, end, k), pos + block_records(t.columns, start, end, k)->Ok_0.len()),
        ),
    decreases k,
{
    if k == 0 {
        assert(extended(cols, t, start, end, 0) =~= cols);
    } else {
        let a = block_records(t.columns, start, end, (k - 1) as nat)->Ok_0;
        let v = t.columns[k - 1].values.subrange(start, end);
        let r = chunk_record(v, (k - 1) as nat)->Ok_0;
        assert(block_records(t.columns, start, end, k)->Ok_0 == a + r);
        lemma_sub_prefix(s, pos, a, r);
        lemma_read_records(s, pos, t, start, end, cols, (k - 1) as nat);
        let before = extended(cols, t, start, end, (k - 1) as nat);
        assert(t.columns[k - 1].values.len() == t.row_count);
        assert(cells_fit(v)) by {
            assert(cells_fit(t.columns[k - 1].values));
            assert forall|i: int| 0 <= i < v.len() implies (#[trigger] v[i] matches Some(c) ==> crate::column::cells::cell_fits(c)) by {
                assert(v[i] == t.columns[k - 1].values[start + i]);
            }
        }
        assert(spec_choose_codec(v) == ColumnCodec::Rle ==> rle_exact(v));
        lemma_read_record(s, pos + a.len(), before, v, (k - 1) as nat);
        assert(before.update(k - 1, before[k - 1] + v) =~= extended(cols, t, start, end, k));
    }
}

/// The rows that the first `k` blocks hold.
pub open spec fn rows_upto(k: nat, rows: nat) -> int {
    if k == 0 {
        0
    } else {
        block_end((k - 1) as nat, rows)
    }
}

/// The values of the first `k` blocks of each column.
pub open spec fn prefix_values(t: TableV, k: nat) -> Seq<Seq<Option<CellV>>> {
    Seq::new(t.columns.len(), |j: int| t.columns[j].values.subrange(0, rows_upto(k, t.row_count as nat)))
}

/// The blocks cover the rows in order: block `k` starts where the first `k`
/// end, and all of them end at the last row.
#[verifier::spinoff_prover]
proof fn lemma_block_bounds(rows: nat, k: nat)
    requires
        k < block_total(rows),
    ensures
        block_start(k) == rows_upto(k, rows),
        0 <= block_start(k) <= block_end(k, rows) <= rows,
        block_end(k, rows) - block_start(k) <= 16384,
        rows_upto(k + 1, rows) == block_end(k, rows),
        k + 1 == block_total(rows) ==> block_end(k, rows) == rows,
{
    let nb = block_total(rows);
    if rows > 0 {
        assert(nb == (rows + 16383) / 16384);
        assert((nb - 1) * 16384 < rows && rows <= nb * 16384) by (nonlinear_arith)
            requires
                nb == (rows + 16383) / 16384,
                rows > 0,
        ;
        assert(k * 16384 <= (nb - 1) * 16384) by (nonlinear_arith)
            requires
                k < nb,
        ;
        if k + 1 == nb {
            assert(rows - k * 16384 <= 16384);
        }
        if k > 0 {
            assert((k - 1) * 16384 + 16384 == k * 16384);
        }
    }
}

/// The blocks of a table that was written, and their prefixes.
#[verifier::spinoff_prover]
proof fn lemma_blocks_prefix(t: TableV, k: nat, m: nat)
    requires
        k <= m,
        blocks_bytes(t, m) is Ok,
    ensures
        blocks_bytes(t, k) is Ok,
        blocks_bytes(t, m)->Ok_0.subrange(0, blocks_bytes(t, k)->Ok_0.len() as int) == blocks_bytes(t, k)->Ok_0,
        blocks_bytes(t, k)->Ok_0.len() <= blocks_bytes(t, m)->Ok_0.len(),
    decreases m - k,
{
    if k < m {
        lemma_blocks_prefix(t, k, (m - 1) as nat);
        let a = blocks_bytes(t, (m - 1) as nat)->Ok_0;
        let r = block_bytes(t, (m - 1) as nat)->Ok_0;
        let kk = blocks_bytes(t, k)->Ok_0;
        assert(blocks_bytes(t, m)->Ok_0 == a + r);
        assert((a + r).subrange(0, kk.len() as int) =~= a.subrange(0, kk.len() as int));
    } else {
        let w = blocks_bytes(t, m)->Ok_0;
        assert(w.subrange(0, w.len() as int) =~= w);
    }
}

/// Appending block `b`'s rows to the first `b` blocks' rows gives the first `b + 1`.
#[verifier::spinoff_prover]
proof fn lemma_extend_prefix(t: TableV, b: nat)
    requires
        table_writable(t),
        b < block_total(t.row_count as nat),
    ensures
        extended(prefix_values(t, b), t, block_start(b), block_end(b, t.row_count as nat), t.columns.len())
            == prefix_values(t, b + 1),
{
    lemma_block_bounds(t.row_count as nat, b);
    let n = t.columns.len();
    let start = block_start(b);
    let end = block_end(b, t.row_count as nat);
    let cols = prefix_values(t, b);
    assert forall|j: int| 0 <= j < n implies #[trigger] extended(cols, t, start, end, n)[j] == prefix_values(t, b + 1)[j] by {
        let vals = t.columns[j].values;
        assert(vals.len() == t.row_count);
        assert(vals.subrange(0, start) + vals.subrange(start, end) =~= vals.subrange(0, end));
    }
    assert(extended(cols, t, start, end, n) =~= prefix_values(t, b + 1));
}

/// Reading block `b` after the first `b` blocks gives the first `b + 1`.
#[verifier::spinoff_prover]
proof fn lemma_read_block_of(s: Seq<u8>, p: int, t: TableV, b: nat)
    requires
        table_writable(t),
        b < block_total(t.row_count as nat),
        block_bytes(t, b) is Ok,
        0 <= p,
        s.len() <= u64::MAX,
        p + block_bytes(t, b)->Ok_0.len() <= s.len(),
        s.subrange(p, p + block_bytes(t, b)->Ok_0.len()) == block_bytes(t, b)->Ok_0,
    ensures
        spec_read_block(s, p, prefix_values(t, b)) == Ok::<(Seq<Seq<Option<CellV>>>, int), ArchiveError>(
            (prefix_values(t, b + 1), p + block_bytes(t, b)->Ok_0.len()),
        ),
{
    let n = t.columns.len();
    lemma_block_bounds(t.row_count as nat, b);
    let start = block_start(b);
    let end = block_end(b, t.row_count as nat);
    let blk = block_bytes(t, b)->Ok_0;
    let recs = block_records(t.columns, start, end, n)->Ok_0;
    let rowsb = spec_u32_to_le_bytes((end - start) as u32);
    lemma_le_lengths((end - start) as u32, 0);
    assert(blk == rowsb + recs);
    lemma_sub_prefix(s, p, rowsb, recs);
    lemma_read_u32_of(s, p, (end - start) as u32);
    let cols = prefix_values(t, b);
    assert forall|j: int| 0 <= j < t.columns.len()
        && #[trigger] spec_choose_codec(t.columns[j].values.subrange(start, end)) == ColumnCodec::Rle
        implies rle_exact(t.columns[j].values.subrange(start, end)) by {
        assert(rle_blocks_exact(t.columns[j].values, t.row_count as nat));
    }
    lemma_read_records(s, p + 4, t, start, end, cols, n);
    lemma_extend_prefix(t, b);
}

/// Reading the first `k` blocks gives the first rows of every column.
#[verifier::spinoff_prover]
proof fn lemma_read_blocks_of(s: Seq<u8>, q: int, t: TableV, k: nat)
    requires
        table_writable(t),
        k <= block_total(t.row_count as nat),
        blocks_bytes(t, k) is Ok,
        0 <= q,
        s.len() <= u64::MAX,
        q + blocks_bytes(t, k)->Ok_0.len() <= s.len(),
        s.subrange(q, q + blocks_bytes(t, k)->Ok_0.len()) == blocks_bytes(t, k)->Ok_0,
    ensures
        spec_read_blocks(s, q, no_values(t.columns.len()), k) == Ok::<(Seq<Seq<Option<CellV>>>, int), ArchiveError>(
            (prefix_values(t, k), q + blocks_bytes(t, k)->Ok_0.len()),
        ),
    decreases k,
{
    let n = t.columns.len();
    if k == 0 {
        assert(prefix_values(t, 0) =~= no_values(n)) by {
            assert forall|j: int| 0 <= j < n implies #[trigger] prefix_values(t, 0)[j] == no_values(n)[j] by {
                assert(t.columns[j].values.subrange(0, 0) =~= Seq::<Option<CellV>>::empty());
            }
        }
    } else {
        let b = (k - 1) as nat;
        let a = blocks_bytes(t, b)->Ok_0;
        let blk = block_bytes(t, b)->Ok_0;
        assert(blocks_bytes(t, k)->Ok_0 == a + blk);
        lemma_sub_prefix(s, q, a, blk);
        lemma_read_blocks_of(s, q, t, b);
        lemma_read_block_of(s, q + a.len(), t, b);
    }
}

/// Reading the metadata of a table gives its fields and names.
#[verifier::rlimit(80)]
#[verifier::spinoff_prover]
proof fn lemma_read_meta_of(s: Seq<u8>, t: TableV)
    requires
        table_writable(t),
        meta_bytes(t).len() <= s.len(),
        s.subrange(0, meta_bytes(t).len() as int) == meta_bytes(t),
    ensures
        spec_read_meta(s) == Ok::<(TableV, int), ArchiveError>(
            (TableV { columns: empty_columns(column_names(t)), ..t }, meta_bytes(t).len() as int),
        ),
{
    let f = seq![spec_format_id(t.format)];
    let d = match t.delimiter {
        Some(x) => seq![1u8, x],
        None => seq![0u8],
    };
    let tn = seq![if t.trailing_newline { 1u8 } else { 0u8 }];
    let le = seq![
        match t.line_ending {
            LineEnding::Lf => 0u8,
            LineEnding::CrLf => 1u8,
        },
    ];
    let rc = spec_u64_to_le_bytes(t.row_count as u64);
    let cc = spec_u32_to_le_bytes(t.columns.len() as u32);
    let names = strings_fields(column_names(t));
    lemma_le_lengths(t.columns.len() as u32, t.row_count as u64);
    let m = meta_bytes(t);
    assert(m =~= f + (d + (tn + (le + (rc + (cc + names))))));
    lemma_sub_prefix(s, 0, f, d + (tn + (le + (rc + (cc + names)))));
    assert(s[0] == f[0]) by {
        assert(s.subrange(0, 1)[0] == f[0]);
    }
    lemma_format_ids(t);
    lemma_sub_prefix(s, 1, d, tn + (le + (rc + (cc + names))));
    assert(s[1] == d[0]) by {
        assert(s.subrange(1, 1 + d.len() as int)[0] == d[0]);
    }
    if t.delimiter is Some {
        assert(s[2] == d[1]) by {
            assert(s.subrange(1, 1 + d.len() as int)[1] == d[1]);
        }
    }
    let p2: int = 1 + d.len() as int;
    lemma_sub_prefix(s, p2, tn, le + (rc + (cc + names)));
    assert(s[p2] == tn[0]) by {
        assert(s.subrange(p2, p2 + 1)[0] == tn[0]);
    }
    lemma_sub_prefix(s, p2 + 1, le, rc + (cc + names));
    assert(s[p2 + 1] == le[0]) by {
        assert(s.subrange(p2 + 1, p2 + 2)[0] == le[0]);
    }
    let p4: int = p2 + 2;
    lemma_sub_prefix(s, p4, rc, cc + names);
    lemma_read_u64_of(s, p4, t.row_count as u64);
    lemma_sub_prefix(s, p4 + 8, cc, names);
    lemma_read_u32_of(s, p4 + 8, t.columns.len() as u32);
    assert forall|k: int| 0 <= k < column_names(t).len() implies (#[trigger] encode_utf8(column_names(t)[k])).len() <= u64::MAX by {
        assert(column_names(t)[k] == t.columns[k].name);
    }
    lemma_read_strings_of(s, p4 + 12, column_names(t));
    assert(((t.row_count as u64) as usize) == t.row_count);
    assert((if t.trailing_newline { 1u8 } else { 0u8 }) != 0 <==> t.trailing_newline);
}

/// Decoding the payload written for a table gives the table back: the same
/// format, delimiter, line ending, row count and trailing newline, and the
/// same column names with the same values, whichever codec each block chose.
#[verifier::spinoff_prover]
pub proof fn lemma_table_roundtrip(t: TableV)
    requires
        table_writable(t),
        spec_encode_table(t) is Ok,
        spec_encode_table(t)->Ok_0.len() <= u64::MAX,
    ensures
        spec_decode_table(spec_encode_table(t)->Ok_0) == Ok::<TableV, ArchiveError>(t),
{
    let s = spec_encode_table(t)->Ok_0;
    let nb = block_total(t.row_count as nat);
    let m = meta_bytes(t);
    let c = spec_u32_to_le_bytes(nb as u32);
    let bl = blocks_bytes(t, nb)->Ok_0;
    lemma_le_lengths(nb as u32, 0);
    assert(s =~= m + (c + bl));
    assert(s.subrange(0, s.len() as int) =~= s);
    lemma_sub_prefix(s, 0, m, c + bl);
    lemma_read_meta_of(s, t);
    lemma_sub_prefix(s, m.len() as int, c, bl);
    lemma_read_u32_of(s, m.len() as int, nb as u32);
    let q = m.len() as int + 4;
    lemma_read_blocks_of(s, q, t, nb);
    lemma_block_bounds(t.row_count as nat, (nb - 1) as nat);
    let meta = TableV { columns: empty_columns(column_names(t)), ..t };
    assert(with_values(meta, prefix_values(t, nb)) =~= t) by {
        assert(with_values(meta, prefix_values(t, nb)).columns =~= t.columns) by {
            assert forall|j: int| 0 <= j < t.columns.len() implies #[trigger] with_values(meta, prefix_values(t, nb)).columns[j] == t.columns[j] by {
                assert(t.columns[j].values.len() == t.row_count);
                assert(t.columns[j].values.subrange(0, t.row_count as int) =~= t.columns[j].values);
            }
        }
    }
}

/// The payload of a table is walked as one chunk head per column per block:
/// its codec statistics count the table's columns times the announced blocks.
#[verifier::spinoff_prover]
pub proof fn lemma_encoded_table_heads(t: TableV)
    requires
        table_writable(t),
        spec_encode_table(t) is Ok,
        spec_encode_table(t)->Ok_0.len() <= u64::MAX,
    ensures
        spec_chunk_heads(spec_encode_table(t)->Ok_0) is Ok,
        spec_chunk_heads(spec_encode_table(t)->Ok_0)->Ok_0.0.columns.len() == t.columns.len(),
        spec_chunk_heads(spec_encode_table(t)->Ok_0)->Ok_0.1.len()
            == announced_blocks(spec_encode_table(t)->Ok_0) * t.columns.len(),
{
    let s = spec_encode_table(t)->Ok_0;
    lemma_table_roundtrip(t);
    crate::column::payload::lemma_decoded_payload_scans(s);
    let (m, p) = spec_read_meta(s)->Ok_0;
    let (nb, q) = crate::wire::spec_read_u32(s, p)->Ok_0;
    assert(with_values(m, spec_read_blocks(s, q, no_values(m.columns.len()), nb as nat)->Ok_0.0).columns.len() == m.columns.len());
    crate::column::payload::lemma_scan_blocks_len(s, q, m.columns.len(), nb as nat);
}

} // verus!
