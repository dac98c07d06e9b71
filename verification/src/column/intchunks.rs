//! Integer column chunks: delta, delta-of-delta, bit-packed and
//! frame-of-reference, each behind a presence bitmap.
//!
//! The arithmetic of these chunks wraps around at the `i64` range, so every
//! sequence of integers is coded and decoded exactly.
use vstd::prelude::*;
use vstd::bytes::spec_u64_to_le_bytes;
use crate::error::ArchiveError;
use crate::formats::table::{Cell, CellV};
use crate::codecs::zigzag::{spec_zigzag, spec_unzigzag, zigzag_i64, unzigzag_u64, lemma_unzigzag_zigzag};
use crate::column::cells::cells_view;
use crate::column::presence::{
    present_flags, spec_presence_bytes, spec_fill, int_values, all_present_integers,
    integer_cells, presence_bitmap, fill_integers, lemma_fill_present, lemma_int_values_present,
};
use crate::wire::{
    spec_read_bytes, spec_read_u64, spec_read_varint, spec_varint_bytes, spec_bytes_field,
    write_bytes, write_u64, write_varint, read_bytes, read_u64, read_varint, lemma_read_varint_of,
    lemma_read_bytes_of, lemma_read_u64_of, lemma_le_lengths,
};

verus! {

/// The first value, then the wrapping difference of each value and the one before it.
pub open spec fn wdeltas(v: Seq<i64>) -> Seq<i64> {
    Seq::new(v.len(), |i: int| if i == 0 { v[0] } else { v[i].wrapping_sub(v[i - 1]) })
}

/// The wrapping running sums.
pub open spec fn wsums(e: Seq<i64>) -> Seq<i64>
    decreases e.len(),
{
    if e.len() == 0 {
        Seq::empty()
    } else {
        let r = wsums(e.drop_last());
        r.push(if e.len() == 1 { e[0] } else { r.last().wrapping_add(e.last()) })
    }
}

/// The terms of a delta-of-delta chunk: the first value, the first
/// difference, then the change of each difference from the one before it.
pub open spec fn delta2_terms(v: Seq<i64>) -> Seq<i64> {
    if v.len() == 0 {
        Seq::empty()
    } else {
        seq![v[0]] + wdeltas(wdeltas(v).drop_first())
    }
}

/// The values that delta-of-delta terms stand for.
pub open spec fn undo_delta2(e: Seq<i64>) -> Seq<i64> {
    if e.len() == 0 {
        Seq::empty()
    } else {
        wsums(seq![e[0]] + wsums(e.drop_first()))
    }
}

/// Each integer as the varint of its zigzag image.
pub open spec fn zz_varints(x: Seq<i64>) -> Seq<u8>
    decreases x.len(),
{
    if x.len() == 0 {
        Seq::empty()
    } else {
        zz_varints(x.drop_last()) + spec_varint_bytes(spec_zigzag(x.last()))
    }
}

/// Reads `n` zigzag varints from `pos` on.
pub open spec fn spec_read_zz_varints(s: Seq<u8>, pos: int, n: nat) -> Result<(Seq<i64>, int), ArchiveError>
    decreases n,
{
    if n == 0 {
        Ok((Seq::empty(), pos))
    } else {
        match spec_read_zz_varints(s, pos, (n - 1) as nat) {
            Err(e) => Err(e),
            Ok((xs, p)) => match spec_read_varint(s, p) {
                Err(e) => Err(e),
                Ok((u, q)) => Ok((xs.push(spec_unzigzag(u)), q)),
            },
        }
    }
}

/// The bytes of a delta chunk of a slice whose present values are integers.
pub open spec fn delta_chunk(v: Seq<Option<CellV>>) -> Seq<u8> {
    let ints = int_values(v);
    spec_bytes_field(spec_presence_bytes(present_flags(v))) + spec_u64_to_le_bytes(ints.len() as u64)
        + zz_varints(wdeltas(ints))
}

/// The bytes of a delta-of-delta chunk of a slice whose present values are integers.
pub open spec fn delta2_chunk(v: Seq<Option<CellV>>) -> Seq<u8> {
    let ints = int_values(v);
    spec_bytes_field(spec_presence_bytes(present_flags(v))) + spec_u64_to_le_bytes(ints.len() as u64)
        + zz_varints(delta2_terms(ints))
}

/// Reads the bitmap, the count and the zigzag varints of a delta or
/// delta-of-delta chunk.
pub open spec fn spec_read_varint_chunk(s: Seq<u8>) -> Result<(Seq<u8>, Seq<i64>), ArchiveError> {
    match spec_read_bytes(s, 0) {
        Err(e) => Err(e),
        Ok((present, p)) => match spec_read_u64(s, p) {
            Err(e) => Err(e),
            Ok((count, q)) => match spec_read_zz_varints(s, q, count as nat) {
                Err(e) => Err(e),
                Ok((terms, _)) => Ok((present, terms)),
            },
        },
    }
}

/// Decodes a delta chunk into `n` rows.
pub open spec fn spec_decode_delta(s: Seq<u8>, n: nat) -> Result<Seq<Option<CellV>>, ArchiveError> {
    match spec_read_varint_chunk(s) {
        Err(e) => Err(e),
        Ok((present, terms)) => Ok(spec_fill(present, n, integer_cells(wsums(terms)))),
    }
}

/// Decodes a delta-of-delta chunk into `n` rows.
pub open spec fn spec_decode_delta2(s: Seq<u8>, n: nat) -> Result<Seq<Option<CellV>>, ArchiveError> {
    match spec_read_varint_chunk(s) {
        Err(e) => Err(e),
        Ok((present, terms)) => Ok(spec_fill(present, n, integer_cells(undo_delta2(terms)))),
    }
}

/// The integers of a slice whose present values are all integers.
pub fn integer_values(values: &[Option<Cell>]) -> (r: Result<Vec<i64>, ArchiveError>)
    ensures
        match r {
            Ok(x) => all_present_integers(cells_view(values@)) && x@ == int_values(cells_view(values@)),
            Err(e) => !all_present_integers(cells_view(values@)) && e == ArchiveError::NonIntegerValue,
        },
{
    let ghost v = cells_view(values@);
    let mut out: Vec<i64> = Vec::new();
    let mut i: usize = 0;
    while i < values.len()
        invariant
            0 <= i <= values.len(),
            v == cells_view(values@),
            all_present_integers(v.take(i as int)),
            out@ == int_values(v.take(i as int)),
        decreases values.len() - i,
    {
        assert(v.take(i + 1).drop_last() =~= v.take(i as int));
        assert(v[i as int] == values@[i as int].deep_view());
        match &values[i] {
            None => {},
            Some(Cell::Integer(x)) => {
                out.push(*x);
            },
            Some(_) => {
                assert(!(v[i as int] matches Some(c) ==> c is Integer));
                assert(!all_present_integers(v)) by {
                    assert(0 <= i < v.len());
                }
                return Err(ArchiveError::NonIntegerValue);
            },
        }
        i = i + 1;
        assert(all_present_integers(v.take(i as int))) by {
            assert forall|k: int| 0 <= k < v.take(i as int).len() implies (#[trigger] v.take(i as int)[k] matches Some(c) ==> c is Integer) by {
                if k < i - 1 {
                    assert(v.take(i as int)[k] == v.take(i - 1)[k]);
                }
            }
        }
    }
    assert(v.take(values.len() as int) =~= v);
    Ok(out)
}

/// The wrapping differences of consecutive values.
pub fn wrapping_deltas(v: &[i64]) -> (out: Vec<i64>)
    ensures
        out@ == wdeltas(v@),
{
    let mut out: Vec<i64> = Vec::new();
    let mut i: usize = 0;
    while i < v.len()
        invariant
            0 <= i <= v.len(),
            out@ == wdeltas(v@).take(i as int),
        decreases v.len() - i,
    {
        if i == 0 {
            out.push(v[0]);
        } else {
            out.push(v[i].wrapping_sub(v[i - 1]));
        }
        i = i + 1;
        assert(out@ =~= wdeltas(v@).take(i as int));
    }
    assert(out@ =~= wdeltas(v@));
    out
}

/// The wrapping running sums.
pub fn wrapping_sums(e: &[i64]) -> (out: Vec<i64>)
    ensures
        out@ == wsums(e@),
{
    let mut out: Vec<i64> = Vec::new();
    let mut acc: i64 = 0;
    let mut i: usize = 0;
    while i < e.len()
        invariant
            0 <= i <= e.len(),
            out@ == wsums(e@.take(i as int)),
            i > 0 ==> acc == out@.last(),
        decreases e.len() - i,
    {
        assert(e@.take(i + 1).drop_last() =~= e@.take(i as int));
        if i == 0 {
            acc = e[0];
        } else {
            acc = acc.wrapping_add(e[i]);
        }
        out.push(acc);
        i = i + 1;
    }
    assert(e@.take(e.len() as int) =~= e@);
    out
}

/// Appends the zigzag varint of each integer.
pub fn write_zz_varints(out: &mut Vec<u8>, x: &[i64])
    ensures
        final(out)@ == old(out)@ + zz_varints(x@),
{
    let mut i: usize = 0;
    while i < x.len()
        invariant
            0 <= i <= x.len(),
            out@ == old(out)@ + zz_varints(x@.take(i as int)),
        decreases x.len() - i,
    {
        assert(x@.take(i + 1).drop_last() =~= x@.take(i as int));
        write_varint(out, zigzag_i64(x[i]));
        i = i + 1;
        assert(out@ =~= old(out)@ + zz_varints(x@.take(i as int)));
    }
    assert(x@.take(x.len() as int) =~= x@);
}

#[verifier::spinoff_prover]
proof fn lemma_zz_error_persists(s: Seq<u8>, pos: int, n: nat, m: nat)
    requires
        n <= m,
        spec_read_zz_varints(s, pos, n) is Err,
    ensures
        spec_read_zz_varints(s, pos, m) == spec_read_zz_varints(s, pos, n),
    decreases m - n,
{
    if n < m {
        lemma_zz_error_persists(s, pos, n, (m - 1) as nat);
    }
}

/// Reads `n` zigzag varints from `pos` on.
pub fn read_zz_varints(s: &[u8], pos: usize, n: u64) -> (r: Result<(Vec<i64>, usize), ArchiveError>)
    ensures
        match (r, spec_read_zz_varints(s@, pos as int, n as nat)) {
            (Ok((x, p)), Ok((y, q))) => x@ == y && p == q,
            (Err(e1), Err(e2)) => e1 == e2,
            _ => false,
        },
{
    let mut out: Vec<i64> = Vec::new();
    let mut p = pos;
    let mut i: u64 = 0;
    while i < n
        invariant
            0 <= i <= n,
            spec_read_zz_varints(s@, pos as int, i as nat) == Ok::<(Seq<i64>, int), ArchiveError>((out@, p as int)),
        decreases n - i,
    {
        match read_varint(s, p) {
            Ok((u, q)) => {
                out.push(unzigzag_u64(u));
                p = q;
            },
            Err(e) => {
                proof {
                    lemma_zz_error_persists(s@, pos as int, (i + 1) as nat, n as nat);
                }
                return Err(e);
            },
        }
        i = i + 1;
    }
    Ok((out, p))
}

/// Reads the bitmap, the count and the terms of a delta or delta-of-delta chunk.
fn read_varint_chunk(s: &[u8]) -> (r: Result<(Vec<u8>, Vec<i64>), ArchiveError>)
    ensures
        match (r, spec_read_varint_chunk(s@)) {
            (Ok((a, b)), Ok((c, d))) => a@ == c && b@ == d,
            (Err(e1), Err(e2)) => e1 == e2,
            _ => false,
        },
{
    let (present, p) = match read_bytes(s, 0) {
        Ok(x) => x,
        Err(e) => return Err(e),
    };
    let (count, q) = match read_u64(s, p) {
        Ok(x) => x,
        Err(e) => return Err(e),
    };
    match read_zz_varints(s, q, count) {
        Ok((terms, _)) => Ok((present, terms)),
        Err(e) => Err(e),
    }
}

/// The delta-of-delta terms of a sequence.
pub fn delta2_terms_of(v: &[i64]) -> (out: Vec<i64>)
    ensures
        out@ == delta2_terms(v@),
{
    if v.len() == 0 {
        return Vec::new();
    }
    let d = wrapping_deltas(v);
    let rest = vstd::slice::slice_subrange(d.as_slice(), 1, d.len());
    assert(rest@ =~= wdeltas(v@).drop_first());
    let dd = wrapping_deltas(rest);
    let mut out: Vec<i64> = Vec::new();
    out.push(v[0]);
    let mut i: usize = 0;
    while i < dd.len()
        invariant
            0 <= i <= dd.len(),
            out@ == seq![v@[0]] + dd@.take(i as int),
        decreases dd.len() - i,
    {
        out.push(dd[i]);
        i = i + 1;
        assert(out@ =~= seq![v@[0]] + dd@.take(i as int));
    }
    assert(dd@.take(dd.len() as int) =~= dd@);
    out
}

/// The values that delta-of-delta terms stand for.
pub fn undo_delta2_of(e: &[i64]) -> (out: Vec<i64>)
    ensures
        out@ == undo_delta2(e@),
{
    if e.len() == 0 {
        return Vec::new();
    }
    let rest = vstd::slice::slice_subrange(e, 1, e.len());
    assert(rest@ =~= e@.drop_first());
    let d = wrapping_sums(rest);
    let mut firsts: Vec<i64> = Vec::new();
    firsts.push(e[0]);
    let mut i: usize = 0;
    while i < d.len()
        invariant
            0 <= i <= d.len(),
            firsts@ == seq![e@[0]] + d@.take(i as int),
        decreases d.len() - i,
    {
        firsts.push(d[i]);
        i = i + 1;
        assert(firsts@ =~= seq![e@[0]] + d@.take(i as int));
    }
    assert(d@.take(d.len() as int) =~= d@);
    wrapping_sums(firsts.as_slice())
}

/// Encodes a delta chunk.
pub fn encode_delta(values: &[Option<Cell>]) -> (r: Result<Vec<u8>, ArchiveError>)
    ensures
        match r {
            Ok(b) => all_present_integers(cells_view(values@)) && b@ == delta_chunk(cells_view(values@)),
            Err(e) => !all_present_integers(cells_view(values@)) && e == ArchiveError::NonIntegerValue,
        },
{
    let present = presence_bitmap(values);
    let ints = match integer_values(values) {
        Ok(x) => x,
        Err(e) => return Err(e),
    };
    let deltas = wrapping_deltas(ints.as_slice());
    let mut out: Vec<u8> = Vec::new();
    write_bytes(&mut out, present.as_slice());
    write_u64(&mut out, ints.len() as u64);
    write_zz_varints(&mut out, deltas.as_slice());
    Ok(out)
}

/// Decodes a delta chunk into `row_count` rows.
pub fn decode_delta(s: &[u8], row_count: usize) -> (r: Result<Vec<Option<Cell>>, ArchiveError>)
    ensures
        match (r, spec_decode_delta(s@, row_count as nat)) {
            (Ok(c), Ok(d)) => cells_view(c@) == d,
            (Err(e1), Err(e2)) => e1 == e2,
            _ => false,
        },
{
    let (present, terms) = match read_varint_chunk(s) {
        Ok(x) => x,
        Err(e) => return Err(e),
    };
    let ints = wrapping_sums(terms.as_slice());
    Ok(fill_integers(present.as_slice(), row_count, ints.as_slice()))
}

/// Encodes a delta-of-delta chunk.
pub fn encode_delta2(values: &[Option<Cell>]) -> (r: Result<Vec<u8>, ArchiveError>)
    ensures
        match r {
            Ok(b) => all_present_integers(cells_view(values@)) && b@ == delta2_chunk(cells_view(values@)),
            Err(e) => !all_present_integers(cells_view(values@)) && e == ArchiveError::NonIntegerValue,
        },
{
    let present = presence_bitmap(values);
    let ints = match integer_values(values) {
        Ok(x) => x,
        Err(e) => return Err(e),
    };
    let terms = delta2_terms_of(ints.as_slice());
    let mut out: Vec<u8> = Vec::new();
    write_bytes(&mut out, present.as_slice());
    write_u64(&mut out, ints.len() as u64);
    write_zz_varints(&mut out, terms.as_slice());
    Ok(out)
}

/// Decodes a delta-of-delta chunk into `row_count` rows.
pub fn decode_delta2(s: &[u8], row_count: usize) -> (r: Result<Vec<Option<Cell>>, ArchiveError>)
    ensures
        match (r, spec_decode_delta2(s@, row_count as nat)) {
            (Ok(c), Ok(d)) => cells_view(c@) == d,
            (Err(e1), Err(e2)) => e1 == e2,
            _ => false,
        },
{
    let (present, terms) = match read_varint_chunk(s) {
        Ok(x) => x,
        Err(e) => return Err(e),
    };
    let ints = undo_delta2_of(terms.as_slice());
    Ok(fill_integers(present.as_slice(), row_count, ints.as_slice()))
}

/// Summing the wrapping differences gives the values back.
#[verifier::spinoff_prover]
pub proof fn lemma_wsums_wdeltas(v: Seq<i64>)
    ensures
        wsums(wdeltas(v)) == v,
    decreases v.len(),
{
    if v.len() > 0 {
        lemma_wsums_wdeltas(v.drop_last());
        assert(wdeltas(v).drop_last() =~= wdeltas(v.drop_last()));
        if v.len() > 1 {
            let a = v[v.len() - 2];
            let b = v.last();
            assert(a.wrapping_add(b.wrapping_sub(a)) == b);
        }
        assert(wsums(wdeltas(v)) =~= v);
    }
}

/// Undoing the delta-of-delta terms gives the values back.
#[verifier::spinoff_prover]
pub proof fn lemma_undo_delta2(v: Seq<i64>)
    ensures
        undo_delta2(delta2_terms(v)) == v,
{
    if v.len() > 0 {
        let d = wdeltas(v);
        let e = delta2_terms(v);
        assert(e.drop_first() =~= wdeltas(d.drop_first()));
        lemma_wsums_wdeltas(d.drop_first());
        assert(seq![e[0]] + wsums(e.drop_first()) =~= d);
        lemma_wsums_wdeltas(v);
    }
}

/// Reading varints where their bytes stand gives the integers back.
#[verifier::spinoff_prover]
pub proof fn lemma_read_zz_varints_of(s: Seq<u8>, pos: int, x: Seq<i64>)
    requires
        0 <= pos,
        pos + zz_varints(x).len() <= s.len(),
        s.subrange(pos, pos + zz_varints(x).len()) == zz_varints(x),
    ensures
        spec_read_zz_varints(s, pos, x.len()) == Ok::<(Seq<i64>, int), ArchiveError>(
            (x, pos + zz_varints(x).len()),
        ),
    decreases x.len(),
{
    if x.len() > 0 {
        let a = zz_varints(x.drop_last());
        let b = spec_varint_bytes(spec_zigzag(x.last()));
        assert(zz_varints(x) == a + b);
        assert(s.subrange(pos, pos + a.len()) =~= a) by {
            assert forall|j: int| 0 <= j < a.len() implies s.subrange(pos, pos + a.len())[j] == a[j] by {
                assert(s.subrange(pos, pos + zz_varints(x).len())[j] == (a + b)[j]);
            }
        }
        lemma_read_zz_varints_of(s, pos, x.drop_last());
        assert(s.subrange(pos + a.len(), pos + a.len() + b.len()) =~= b) by {
            assert forall|j: int| 0 <= j < b.len() implies s.subrange(pos + a.len(), pos + a.len() + b.len())[j] == b[j] by {
                assert(s.subrange(pos, pos + zz_varints(x).len())[a.len() + j] == (a + b)[a.len() + j]);
            }
        }
        lemma_read_varint_of(s, pos + a.len(), spec_zigzag(x.last()));
        lemma_unzigzag_zigzag(x.last());
        assert(x.drop_last().push(x.last()) =~= x);
        assert((x.len() - 1) as nat == x.drop_last().len());
    } else {
        assert(x =~= Seq::<i64>::empty());
    }
}

#[verifier::spinoff_prover]
proof fn lemma_int_values_len(v: Seq<Option<CellV>>)
    ensures
        int_values(v).len() <= v.len(),
    decreases v.len(),
{
    if v.len() > 0 {
        lemma_int_values_len(v.drop_last());
    }
}

/// Reading the parts of a varint chunk laid down for `v` with terms `t`.
#[verifier::spinoff_prover]
proof fn lemma_read_varint_chunk_of(v: Seq<Option<CellV>>, t: Seq<i64>)
    requires
        v.len() <= u64::MAX,
        t.len() == int_values(v).len(),
    ensures
        spec_read_varint_chunk(
            spec_bytes_field(spec_presence_bytes(present_flags(v))) + spec_u64_to_le_bytes(
                t.len() as u64,
            ) + zz_varints(t),
        ) == Ok::<(Seq<u8>, Seq<i64>), ArchiveError>((spec_presence_bytes(present_flags(v)), t)),
{
    let pb = spec_presence_bytes(present_flags(v));
    let f = spec_bytes_field(pb);
    let c = spec_u64_to_le_bytes(t.len() as u64);
    let z = zz_varints(t);
    let s = f + c + z;
    lemma_int_values_len(v);
    lemma_le_lengths(0, pb.len() as u64);
    lemma_le_lengths(0, t.len() as u64);
    let fl = f.len() as int;
    assert(s.subrange(0, 8 + pb.len() as int) =~= f);
    lemma_read_bytes_of(s, 0, pb);
    assert(s.subrange(fl, fl + 8) =~= c);
    lemma_read_u64_of(s, fl, t.len() as u64);
    assert(s.subrange(fl + 8, fl + 8 + z.len()) =~= z);
    lemma_read_zz_varints_of(s, fl + 8, t);
}

/// A delta chunk decodes to the slice it was made from.
#[verifier::spinoff_prover]
pub proof fn lemma_delta_chunk_roundtrip(v: Seq<Option<CellV>>)
    requires
        all_present_integers(v),
        v.len() <= u64::MAX,
    ensures
        spec_decode_delta(delta_chunk(v), v.len()) == Ok::<Seq<Option<CellV>>, ArchiveError>(v),
{
    let ints = int_values(v);
    lemma_int_values_len(v);
    assert(wdeltas(ints).len() == ints.len());
    lemma_read_varint_chunk_of(v, wdeltas(ints));
    lemma_wsums_wdeltas(ints);
    lemma_int_values_present(v);
    lemma_fill_present(v);
}

/// A delta-of-delta chunk decodes to the slice it was made from.
#[verifier::spinoff_prover]
pub proof fn lemma_delta2_chunk_roundtrip(v: Seq<Option<CellV>>)
    requires
        all_present_integers(v),
        v.len() <= u64::MAX,
    ensures
        spec_decode_delta2(delta2_chunk(v), v.len()) == Ok::<Seq<Option<CellV>>, ArchiveError>(v),
{
    let ints = int_values(v);
    lemma_int_values_len(v);
    assert(delta2_terms(ints).len() == ints.len());
    lemma_read_varint_chunk_of(v, delta2_terms(ints));
    lemma_undo_delta2(ints);
    lemma_int_values_present(v);
    lemma_fill_present(v);
}

} // verus!
