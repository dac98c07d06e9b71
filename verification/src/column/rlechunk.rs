//! The run-length chunk: runs of values that compare equal, each stored once
//! with its length.
use vstd::prelude::*;
use vstd::bytes::spec_u64_to_le_bytes;
use crate::error::ArchiveError;
use crate::formats::table::{Cell, CellV, spec_cell_eq, cell_eq};
use crate::codecs::rle::rle_expand;
use crate::column::cells::{
    cells_view, spec_opt_cell_bytes, spec_read_opt_cell, write_opt_cell, read_opt_cell,
    clone_opt_cell,
};
use crate::wire::{spec_read_u64, write_u64, read_u64};

verus! {

/// The runs of a slice: a value joins the current run when it compares equal
/// (by `==` on cells) to the value that opened the run.
pub open spec fn spec_rle_runs(v: Seq<Option<CellV>>) -> Seq<(Option<CellV>, u64)>
    decreases v.len(),
{
    if v.len() == 0 {
        Seq::empty()
    } else {
        let r = spec_rle_runs(v.drop_last());
        if r.len() > 0 && spec_cell_eq(r.last().0, v.last()) {
            r.update(r.len() - 1, (r.last().0, (r.last().1 + 1) as u64))
        } else {
            r.push((v.last(), 1u64))
        }
    }
}

/// The number of rows the runs stand for.
pub open spec fn runs_total(runs: Seq<(Option<CellV>, u64)>) -> nat
    decreases runs.len(),
{
    if runs.len() == 0 {
        0
    } else {
        runs_total(runs.drop_last()) + runs.last().1 as nat
    }
}

/// Each run as its length and its value with a presence marker.
pub open spec fn runs_bytes(runs: Seq<(Option<CellV>, u64)>) -> Seq<u8>
    decreases runs.len(),
{
    if runs.len() == 0 {
        Seq::empty()
    } else {
        runs_bytes(runs.drop_last()) + spec_u64_to_le_bytes(runs.last().1) + spec_opt_cell_bytes(
            runs.last().0,
        )
    }
}

/// The bytes of a run-length chunk: the number of runs, then the runs.
pub open spec fn rle_chunk(v: Seq<Option<CellV>>) -> Seq<u8> {
    spec_u64_to_le_bytes(spec_rle_runs(v).len() as u64) + runs_bytes(spec_rle_runs(v))
}

/// Reads `n` runs from `pos` on.
pub open spec fn spec_read_runs(s: Seq<u8>, pos: int, n: nat) -> Result<(Seq<(Option<CellV>, u64)>, int), ArchiveError>
    decreases n,
{
    if n == 0 {
        Ok((Seq::empty(), pos))
    } else {
        match spec_read_runs(s, pos, (n - 1) as nat) {
            Err(e) => Err(e),
            Ok((runs, p)) => match spec_read_u64(s, p) {
                Err(e) => Err(e),
                Ok((count, q)) => match spec_read_opt_cell(s, q, false) {
                    Err(e) => Err(e),
                    Ok((value, r)) => Ok((runs.push((value, count)), r)),
                },
            },
        }
    }
}

/// Decodes a run-length chunk into `n` rows: the runs must stand for exactly `n` rows.
pub open spec fn spec_decode_rle(s: Seq<u8>, n: nat) -> Result<Seq<Option<CellV>>, ArchiveError> {
    match spec_read_u64(s, 0) {
        Err(e) => Err(e),
        Ok((k, p)) => match spec_read_runs(s, p, k as nat) {
            Err(e) => Err(e),
            Ok((runs, _)) => if runs_total(runs) == n {
                Ok(rle_expand(runs))
            } else {
                Err(ArchiveError::RleRowCount)
            },
        },
    }
}

/// Two neighbours that compare equal are identical (no `0.0` next to `-0.0`).
pub open spec fn rle_exact(v: Seq<Option<CellV>>) -> bool {
    forall|i: int, j: int| #![trigger v[i], v[j]]
        0 <= i && j == i + 1 && j < v.len() && spec_cell_eq(v[i], v[j]) ==> v[i] == v[j]
}

/// The runs with their first positions in place of their values.
spec fn runs_at(v: Seq<Option<CellV>>, runs: Seq<(usize, u64)>) -> Seq<(Option<CellV>, u64)> {
    Seq::new(runs.len(), |k: int| (v[runs[k].0 as int], runs[k].1))
}

#[verifier::spinoff_prover]
proof fn lemma_runs_count_le(v: Seq<Option<CellV>>)
    requires
        v.len() <= u64::MAX,
    ensures
        runs_total(spec_rle_runs(v)) == v.len(),
        spec_rle_runs(v).len() <= v.len(),
        forall|k: int| 0 <= k < spec_rle_runs(v).len() ==> #[trigger] spec_rle_runs(v)[k].1 <= v.len(),
    decreases v.len(),
{
    if v.len() > 0 {
        lemma_runs_count_le(v.drop_last());
        let r = spec_rle_runs(v.drop_last());
        if r.len() > 0 && spec_cell_eq(r.last().0, v.last()) {
            let u = r.update(r.len() - 1, (r.last().0, (r.last().1 + 1) as u64));
            assert(u.drop_last() =~= r.drop_last());
            assert(runs_total(r) == runs_total(r.drop_last()) + r.last().1);
            assert(r[r.len() - 1] == r.last());
        } else {
            assert(r.push((v.last(), 1u64)).drop_last() =~= r);
        }
    }
}

/// Encodes a run-length chunk.
pub fn encode_rle(values: &[Option<Cell>]) -> (out: Vec<u8>)
    ensures
        out@ == rle_chunk(cells_view(values@)),
{
    let ghost v = cells_view(values@);
    let mut runs: Vec<(usize, u64)> = Vec::new();
    let mut i: usize = 0;
    while i < values.len()
        invariant
            0 <= i <= values.len(),
            v == cells_view(values@),
            forall|k: int| 0 <= k < runs@.len() ==> (#[trigger] runs@[k]).0 < i,
            runs_at(v, runs@) == spec_rle_runs(v.take(i as int)),
        decreases values.len() - i,
    {
        assert(v.take(i + 1).drop_last() =~= v.take(i as int));
        proof {
            lemma_runs_count_le(v.take(i as int));
        }
        let n = runs.len();
        if n > 0 && cell_eq(&values[runs[n - 1].0], &values[i]) {
            let (first, count) = runs[n - 1];
            assert(count <= i);
            runs.set(n - 1, (first, count + 1));
            assert(runs_at(v, runs@) =~= spec_rle_runs(v.take(i + 1)));
        } else {
            runs.push((i, 1));
            assert(runs_at(v, runs@) =~= spec_rle_runs(v.take(i + 1)));
        }
        i = i + 1;
    }
    assert(v.take(values.len() as int) =~= v);
    let ghost rv = spec_rle_runs(v);
    let mut out: Vec<u8> = Vec::new();
    write_u64(&mut out, runs.len() as u64);
    let ghost head = out@;
    let mut k: usize = 0;
    while k < runs.len()
        invariant
            0 <= k <= runs.len(),
            v == cells_view(values@),
            rv == runs_at(v, runs@),
            forall|j: int| 0 <= j < runs@.len() ==> (#[trigger] runs@[j]).0 < values.len(),
            out@ == head + runs_bytes(rv.take(k as int)),
        decreases runs.len() - k,
    {
        assert(rv.take(k + 1).drop_last() =~= rv.take(k as int));
        let (first, count) = runs[k];
        write_u64(&mut out, count);
        write_opt_cell(&mut out, &values[first]);
        k = k + 1;
        assert(out@ =~= head + runs_bytes(rv.take(k as int)));
    }
    assert(rv.take(runs.len() as int) =~= rv);
    out
}

#[verifier::spinoff_prover]
proof fn lemma_runs_error_persists(s: Seq<u8>, pos: int, n: nat, m: nat)
    requires
        n <= m,
        spec_read_runs(s, pos, n) is Err,
    ensures
        spec_read_runs(s, pos, m) == spec_read_runs(s, pos, n),
    decreases m - n,
{
    if n < m {
        lemma_runs_error_persists(s, pos, n, (m - 1) as nat);
    }
}

/// The views of decoded runs.
spec fn runs_view(runs: Seq<(Option<Cell>, u64)>) -> Seq<(Option<CellV>, u64)> {
    Seq::new(runs.len(), |k: int| (runs[k].0.deep_view(), runs[k].1))
}

/// Decodes a run-length chunk into `row_count` rows.
pub fn decode_rle(s: &[u8], row_count: usize) -> (r: Result<Vec<Option<Cell>>, ArchiveError>)
    ensures
        match (r, spec_decode_rle(s@, row_count as nat)) {
            (Ok(c), Ok(d)) => cells_view(c@) == d,
            (Err(e1), Err(e2)) => e1 == e2,
            _ => false,
        },
{
    let (run_count, p0) = match read_u64(s, 0) {
        Ok(x) => x,
        Err(e) => return Err(e),
    };
    let mut runs: Vec<(Option<Cell>, u64)> = Vec::new();
    let mut p = p0;
    let mut k: u64 = 0;
    let mut total: usize = 0;
    let mut over = false;
    assert(runs_view(runs@) =~= Seq::<(Option<CellV>, u64)>::empty());
    while k < run_count
        invariant
            0 <= k <= run_count,
            spec_read_u64(s@, 0) == Ok::<(u64, int), ArchiveError>((run_count, p0 as int)),
            spec_read_runs(s@, p0 as int, k as nat) == Ok::<(Seq<(Option<CellV>, u64)>, int), ArchiveError>(
                (runs_view(runs@), p as int),
            ),
            !over ==> total == runs_total(runs_view(runs@)) && total <= row_count,
            over ==> runs_total(runs_view(runs@)) > row_count,
        decreases run_count - k,
    {
        let ghost before = runs@;
        let (count, q) = match read_u64(s, p) {
            Ok(x) => x,
            Err(e) => {
                proof {
                    lemma_runs_error_persists(s@, p0 as int, (k + 1) as nat, run_count as nat);
                }
                return Err(e);
            },
        };
        let (value, q2) = match read_opt_cell(s, q, false) {
            Ok(x) => x,
            Err(e) => {
                proof {
                    lemma_runs_error_persists(s@, p0 as int, (k + 1) as nat, run_count as nat);
                }
                return Err(e);
            },
        };
        let ghost vv = value.deep_view();
        runs.push((value, count));
        p = q2;
        assert(runs_view(runs@) =~= runs_view(before).push((vv, count)));
        assert(runs_view(runs@).drop_last() =~= runs_view(before));
        if !over {
            if count as u128 > (row_count - total) as u128 {
                over = true;
            } else {
                total = total + count as usize;
            }
        }
        k = k + 1;
    }
    if over || total != row_count {
        return Err(ArchiveError::RleRowCount);
    }
    let ghost rv = runs_view(runs@);
    let mut out: Vec<Option<Cell>> = Vec::new();
    let mut j: usize = 0;
    let mut done: usize = 0;
    while j < runs.len()
        invariant
            0 <= j <= runs.len(),
            rv == runs_view(runs@),
            runs_total(rv) == row_count,
            done == runs_total(rv.take(j as int)),
            cells_view(out@) == rle_expand(rv.take(j as int)),
        decreases runs.len() - j,
    {
        proof {
            lemma_runs_total_prefix(rv, j + 1);
        }
        assert(rv.take(j + 1).drop_last() =~= rv.take(j as int));
        let count = runs[j].1 as usize;
        let ghost base = cells_view(out@);
        let mut c: usize = 0;
        while c < count
            invariant
                0 <= c <= count,
                j < runs@.len(),
                rv == runs_view(runs@),
                count == rv[j as int].1,
                cells_view(out@) == base + Seq::new(c as nat, |_t: int| rv[j as int].0),
            decreases count - c,
        {
            let x = clone_opt_cell(&runs[j].0);
            let ghost before = out@;
            out.push(x);
            assert(cells_view(out@) =~= cells_view(before).push(rv[j as int].0));
            c = c + 1;
            assert(cells_view(out@) =~= base + Seq::new(c as nat, |_t: int| rv[j as int].0));
        }
        assert(cells_view(out@) =~= rle_expand(rv.take(j + 1)));
        done = done + count;
        j = j + 1;
    }
    assert(rv.take(runs.len() as int) =~= rv);
    Ok(out)
}

/// A prefix of the runs stands for no more rows than all of them.
#[verifier::spinoff_prover]
proof fn lemma_runs_total_prefix(runs: Seq<(Option<CellV>, u64)>, j: int)
    requires
        0 <= j <= runs.len(),
    ensures
        runs_total(runs.take(j)) <= runs_total(runs),
    decreases runs.len() - j,
{
    if j < runs.len() {
        lemma_runs_total_prefix(runs, j + 1);
        assert(runs.take(j + 1).drop_last() =~= runs.take(j));
    } else {
        assert(runs.take(j) =~= runs);
    }
}

/// Under exactness the runs expand to the slice, and the last run holds the last value.
#[verifier::spinoff_prover]
proof fn lemma_rle_runs_expand(v: Seq<Option<CellV>>)
    requires
        rle_exact(v),
        v.len() <= u64::MAX,
    ensures
        rle_expand(spec_rle_runs(v)) == v,
        v.len() > 0 ==> spec_rle_runs(v).len() > 0 && spec_rle_runs(v).last().0 == v.last(),
    decreases v.len(),
{
    if v.len() > 0 {
        let w = v.drop_last();
        assert(rle_exact(w)) by {
            assert forall|i: int, j: int| #![trigger w[i], w[j]]
                0 <= i && j == i + 1 && j < w.len() && spec_cell_eq(w[i], w[j]) implies w[i] == w[j] by {
                assert(w[i] == v[i] && w[j] == v[j]);
            }
        }
        lemma_rle_runs_expand(w);
        lemma_runs_count_le(w);
        let r = spec_rle_runs(w);
        let x = v.last();
        if r.len() > 0 && spec_cell_eq(r.last().0, x) {
            let u = r.update(r.len() - 1, (r.last().0, (r.last().1 + 1) as u64));
            assert(r.last().0 == w.last());
            assert(w.last() == v[v.len() - 2] && x == v[v.len() - 1]);
            assert(w.last() == x);
            assert(u.drop_last() =~= r.drop_last());
            assert(r[r.len() - 1] == r.last());
            assert(rle_expand(r) == rle_expand(r.drop_last()) + Seq::new(r.last().1 as nat, |_j: int| r.last().0));
            assert(rle_expand(u) =~= rle_expand(r).push(x));
            assert(w.push(x) =~= v);
        } else {
            let u = r.push((x, 1u64));
            assert(u.drop_last() =~= r);
            assert(rle_expand(u) =~= rle_expand(r).push(x));
            assert(w.push(x) =~= v);
        }
    } else {
        assert(rle_expand(spec_rle_runs(v)) =~= v);
    }
}

/// Every run value is a value of the slice.
#[verifier::spinoff_prover]
proof fn lemma_runs_values(v: Seq<Option<CellV>>)
    requires
        v.len() <= u64::MAX,
    ensures
        forall|k: int| 0 <= k < spec_rle_runs(v).len() ==> exists|i: int| 0 <= i < v.len()
            && v[i] == (#[trigger] spec_rle_runs(v)[k]).0,
    decreases v.len(),
{
    if v.len() > 0 {
        let w = v.drop_last();
        lemma_runs_values(w);
        let r = spec_rle_runs(w);
        assert forall|k: int| 0 <= k < spec_rle_runs(v).len() implies exists|i: int| 0 <= i < v.len()
            && v[i] == (#[trigger] spec_rle_runs(v)[k]).0 by {
            if k < r.len() {
                assert(spec_rle_runs(v)[k].0 == r[k].0);
                let i = choose|i: int| 0 <= i < w.len() && w[i] == r[k].0;
                assert(v[i] == w[i]);
            } else {
                assert(spec_rle_runs(v)[k].0 == v.last());
                assert(v[v.len() - 1] == v.last());
            }
        }
    }
}

/// Reading runs where their bytes stand gives them back.
#[verifier::spinoff_prover]
proof fn lemma_read_runs_of(s: Seq<u8>, pos: int, runs: Seq<(Option<CellV>, u64)>)
    requires
        0 <= pos,
        forall|k: int| 0 <= k < runs.len() ==> ((#[trigger] runs[k]).0 matches Some(c) ==> crate::column::cells::cell_fits(c)),
        pos + runs_bytes(runs).len() <= s.len(),
        s.subrange(pos, pos + runs_bytes(runs).len()) == runs_bytes(runs),
    ensures
        spec_read_runs(s, pos, runs.len()) == Ok::<(Seq<(Option<CellV>, u64)>, int), ArchiveError>(
            (runs, pos + runs_bytes(runs).len()),
        ),
    decreases runs.len(),
{
    if runs.len() > 0 {
        let a = runs_bytes(runs.drop_last());
        let c = spec_u64_to_le_bytes(runs.last().1);
        let o = spec_opt_cell_bytes(runs.last().0);
        crate::wire::lemma_le_lengths(0, runs.last().1);
        assert(runs_bytes(runs) == a + c + o);
        let all = a + c + o;
        assert(s.subrange(pos, pos + a.len()) =~= a) by {
            assert forall|j: int| 0 <= j < a.len() implies s.subrange(pos, pos + a.len())[j] == a[j] by {
                assert(s.subrange(pos, pos + runs_bytes(runs).len())[j] == all[j]);
            }
        }
        assert forall|k: int| 0 <= k < runs.drop_last().len() implies ((#[trigger] runs.drop_last()[k]).0 matches Some(cc) ==> crate::column::cells::cell_fits(cc)) by {
            assert(runs.drop_last()[k] == runs[k]);
        }
        lemma_read_runs_of(s, pos, runs.drop_last());
        let p = pos + a.len();
        assert(s.subrange(p, p + 8) =~= c) by {
            assert forall|j: int| 0 <= j < 8 implies s.subrange(p, p + 8)[j] == c[j] by {
                assert(s.subrange(pos, pos + runs_bytes(runs).len())[a.len() + j] == all[a.len() + j]);
            }
        }
        crate::wire::lemma_read_u64_of(s, p, runs.last().1);
        assert(s.subrange(p + 8, p + 8 + o.len()) =~= o) by {
            assert forall|j: int| 0 <= j < o.len() implies s.subrange(p + 8, p + 8 + o.len())[j] == o[j] by {
                assert(s.subrange(pos, pos + runs_bytes(runs).len())[a.len() + 8 + j] == all[a.len() + 8 + j]);
            }
        }
        assert(runs[runs.len() - 1] == runs.last());
        crate::column::cells::lemma_read_opt_cell_of(s, p + 8, runs.last().0, false);
        assert(runs.drop_last().push(runs.last()) =~= runs);
        assert((runs.len() - 1) as nat == runs.drop_last().len());
    } else {
        assert(runs =~= Seq::<(Option<CellV>, u64)>::empty());
    }
}

/// A run-length chunk decodes to the slice it was made from, when no two
/// neighbours compare equal without being identical.
#[verifier::spinoff_prover]
pub proof fn lemma_rle_chunk_roundtrip(v: Seq<Option<CellV>>)
    requires
        rle_exact(v),
        crate::column::cells::cells_fit(v),
        v.len() <= u64::MAX,
    ensures
        spec_decode_rle(rle_chunk(v), v.len()) == Ok::<Seq<Option<CellV>>, ArchiveError>(v),
{
    let runs = spec_rle_runs(v);
    lemma_runs_count_le(v);
    lemma_rle_runs_expand(v);
    lemma_runs_values(v);
    let h = spec_u64_to_le_bytes(runs.len() as u64);
    let b = runs_bytes(runs);
    let s = h + b;
    crate::wire::lemma_le_lengths(0, runs.len() as u64);
    assert(s.subrange(0, 8) =~= h);
    crate::wire::lemma_read_u64_of(s, 0, runs.len() as u64);
    assert(s.subrange(8, 8 + b.len() as int) =~= b);
    assert forall|k: int| 0 <= k < runs.len() implies ((#[trigger] runs[k]).0 matches Some(c) ==> crate::column::cells::cell_fits(c)) by {
        let i = choose|i: int| 0 <= i < v.len() && v[i] == runs[k].0;
        assert(v[i] matches Some(c) ==> crate::column::cells::cell_fits(c));
    }
    lemma_read_runs_of(s, 8, runs);
}

} // verus!
