//! Cells on the wire, presence bitmaps, and the raw chunk.
use vstd::prelude::*;
use vstd::bytes::{spec_u64_to_le_bytes};
use vstd::utf8::encode_utf8;
use crate::error::ArchiveError;
use crate::formats::table::{Cell, CellV};
use crate::wire::{
    spec_read_u8, spec_read_u64, spec_read_i64, spec_read_string, spec_i64_to_le_bytes,
    spec_string_field, write_u8, write_u64, write_i64, write_string, read_u8, read_u64, read_i64,
    read_string,
};

verus! {

/// The deep views of a slice of optional cells.
pub open spec fn cells_view(v: Seq<Option<Cell>>) -> Seq<Option<CellV>> {
    Seq::new(v.len(), |i: int| v[i].deep_view())
}

/// The wire bytes of a cell: a tag, then the value.
pub open spec fn spec_cell_bytes(c: CellV) -> Seq<u8> {
    match c {
        CellV::Null => seq![0u8],
        CellV::Bool(b) => seq![1u8, if b { 1u8 } else { 0u8 }],
        CellV::Integer(x) => seq![2u8] + spec_i64_to_le_bytes(x),
        CellV::Float(x) => seq![3u8] + spec_u64_to_le_bytes(x),
        CellV::String(s) => seq![4u8] + spec_string_field(s),
    }
}

pub open spec fn spec_read_cell(s: Seq<u8>, pos: int) -> Result<(CellV, int), ArchiveError> {
    match spec_read_u8(s, pos) {
        Err(e) => Err(e),
        Ok((tag, p)) => if tag == 0 {
            Ok((CellV::Null, p))
        } else if tag == 1 {
            match spec_read_u8(s, p) {
                Ok((b, q)) => Ok((CellV::Bool(b != 0), q)),
                Err(e) => Err(e),
            }
        } else if tag == 2 {
            match spec_read_i64(s, p) {
                Ok((x, q)) => Ok((CellV::Integer(x), q)),
                Err(e) => Err(e),
            }
        } else if tag == 3 {
            match spec_read_u64(s, p) {
                Ok((x, q)) => Ok((CellV::Float(x), q)),
                Err(e) => Err(e),
            }
        } else if tag == 4 {
            match spec_read_string(s, p) {
                Ok((x, q)) => Ok((CellV::String(x), q)),
                Err(e) => Err(e),
            }
        } else {
            Err(ArchiveError::BadCellTag(tag))
        },
    }
}

/// A presence marker (0 or 1), then the cell when present.
pub open spec fn spec_opt_cell_bytes(o: Option<CellV>) -> Seq<u8> {
    match o {
        None => seq![0u8],
        Some(c) => seq![1u8] + spec_cell_bytes(c),
    }
}

/// Reads a presence marker and the cell it announces; `bad` is the error for
/// a marker that is neither 0 nor 1.
pub open spec fn spec_read_opt_cell(s: Seq<u8>, pos: int, raw: bool) -> Result<(Option<CellV>, int), ArchiveError> {
    match spec_read_u8(s, pos) {
        Err(e) => Err(e),
        Ok((m, p)) => if m == 0 {
            Ok((None, p))
        } else if m == 1 {
            match spec_read_cell(s, p) {
                Ok((c, q)) => Ok((Some(c), q)),
                Err(e) => Err(e),
            }
        } else if raw {
            Err(ArchiveError::BadRawMarker(m))
        } else {
            Err(ArchiveError::BadRleMarker(m))
        },
    }
}

/// The raw chunk: each value as a presence marker and a cell.
pub open spec fn spec_raw_chunk(v: Seq<Option<CellV>>) -> Seq<u8>
    decreases v.len(),
{
    if v.len() == 0 {
        Seq::empty()
    } else {
        spec_raw_chunk(v.drop_last()) + spec_opt_cell_bytes(v.last())
    }
}

/// Reads `n` raw values from `pos` on, appending them to `acc`.
pub open spec fn spec_read_raw_from(s: Seq<u8>, pos: int, n: nat) -> Result<(Seq<Option<CellV>>, int), ArchiveError>
    decreases n,
{
    if n == 0 {
        Ok((Seq::empty(), pos))
    } else {
        match spec_read_raw_from(s, pos, (n - 1) as nat) {
            Err(e) => Err(e),
            Ok((vals, p)) => match spec_read_opt_cell(s, p, true) {
                Err(e) => Err(e),
                Ok((o, q)) => Ok((vals.push(o), q)),
            },
        }
    }
}

pub fn write_cell(out: &mut Vec<u8>, cell: &Cell)
    ensures
        final(out)@ == old(out)@ + spec_cell_bytes(cell.deep_view()),
{
    match cell {
        Cell::Null => {
            write_u8(out, 0);
        },
        Cell::Bool(b) => {
            write_u8(out, 1);
            write_u8(out, if *b { 1 } else { 0 });
        },
        Cell::Integer(x) => {
            write_u8(out, 2);
            write_i64(out, *x);
        },
        Cell::Float(x) => {
            write_u8(out, 3);
            write_u64(out, *x);
        },
        Cell::String(st) => {
            write_u8(out, 4);
            write_string(out, st.as_str());
        },
    }
    assert(out@ =~= old(out)@ + spec_cell_bytes(cell.deep_view()));
}

pub fn read_cell(s: &[u8], pos: usize) -> (r: Result<(Cell, usize), ArchiveError>)
    ensures
        match (r, spec_read_cell(s@, pos as int)) {
            (Ok((c, p)), Ok((d, q))) => c.deep_view() == d && p == q,
            (Err(e1), Err(e2)) => e1 == e2,
            _ => false,
        },
{
    let (tag, p) = match read_u8(s, pos) {
        Ok(x) => x,
        Err(e) => return Err(e),
    };
    if tag == 0 {
        Ok((Cell::Null, p))
    } else if tag == 1 {
        match read_u8(s, p) {
            Ok((b, q)) => Ok((Cell::Bool(b != 0), q)),
            Err(e) => Err(e),
        }
    } else if tag == 2 {
        match read_i64(s, p) {
            Ok((x, q)) => Ok((Cell::Integer(x), q)),
            Err(e) => Err(e),
        }
    } else if tag == 3 {
        match read_u64(s, p) {
            Ok((x, q)) => Ok((Cell::Float(x), q)),
            Err(e) => Err(e),
        }
    } else if tag == 4 {
        match read_string(s, p) {
            Ok((x, q)) => Ok((Cell::String(x), q)),
            Err(e) => Err(e),
        }
    } else {
        Err(ArchiveError::BadCellTag(tag))
    }
}

pub fn write_opt_cell(out: &mut Vec<u8>, value: &Option<Cell>)
    ensures
        final(out)@ == old(out)@ + spec_opt_cell_bytes(value.deep_view()),
{
    match value {
        None => {
            write_u8(out, 0);
        },
        Some(c) => {
            write_u8(out, 1);
            write_cell(out, c);
        },
    }
    assert(out@ =~= old(out)@ + spec_opt_cell_bytes(value.deep_view()));
}

pub fn read_opt_cell(s: &[u8], pos: usize, raw: bool) -> (r: Result<(Option<Cell>, usize), ArchiveError>)
    ensures
        match (r, spec_read_opt_cell(s@, pos as int, raw)) {
            (Ok((c, p)), Ok((d, q))) => c.deep_view() == d && p == q,
            (Err(e1), Err(e2)) => e1 == e2,
            _ => false,
        },
{
    let (m, p) = match read_u8(s, pos) {
        Ok(x) => x,
        Err(e) => return Err(e),
    };
    if m == 0 {
        Ok((None, p))
    } else if m == 1 {
        match read_cell(s, p) {
            Ok((c, q)) => Ok((Some(c), q)),
            Err(e) => Err(e),
        }
    } else if raw {
        Err(ArchiveError::BadRawMarker(m))
    } else {
        Err(ArchiveError::BadRleMarker(m))
    }
}

pub fn encode_raw(values: &[Option<Cell>]) -> (out: Vec<u8>)
    ensures
        out@ == spec_raw_chunk(cells_view(values@)),
{
    let mut out: Vec<u8> = Vec::new();
    let mut i: usize = 0;
    while i < values.len()
        invariant
            0 <= i <= values.len(),
            out@ == spec_raw_chunk(cells_view(values@.take(i as int))),
        decreases values.len() - i,
    {
        write_opt_cell(&mut out, &values[i]);
        assert(cells_view(values@.take(i + 1)).drop_last() =~= cells_view(values@.take(i as int)));
        i = i + 1;
    }
    assert(values@.take(values.len() as int) =~= values@);
    out
}

pub fn decode_raw(s: &[u8], pos: usize, row_count: usize) -> (r: Result<(Vec<Option<Cell>>, usize), ArchiveError>)
    ensures
        match (r, spec_read_raw_from(s@, pos as int, row_count as nat)) {
            (Ok((c, p)), Ok((d, q))) => cells_view(c@) == d && p == q,
            (Err(e1), Err(e2)) => e1 == e2,
            _ => false,
        },
{
    let mut out: Vec<Option<Cell>> = Vec::new();
    let mut p = pos;
    let mut i: usize = 0;
    assert(cells_view(out@) =~= Seq::<Option<CellV>>::empty());
    while i < row_count
        invariant
            0 <= i <= row_count,
            spec_read_raw_from(s@, pos as int, i as nat) == Ok::<(Seq<Option<CellV>>, int), ArchiveError>(
                (cells_view(out@), p as int),
            ),
        decreases row_count - i,
    {
        let ghost old_out = out@;
        match read_opt_cell(s, p, true) {
            Ok((c, q)) => {
                let ghost cv = c.deep_view();
                out.push(c);
                p = q;
                assert(cells_view(out@) =~= cells_view(old_out).push(cv));
            },
            Err(e) => {
                proof {
                    lemma_raw_error_persists(s@, pos as int, (i + 1) as nat, row_count as nat);
                }
                return Err(e);
            },
        }
        i = i + 1;
    }
    Ok((out, p))
}

/// Once reading the first `n` values fails, reading more fails the same way.
pub proof fn lemma_raw_error_persists(s: Seq<u8>, pos: int, n: nat, m: nat)
    requires
        n <= m,
        spec_read_raw_from(s, pos, n) is Err,
    ensures
        spec_read_raw_from(s, pos, m) == spec_read_raw_from(s, pos, n),
    decreases m - n,
{
    if n < m {
        lemma_raw_error_persists(s, pos, n, (m - 1) as nat);
    }
}

/// A copy of a cell.
pub fn clone_cell(c: &Cell) -> (r: Cell)
    ensures
        r.deep_view() == c.deep_view(),
{
    match c {
        Cell::Null => Cell::Null,
        Cell::Bool(b) => Cell::Bool(*b),
        Cell::Integer(x) => Cell::Integer(*x),
        Cell::Float(x) => Cell::Float(*x),
        Cell::String(s) => Cell::String(s.clone()),
    }
}

/// A copy of an optional cell.
pub fn clone_opt_cell(o: &Option<Cell>) -> (r: Option<Cell>)
    ensures
        r.deep_view() == o.deep_view(),
{
    match o {
        None => None,
        Some(c) => Some(clone_cell(c)),
    }
}

/// A cell whose wire form can be written: a string's UTF-8 length fits a `u64`.
pub open spec fn cell_fits(c: CellV) -> bool {
    c matches CellV::String(t) ==> encode_utf8(t).len() <= u64::MAX
}

/// Every present cell can be written.
pub open spec fn cells_fit(v: Seq<Option<CellV>>) -> bool {
    forall|i: int| 0 <= i < v.len() ==> (#[trigger] v[i] matches Some(c) ==> cell_fits(c))
}

/// Reading a cell where its bytes stand gives the cell back.
pub proof fn lemma_read_cell_of(s: Seq<u8>, pos: int, c: CellV)
    requires
        0 <= pos,
        cell_fits(c),
        pos + spec_cell_bytes(c).len() <= s.len(),
        s.subrange(pos, pos + spec_cell_bytes(c).len()) == spec_cell_bytes(c),
    ensures
        spec_read_cell(s, pos) == Ok::<(CellV, int), ArchiveError>((c, pos + spec_cell_bytes(c).len())),
{
    let b = spec_cell_bytes(c);
    assert(s[pos] == b[0]) by {
        assert(s.subrange(pos, pos + b.len())[0] == b[0]);
    }
    match c {
        CellV::Null => {},
        CellV::Bool(x) => {
            assert(s[pos + 1] == b[1]) by {
                assert(s.subrange(pos, pos + b.len())[1] == b[1]);
            }
        },
        CellV::Integer(x) => {
            crate::wire::lemma_le_lengths(0, x as u64);
            assert(s.subrange(pos + 1, pos + 9) =~= spec_i64_to_le_bytes(x)) by {
                assert forall|j: int| 0 <= j < 8 implies s.subrange(pos + 1, pos + 9)[j] == spec_i64_to_le_bytes(x)[j] by {
                    assert(s.subrange(pos, pos + b.len())[1 + j] == b[1 + j]);
                }
            }
            crate::wire::lemma_read_i64_of(s, pos + 1, x);
        },
        CellV::Float(x) => {
            crate::wire::lemma_le_lengths(0, x);
            assert(s.subrange(pos + 1, pos + 9) =~= spec_u64_to_le_bytes(x)) by {
                assert forall|j: int| 0 <= j < 8 implies s.subrange(pos + 1, pos + 9)[j] == spec_u64_to_le_bytes(x)[j] by {
                    assert(s.subrange(pos, pos + b.len())[1 + j] == b[1 + j]);
                }
            }
            crate::wire::lemma_read_u64_of(s, pos + 1, x);
        },
        CellV::String(t) => {
            let f = spec_string_field(t);
            assert(s.subrange(pos + 1, pos + 1 + f.len()) =~= f) by {
                assert forall|j: int| 0 <= j < f.len() implies s.subrange(pos + 1, pos + 1 + f.len())[j] == f[j] by {
                    assert(s.subrange(pos, pos + b.len())[1 + j] == b[1 + j]);
                }
            }
            crate::wire::lemma_read_string_of(s, pos + 1, t);
        },
    }
}

/// Reading an optional cell where its bytes stand gives it back.
pub proof fn lemma_read_opt_cell_of(s: Seq<u8>, pos: int, o: Option<CellV>, raw: bool)
    requires
        0 <= pos,
        o matches Some(c) ==> cell_fits(c),
        pos + spec_opt_cell_bytes(o).len() <= s.len(),
        s.subrange(pos, pos + spec_opt_cell_bytes(o).len()) == spec_opt_cell_bytes(o),
    ensures
        spec_read_opt_cell(s, pos, raw) == Ok::<(Option<CellV>, int), ArchiveError>((o, pos + spec_opt_cell_bytes(o).len())),
{
    let b = spec_opt_cell_bytes(o);
    assert(s[pos] == b[0]) by {
        assert(s.subrange(pos, pos + b.len())[0] == b[0]);
    }
    if let Some(c) = o {
        let cb = spec_cell_bytes(c);
        assert(s.subrange(pos + 1, pos + 1 + cb.len()) =~= cb) by {
            assert forall|j: int| 0 <= j < cb.len() implies s.subrange(pos + 1, pos + 1 + cb.len())[j] == cb[j] by {
                assert(s.subrange(pos, pos + b.len())[1 + j] == b[1 + j]);
            }
        }
        lemma_read_cell_of(s, pos + 1, c);
    }
}

/// Reading a raw chunk where its bytes stand gives the values back.
pub proof fn lemma_read_raw_of(s: Seq<u8>, pos: int, v: Seq<Option<CellV>>)
    requires
        0 <= pos,
        cells_fit(v),
        pos + spec_raw_chunk(v).len() <= s.len(),
        s.subrange(pos, pos + spec_raw_chunk(v).len()) == spec_raw_chunk(v),
    ensures
        spec_read_raw_from(s, pos, v.len()) == Ok::<(Seq<Option<CellV>>, int), ArchiveError>(
            (v, pos + spec_raw_chunk(v).len()),
        ),
    decreases v.len(),
{
    if v.len() > 0 {
        let a = spec_raw_chunk(v.drop_last());
        let b = spec_opt_cell_bytes(v.last());
        assert(spec_raw_chunk(v) == a + b);
        assert(s.subrange(pos, pos + a.len()) =~= a) by {
            assert forall|j: int| 0 <= j < a.len() implies s.subrange(pos, pos + a.len())[j] == a[j] by {
                assert(s.subrange(pos, pos + spec_raw_chunk(v).len())[j] == (a + b)[j]);
            }
        }
        assert(cells_fit(v.drop_last())) by {
            assert forall|i: int| 0 <= i < v.drop_last().len() implies (#[trigger] v.drop_last()[i] matches Some(c) ==> cell_fits(c)) by {
                assert(v.drop_last()[i] == v[i]);
            }
        }
        lemma_read_raw_of(s, pos, v.drop_last());
        assert(s.subrange(pos + a.len(), pos + a.len() + b.len()) =~= b) by {
            assert forall|j: int| 0 <= j < b.len() implies s.subrange(pos + a.len(), pos + a.len() + b.len())[j] == b[j] by {
                assert(s.subrange(pos, pos + spec_raw_chunk(v).len())[a.len() + j] == (a + b)[a.len() + j]);
            }
        }
        assert(v[v.len() - 1] == v.last());
        lemma_read_opt_cell_of(s, pos + a.len(), v.last(), true);
        assert(v.drop_last().push(v.last()) =~= v);
        assert((v.len() - 1) as nat == v.drop_last().len());
    } else {
        assert(v =~= Seq::<Option<CellV>>::empty());
    }
}

} // verus!
