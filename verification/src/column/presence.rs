//! Packed presence bitmaps, and the present values of a column slice.
use vstd::prelude::*;
use crate::formats::table::{Cell, CellV};
use crate::column::cells::cells_view;

verus! {

/// Whether each value is present.
pub open spec fn present_flags(v: Seq<Option<CellV>>) -> Seq<bool> {
    Seq::new(v.len(), |i: int| v[i] is Some)
}

/// Bit `i` of a bitmap: bit `i % 8` (least significant first) of byte `i / 8`;
/// bits past the end of the bitmap read as clear.
pub open spec fn bit_at(bytes: Seq<u8>, i: int) -> bool {
    0 <= i && i / 8 < bytes.len() && (bytes[i / 8] >> ((i % 8) as u8)) & 1u8 == 1u8
}

/// Byte `b` of the bitmap of `p`, with only its first `j` bits filled in.
pub open spec fn presence_byte(p: Seq<bool>, b: int, j: nat) -> u8
    decreases j,
{
    if j == 0 {
        0u8
    } else {
        let i = 8 * b + (j - 1);
        presence_byte(p, b, (j - 1) as nat) | (if 0 <= i < p.len() && p[i] {
            (1u8 << ((j - 1) as u8))
        } else {
            0u8
        })
    }
}

/// The packed bitmap of `p`: one bit per flag, `ceil(len / 8)` bytes.
pub open spec fn spec_presence_bytes(p: Seq<bool>) -> Seq<u8> {
    Seq::new(((p.len() + 7) / 8) as nat, |b: int| presence_byte(p, b, 8))
}

/// The number of set bits before bit `i`.
pub open spec fn rank(bytes: Seq<u8>, i: int) -> nat
    decreases i,
{
    if i <= 0 {
        0
    } else {
        rank(bytes, i - 1) + (if bit_at(bytes, i - 1) { 1nat } else { 0nat })
    }
}

/// `n` rows: the rows whose bit is set take the next value of `vals` in turn
/// (none once `vals` runs out); the other rows are absent.
pub open spec fn spec_fill(bytes: Seq<u8>, n: nat, vals: Seq<Option<CellV>>) -> Seq<Option<CellV>> {
    Seq::new(
        n,
        |i: int|
            if bit_at(bytes, i) && rank(bytes, i) < vals.len() {
                vals[rank(bytes, i) as int]
            } else {
                None
            },
    )
}

/// The number of present values.
pub open spec fn count_present(v: Seq<Option<CellV>>) -> nat
    decreases v.len(),
{
    if v.len() == 0 {
        0
    } else {
        count_present(v.drop_last()) + (if v.last() is Some { 1nat } else { 0nat })
    }
}

/// The integers of the integer cells, in order.
pub open spec fn int_values(v: Seq<Option<CellV>>) -> Seq<i64>
    decreases v.len(),
{
    if v.len() == 0 {
        Seq::empty()
    } else {
        let r = int_values(v.drop_last());
        match v.last() {
            Some(CellV::Integer(x)) => r.push(x),
            _ => r,
        }
    }
}

/// The text of the string cells, in order.
pub open spec fn string_values(v: Seq<Option<CellV>>) -> Seq<Seq<char>>
    decreases v.len(),
{
    if v.len() == 0 {
        Seq::empty()
    } else {
        let r = string_values(v.drop_last());
        match v.last() {
            Some(CellV::String(s)) => r.push(s),
            _ => r,
        }
    }
}

/// Every present value is an integer.
pub open spec fn all_present_integers(v: Seq<Option<CellV>>) -> bool {
    forall|i: int| 0 <= i < v.len() ==> (#[trigger] v[i] matches Some(c) ==> c is Integer)
}

/// Every present value is a string.
pub open spec fn all_present_strings(v: Seq<Option<CellV>>) -> bool {
    forall|i: int| 0 <= i < v.len() ==> (#[trigger] v[i] matches Some(c) ==> c is String)
}

/// Strings as present string cells.
pub open spec fn string_cells(x: Seq<Seq<char>>) -> Seq<Option<CellV>> {
    Seq::new(x.len(), |i: int| Some(CellV::String(x[i])))
}

/// Integers as present integer cells.
pub open spec fn integer_cells(x: Seq<i64>) -> Seq<Option<CellV>> {
    Seq::new(x.len(), |i: int| Some(CellV::Integer(x[i])))
}

proof fn lemma_or_bit(x: u8, j: u8, c: bool, t: u8)
    requires
        j < 8,
        t < 8,
        x >> j == 0,
    ensures
        ((x | (if c { 1u8 << j } else { 0u8 })) >> t) & 1u8 == (if t == j {
            if c { 1u8 } else { 0u8 }
        } else {
            (x >> t) & 1u8
        }),
        (x | (if c { 1u8 << j } else { 0u8 })) >> ((j + 1) as u8) == 0 || j == 7,
{
    if c {
        assert(((x | (1u8 << j)) >> t) & 1u8 == (if t == j { 1u8 } else { (x >> t) & 1u8 })
            && ((x | (1u8 << j)) >> ((j + 1) as u8) == 0 || j == 7)) by (bit_vector)
            requires
                j < 8,
                t < 8,
                x >> j == 0,
        ;
    } else {
        assert(((x | 0u8) >> t) & 1u8 == (if t == j { 0u8 } else { (x >> t) & 1u8 })
            && ((x | 0u8) >> ((j + 1) as u8) == 0 || j == 7)) by (bit_vector)
            requires
                j < 8,
                t < 8,
                x >> j == 0,
        ;
    }
}

/// Bit `t` of a partly filled byte is flag `8b + t` for `t < j`, and clear above.
proof fn lemma_presence_byte_bits(p: Seq<bool>, b: int, j: nat)
    requires
        j <= 8,
    ensures
        j < 8 ==> presence_byte(p, b, j) >> (j as u8) == 0,
        forall|t: u8|
            t < 8 ==> (#[trigger] (presence_byte(p, b, j) >> t) & 1u8) == (if (t as nat) < j
                && 0 <= 8 * b + t < p.len() && p[8 * b + t] {
                1u8
            } else {
                0u8
            }),
    decreases j,
{
    if j == 0 {
        assert forall|t: u8| t < 8 implies (#[trigger] (0u8 >> t) & 1u8) == 0u8 by {
            assert((0u8 >> t) & 1u8 == 0u8) by (bit_vector);
        }
        assert(0u8 >> 0u8 == 0) by (bit_vector);
    } else {
        let jm = (j - 1) as nat;
        lemma_presence_byte_bits(p, b, jm);
        let x = presence_byte(p, b, jm);
        let i = 8 * b + jm;
        let c = 0 <= i < p.len() && p[i];
        assert forall|t: u8| t < 8 implies (#[trigger] (presence_byte(p, b, j) >> t) & 1u8) == (if (
        t as nat) < j && 0 <= 8 * b + t < p.len() && p[8 * b + t] {
            1u8
        } else {
            0u8
        }) by {
            lemma_or_bit(x, jm as u8, c, t);
            assert((x >> t) & 1u8 == (if (t as nat) < jm && 0 <= 8 * b + t < p.len() && p[8 * b
                + t] {
                1u8
            } else {
                0u8
            }));
        }
        lemma_or_bit(x, jm as u8, c, 0);
    }
}

/// The packed bitmap holds each flag at its bit.
pub proof fn lemma_presence_bits(p: Seq<bool>)
    ensures
        forall|i: int| 0 <= i < p.len() ==> bit_at(spec_presence_bytes(p), i) == #[trigger] p[i],
{
    assert forall|i: int| 0 <= i < p.len() implies bit_at(spec_presence_bytes(p), i) == #[trigger] p[i] by {
        let b = i / 8;
        let t = (i % 8) as u8;
        lemma_presence_byte_bits(p, b, 8);
        assert(8 * b + t == i);
        assert(b < (p.len() + 7) / 8);
        assert(spec_presence_bytes(p)[b] == presence_byte(p, b, 8));
    }
}

/// The flags of present values, packed.
pub fn pack_presence(values: &[bool]) -> (out: Vec<u8>)
    ensures
        out@ == spec_presence_bytes(values@),
{
    let n = values.len();
    let nbytes = n / 8 + if n % 8 == 0 { 0 } else { 1 };
    assert(nbytes == (n + 7) / 8);
    let mut out: Vec<u8> = Vec::new();
    let mut b: usize = 0;
    while b < nbytes
        invariant
            nbytes == (n + 7) / 8,
            n == values@.len(),
            0 <= b <= nbytes,
            out@ == spec_presence_bytes(values@).take(b as int),
        decreases nbytes - b,
    {
        let mut byte: u8 = 0;
        let mut j: u8 = 0;
        assert(b * 8 < n);
        while j < 8
            invariant
                n == values@.len(),
                b < nbytes,
                b * 8 < n,
                0 <= j <= 8,
                byte == presence_byte(values@, b as int, j as nat),
            decreases 8 - j,
        {
            let present = (j as usize) < n - b * 8 && values[b * 8 + j as usize];
            byte = byte | (if present { 1u8 << j } else { 0u8 });
            j = j + 1;
        }
        out.push(byte);
        b = b + 1;
        assert(out@ =~= spec_presence_bytes(values@).take(b as int));
    }
    assert(out@ =~= spec_presence_bytes(values@));
    out
}

/// Bit `i` of the bitmap for each of the first `count` rows.
pub fn unpack_presence(bytes: &[u8], count: usize) -> (out: Vec<bool>)
    ensures
        out@ == Seq::new(count as nat, |i: int| bit_at(bytes@, i)),
{
    let mut out: Vec<bool> = Vec::new();
    let mut i: usize = 0;
    while i < count
        invariant
            0 <= i <= count,
            out@ == Seq::new(i as nat, |k: int| bit_at(bytes@, k)),
        decreases count - i,
    {
        let bi = i / 8;
        let set = bi < bytes.len() && (bytes[bi] >> ((i % 8) as u8)) & 1u8 == 1u8;
        out.push(set);
        i = i + 1;
        assert(out@ =~= Seq::new(i as nat, |k: int| bit_at(bytes@, k)));
    }
    out
}

/// The presence bitmap of a column slice.
pub fn presence_bitmap(values: &[Option<Cell>]) -> (out: Vec<u8>)
    ensures
        out@ == spec_presence_bytes(present_flags(cells_view(values@))),
{
    let mut flags: Vec<bool> = Vec::new();
    let mut i: usize = 0;
    while i < values.len()
        invariant
            0 <= i <= values.len(),
            flags@ == present_flags(cells_view(values@)).take(i as int),
        decreases values.len() - i,
    {
        flags.push(values[i].is_some());
        i = i + 1;
        assert(flags@ =~= present_flags(cells_view(values@)).take(i as int));
    }
    assert(flags@ =~= present_flags(cells_view(values@)));
    pack_presence(flags.as_slice())
}

/// The present values, in order.
pub open spec fn present_values(v: Seq<Option<CellV>>) -> Seq<CellV>
    decreases v.len(),
{
    if v.len() == 0 {
        Seq::empty()
    } else {
        let r = present_values(v.drop_last());
        match v.last() {
            Some(c) => r.push(c),
            None => r,
        }
    }
}

/// Values as present cells.
pub open spec fn some_cells(c: Seq<CellV>) -> Seq<Option<CellV>> {
    Seq::new(c.len(), |k: int| Some(c[k]))
}

/// The cells that dictionary indexes select: an index past the table selects nothing.
pub open spec fn dict_cells(dict: Seq<Seq<char>>, idx: Seq<u64>) -> Seq<Option<CellV>> {
    Seq::new(
        idx.len(),
        |k: int|
            if (idx[k] as int) < dict.len() {
                Some(CellV::String(dict[idx[k] as int]))
            } else {
                None
            },
    )
}

proof fn lemma_rank_counts(bytes: Seq<u8>, v: Seq<Option<CellV>>, i: int)
    requires
        0 <= i <= v.len(),
        forall|k: int| 0 <= k < v.len() ==> bit_at(bytes, k) == (#[trigger] v[k] is Some),
    ensures
        rank(bytes, i) == count_present(v.take(i)),
    decreases i,
{
    if i > 0 {
        lemma_rank_counts(bytes, v, i - 1);
        assert(v.take(i).drop_last() =~= v.take(i - 1));
    }
}

proof fn lemma_present_values_at(v: Seq<Option<CellV>>, i: int)
    requires
        0 <= i < v.len(),
        v[i] is Some,
    ensures
        count_present(v.take(i)) < present_values(v).len(),
        present_values(v)[count_present(v.take(i)) as int] == v[i]->0,
    decreases v.len(),
{
    lemma_present_values_len(v.drop_last());
    if i == v.len() - 1 {
        assert(v.take(i) =~= v.drop_last());
    } else {
        lemma_present_values_at(v.drop_last(), i);
        assert(v.drop_last().take(i) =~= v.take(i));
    }
}

proof fn lemma_present_values_len(v: Seq<Option<CellV>>)
    ensures
        present_values(v).len() == count_present(v),
    decreases v.len(),
{
    if v.len() > 0 {
        lemma_present_values_len(v.drop_last());
    }
}

/// Filling the bitmap of a slice with its present values gives the slice back.
pub proof fn lemma_fill_present(v: Seq<Option<CellV>>)
    ensures
        spec_fill(spec_presence_bytes(present_flags(v)), v.len(), some_cells(present_values(v)))
            == v,
{
    let bytes = spec_presence_bytes(present_flags(v));
    lemma_presence_bits(present_flags(v));
    assert forall|k: int| 0 <= k < v.len() implies bit_at(bytes, k) == (#[trigger] v[k] is Some) by {
        assert(present_flags(v)[k] == v[k] is Some);
    }
    assert forall|i: int| 0 <= i < v.len() implies #[trigger] spec_fill(
        bytes,
        v.len(),
        some_cells(present_values(v)),
    )[i] == v[i] by {
        lemma_rank_counts(bytes, v, i);
        if v[i] is Some {
            lemma_present_values_at(v, i);
        }
    }
    assert(spec_fill(bytes, v.len(), some_cells(present_values(v))) =~= v);
}

/// When every present value is an integer, the integers are the present values.
pub proof fn lemma_int_values_present(v: Seq<Option<CellV>>)
    requires
        all_present_integers(v),
    ensures
        integer_cells(int_values(v)) == some_cells(present_values(v)),
    decreases v.len(),
{
    if v.len() > 0 {
        assert(all_present_integers(v.drop_last())) by {
            assert forall|i: int| 0 <= i < v.drop_last().len() implies (#[trigger] v.drop_last()[i] matches Some(c) ==> c is Integer) by {
                assert(v.drop_last()[i] == v[i]);
            }
        }
        lemma_int_values_present(v.drop_last());
        assert(v[v.len() - 1] == v.last());
        let a = int_values(v.drop_last());
        let b = present_values(v.drop_last());
        assert forall|k: int| 0 <= k < a.len() implies Some(CellV::Integer(a[k])) == #[trigger] some_cells(b)[k] by {
            assert(integer_cells(a)[k] == some_cells(b)[k]);
        }
        assert(a.len() == b.len()) by {
            assert(integer_cells(a).len() == some_cells(b).len());
        }
        match v.last() {
            Some(CellV::Integer(x)) => {
                assert(int_values(v) == a.push(x));
                assert(present_values(v) == b.push(CellV::Integer(x)));
                assert forall|k: int| 0 <= k < a.len() + 1 implies #[trigger] integer_cells(a.push(x))[k]
                    == some_cells(b.push(CellV::Integer(x)))[k] by {
                    if k < a.len() {
                        assert(some_cells(b)[k] == Some(b[k]));
                    }
                }
                assert(integer_cells(int_values(v)) =~= some_cells(present_values(v)));
            },
            None => {
                assert(int_values(v) == a);
                assert(present_values(v) == b);
                assert(integer_cells(int_values(v)) =~= some_cells(present_values(v)));
            },
            _ => {
                assert(v[v.len() - 1] matches Some(c) ==> c is Integer);
            },
        }
    } else {
        assert(integer_cells(int_values(v)) =~= some_cells(present_values(v)));
    }
}

/// When every present value is a string, the strings are the present values.
pub proof fn lemma_string_values_present(v: Seq<Option<CellV>>)
    requires
        all_present_strings(v),
    ensures
        string_cells(string_values(v))
            == some_cells(present_values(v)),
    decreases v.len(),
{
    if v.len() > 0 {
        assert(all_present_strings(v.drop_last())) by {
            assert forall|i: int| 0 <= i < v.drop_last().len() implies (#[trigger] v.drop_last()[i] matches Some(c) ==> c is String) by {
                assert(v.drop_last()[i] == v[i]);
            }
        }
        lemma_string_values_present(v.drop_last());
        assert(v[v.len() - 1] == v.last());
        let a = string_values(v.drop_last());
        let b = present_values(v.drop_last());
        assert(string_cells(a) == some_cells(b));
        assert(a.len() == b.len()) by {
            assert(string_cells(a).len() == some_cells(b).len());
        }
        assert forall|k: int| 0 <= k < a.len() implies Some(CellV::String(a[k])) == #[trigger] some_cells(b)[k] by {
            assert(string_cells(a)[k] == some_cells(b)[k]);
        }
        match v.last() {
            Some(CellV::String(x)) => {
                assert(string_values(v) == a.push(x));
                assert(present_values(v) == b.push(CellV::String(x)));
                assert forall|k: int| 0 <= k < a.len() + 1 implies #[trigger] string_cells(a.push(x))[k]
                    == some_cells(b.push(CellV::String(x)))[k] by {
                    if k < a.len() {
                        assert(some_cells(b)[k] == Some(b[k]));
                    }
                }
                assert(string_cells(string_values(v))
                    =~= some_cells(present_values(v)));
            },
            None => {
                assert(string_values(v) == a);
                assert(present_values(v) == b);
                assert(string_cells(string_values(v))
                    =~= some_cells(present_values(v)));
            },
            _ => {
                assert(v[v.len() - 1] matches Some(c) ==> c is String);
            },
        }
    } else {
        assert(string_cells(string_values(v))
            =~= some_cells(present_values(v)));
    }
}

/// Rows filled from a bitmap with integers.
pub fn fill_integers(present: &[u8], n: usize, vals: &[i64]) -> (out: Vec<Option<Cell>>)
    ensures
        cells_view(out@) == spec_fill(present@, n as nat, integer_cells(vals@)),
{
    let mut out: Vec<Option<Cell>> = Vec::new();
    let mut i: usize = 0;
    let mut k: usize = 0;
    while i < n
        invariant
            0 <= i <= n,
            k <= i,
            k == rank(present@, i as int),
            cells_view(out@) == spec_fill(present@, n as nat, integer_cells(vals@)).take(i as int),
        decreases n - i,
    {
        let bi = i / 8;
        let set = bi < present.len() && (present[bi] >> ((i % 8) as u8)) & 1u8 == 1u8;
        let ghost before = out@;
        if set {
            if k < vals.len() {
                out.push(Some(Cell::Integer(vals[k])));
            } else {
                out.push(None);
            }
            k = k + 1;
        } else {
            out.push(None);
        }
        i = i + 1;
        assert(cells_view(out@) =~= spec_fill(present@, n as nat, integer_cells(vals@)).take(i as int)) by {
            assert(cells_view(out@).drop_last() =~= cells_view(before));
        }
    }
    assert(spec_fill(present@, n as nat, integer_cells(vals@)).take(n as int) =~= spec_fill(present@, n as nat, integer_cells(vals@)));
    out
}

/// Rows filled from a bitmap with the dictionary strings that the indexes select.
pub fn fill_strings(present: &[u8], n: usize, dict: &[String], idx: &[u64]) -> (out: Vec<Option<Cell>>)
    ensures
        cells_view(out@) == spec_fill(present@, n as nat, dict_cells(dict@.map_values(|s: String| s@), idx@)),
{
    let ghost d = dict@.map_values(|s: String| s@);
    let mut out: Vec<Option<Cell>> = Vec::new();
    let mut i: usize = 0;
    let mut k: usize = 0;
    while i < n
        invariant
            0 <= i <= n,
            k <= i,
            k == rank(present@, i as int),
            d == dict@.map_values(|s: String| s@),
            cells_view(out@) == spec_fill(present@, n as nat, dict_cells(d, idx@)).take(i as int),
        decreases n - i,
    {
        let bi = i / 8;
        let set = bi < present.len() && (present[bi] >> ((i % 8) as u8)) & 1u8 == 1u8;
        let ghost before = out@;
        if set {
            if k < idx.len() && idx[k] < dict.len() as u64 {
                let s = dict[idx[k] as usize].clone();
                out.push(Some(Cell::String(s)));
            } else {
                out.push(None);
            }
            k = k + 1;
        } else {
            out.push(None);
        }
        i = i + 1;
        assert(cells_view(out@) =~= spec_fill(present@, n as nat, dict_cells(d, idx@)).take(i as int)) by {
            assert(cells_view(out@).drop_last() =~= cells_view(before));
        }
    }
    assert(spec_fill(present@, n as nat, dict_cells(d, idx@)).take(n as int) =~= spec_fill(present@, n as nat, dict_cells(d, idx@)));
    out
}

} // verus!
