//! Bit-packed column chunks: unsigned integers, frame-of-reference offsets,
//! and dictionary indexes.
use vstd::prelude::*;
use vstd::bytes::{spec_u32_to_le_bytes, spec_u64_to_le_bytes};
use vstd::arithmetic::power2::pow2;
use vstd::utf8::encode_utf8;
use crate::error::ArchiveError;
use crate::formats::table::{Cell, CellV};
use crate::codecs::bitpack::{bit_width, spec_bitpack_encode, spec_bitpack_decode, spec_unpack, values_fit, bits_required, encode as bitpack_encode, decode as bitpack_decode};
use crate::codecs::dict::{first_occurrences, spec_dict_positions, strings_view, encode_wide};
use crate::codecs::frame_of_reference::seq_min;
use crate::column::cells::{cells_view, spec_raw_chunk, encode_raw};
use crate::column::intchunks::{delta_chunk, encode_delta, integer_values};
use crate::column::presence::{present_flags, spec_presence_bytes, spec_fill, int_values, string_values, all_present_integers, all_present_strings, integer_cells, dict_cells, presence_bitmap, fill_integers, fill_strings, rank};
use crate::wire::{spec_read_u8, spec_read_u32, spec_read_u64, spec_read_i64, spec_read_bytes, spec_read_string, spec_bytes_field, spec_string_field, spec_i64_to_le_bytes, write_u8, write_u32, write_u64, write_i64, write_bytes, write_string, read_u8, read_u32, read_u64, read_i64, read_bytes, read_string};

verus! {

/// The largest value, or zero for none.
pub open spec fn max_u64(x: Seq<u64>) -> u64
    decreases x.len(),
{
    if x.len() == 0 {
        0
    } else if x.last() > max_u64(x.drop_last()) {
        x.last()
    } else {
        max_u64(x.drop_last())
    }
}

/// The bit width that `bits_required` picks for a largest value.
pub open spec fn spec_bits_required(m: u64) -> u8 {
    if m == 0 {
        1
    } else {
        bit_width(m as nat) as u8
    }
}

/// The two's-complement bits of each integer.
pub open spec fn as_unsigned(x: Seq<i64>) -> Seq<u64> {
    Seq::new(x.len(), |i: int| x[i] as u64)
}

/// Each value read as a two's-complement integer.
pub open spec fn as_signed(x: Seq<u64>) -> Seq<i64> {
    Seq::new(x.len(), |i: int| x[i] as i64)
}

pub open spec fn has_negative(x: Seq<i64>) -> bool {
    exists|i: int| 0 <= i < x.len() && #[trigger] x[i] < 0
}

/// The bytes of a bit-packed chunk of non-negative integers.
pub open spec fn bitpack_chunk(v: Seq<Option<CellV>>) -> Seq<u8> {
    let u = as_unsigned(int_values(v));
    let bits = spec_bits_required(max_u64(u));
    spec_bytes_field(spec_presence_bytes(present_flags(v))) + seq![bits] + spec_u64_to_le_bytes(
        u.len() as u64,
    ) + spec_bytes_field(spec_bitpack_encode(u, bits as nat))
}

/// A bit-packed chunk; a slice with a negative integer gets a delta chunk instead.
pub open spec fn spec_encode_bitpack(v: Seq<Option<CellV>>) -> Result<Seq<u8>, ArchiveError> {
    if !all_present_integers(v) {
        Err(ArchiveError::NonIntegerValue)
    } else if has_negative(int_values(v)) {
        Ok(delta_chunk(v))
    } else {
        Ok(bitpack_chunk(v))
    }
}

/// The base of a frame of reference: the smallest value, or zero for none.
pub open spec fn for_base(x: Seq<i64>) -> i64 {
    if x.len() == 0 {
        0
    } else {
        seq_min(x)
    }
}

/// Every value lies at most `i64::MAX` above the base.
pub open spec fn for_fits(x: Seq<i64>) -> bool {
    forall|i: int| 0 <= i < x.len() ==> #[trigger] x[i] - for_base(x) <= i64::MAX
}

pub open spec fn for_offsets(x: Seq<i64>) -> Seq<u64> {
    Seq::new(x.len(), |i: int| (x[i] - for_base(x)) as u64)
}

/// The bytes of a frame-of-reference chunk.
pub open spec fn for_chunk(v: Seq<Option<CellV>>) -> Seq<u8> {
    let x = int_values(v);
    let off = for_offsets(x);
    let bits = spec_bits_required(max_u64(off));
    spec_bytes_field(spec_presence_bytes(present_flags(v))) + spec_i64_to_le_bytes(for_base(x))
        + seq![bits] + spec_u64_to_le_bytes(off.len() as u64) + spec_bytes_field(
        spec_bitpack_encode(off, bits as nat),
    )
}

pub open spec fn spec_encode_for(v: Seq<Option<CellV>>) -> Result<Seq<u8>, ArchiveError> {
    if !all_present_integers(v) {
        Err(ArchiveError::NonIntegerValue)
    } else if !for_fits(int_values(v)) {
        Err(ArchiveError::OffsetOverflow)
    } else {
        Ok(for_chunk(v))
    }
}

/// The string fields of a dictionary, one after another.
pub open spec fn strings_fields(d: Seq<Seq<char>>) -> Seq<u8>
    decreases d.len(),
{
    if d.len() == 0 {
        Seq::empty()
    } else {
        strings_fields(d.drop_last()) + spec_string_field(d.last())
    }
}

/// The bit width of the indexes into a dictionary of `len` strings.
pub open spec fn dict_bits(len: nat) -> u8 {
    spec_bits_required(if len == 0 { 0 } else { (len - 1) as u64 })
}

/// The bytes of a dictionary chunk of a slice whose present values are strings.
pub open spec fn dict_chunk(v: Seq<Option<CellV>>) -> Seq<u8> {
    let s = string_values(v);
    let d = first_occurrences(s);
    let idx = spec_dict_positions(s);
    let bits = dict_bits(d.len());
    spec_bytes_field(spec_presence_bytes(present_flags(v))) + spec_u32_to_le_bytes(d.len() as u32)
        + strings_fields(d) + seq![bits] + spec_u64_to_le_bytes(idx.len() as u64) + spec_bytes_field(
        spec_bitpack_encode(idx, bits as nat),
    )
}

/// A dictionary chunk; a slice with a value that is not a string gets a raw chunk instead.
pub open spec fn spec_encode_dictionary(v: Seq<Option<CellV>>) -> Seq<u8> {
    if all_present_strings(v) {
        dict_chunk(v)
    } else {
        spec_raw_chunk(v)
    }
}

/// Reads a bit width, a count and a packed byte field from `pos` on.
pub open spec fn spec_read_packed(s: Seq<u8>, pos: int) -> Result<(u8, u64, Seq<u8>), ArchiveError> {
    match spec_read_u8(s, pos) {
        Err(e) => Err(e),
        Ok((bits, p)) => match spec_read_u64(s, p) {
            Err(e) => Err(e),
            Ok((count, q)) => match spec_read_bytes(s, q) {
                Err(e) => Err(e),
                Ok((packed, _)) => Ok((bits, count, packed)),
            },
        },
    }
}

/// Decodes a bit-packed chunk into `n` rows.
pub open spec fn spec_decode_bitpack(s: Seq<u8>, n: nat) -> Result<Seq<Option<CellV>>, ArchiveError> {
    match spec_read_bytes(s, 0) {
        Err(e) => Err(e),
        Ok((present, p)) => match spec_read_packed(s, p) {
            Err(e) => Err(e),
            Ok((bits, count, packed)) => if bits > 127 {
                Err(ArchiveError::BadBitWidth(bits))
            } else {
                Ok(spec_fill(present, n, integer_cells(as_signed(spec_unpack(packed, bits, count as nat)))))
            },
        },
    }
}

/// The values of a frame of reference: the base plus each offset, wrapping.
pub open spec fn for_values(base: i64, off: Seq<u64>) -> Seq<i64> {
    Seq::new(off.len(), |i: int| base.wrapping_add(off[i] as i64))
}

/// Decodes a frame-of-reference chunk into `n` rows.
pub open spec fn spec_decode_for(s: Seq<u8>, n: nat) -> Result<Seq<Option<CellV>>, ArchiveError> {
    match spec_read_bytes(s, 0) {
        Err(e) => Err(e),
        Ok((present, p)) => match spec_read_i64(s, p) {
            Err(e) => Err(e),
            Ok((base, q)) => match spec_read_packed(s, q) {
                Err(e) => Err(e),
                Ok((bits, count, packed)) => if bits > 127 {
                    Err(ArchiveError::BadBitWidth(bits))
                } else {
                    Ok(spec_fill(present, n, integer_cells(for_values(base, spec_unpack(packed, bits, count as nat)))))
                },
            },
        },
    }
}

/// Reads `n` string fields from `pos` on.
pub open spec fn spec_read_strings(s: Seq<u8>, pos: int, n: nat) -> Result<(Seq<Seq<char>>, int), ArchiveError>
    decreases n,
{
    if n == 0 {
        Ok((Seq::empty(), pos))
    } else {
        match spec_read_strings(s, pos, (n - 1) as nat) {
            Err(e) => Err(e),
            Ok((d, p)) => match spec_read_string(s, p) {
                Err(e) => Err(e),
                Ok((x, q)) => Ok((d.push(x), q)),
            },
        }
    }
}

/// Decodes a dictionary chunk into `n` rows.
pub open spec fn spec_decode_dictionary(s: Seq<u8>, n: nat) -> Result<Seq<Option<CellV>>, ArchiveError> {
    match spec_read_bytes(s, 0) {
        Err(e) => Err(e),
        Ok((present, p)) => match spec_read_u32(s, p) {
            Err(e) => Err(e),
            Ok((len, q)) => match spec_read_strings(s, q, len as nat) {
                Err(e) => Err(e),
                Ok((d, r)) => match spec_read_packed(s, r) {
                    Err(e) => Err(e),
                    Ok((bits, count, packed)) => if bits > 127 {
                        Err(ArchiveError::BadBitWidth(bits))
                    } else {
                        Ok(spec_fill(present, n, dict_cells(d, spec_unpack(packed, bits, count as nat))))
                    },
                },
            },
        },
    }
}

/// The largest value, or zero for none.
fn max_of(x: &[u64]) -> (m: u64)
    ensures
        m == max_u64(x@),
{
    let mut m: u64 = 0;
    let mut i: usize = 0;
    while i < x.len()
        invariant
            0 <= i <= x.len(),
            m == max_u64(x@.take(i as int)),
        decreases x.len() - i,
    {
        assert(x@.take(i + 1).drop_last() =~= x@.take(i as int));
        if x[i] > m {
            m = x[i];
        }
        i = i + 1;
    }
    assert(x@.take(x.len() as int) =~= x@);
    m
}

#[verifier::spinoff_prover]
pub proof fn lemma_max_u64(x: Seq<u64>)
    ensures
        forall|i: int| 0 <= i < x.len() ==> #[trigger] x[i] <= max_u64(x),
    decreases x.len(),
{
    if x.len() > 0 {
        lemma_max_u64(x.drop_last());
        assert forall|i: int| 0 <= i < x.len() implies #[trigger] x[i] <= max_u64(x) by {
            if i < x.len() - 1 {
                assert(x[i] == x.drop_last()[i]);
            }
        }
    }
}

/// Values no larger than `m` fit in the width that `bits_required` picks for `m`.
#[verifier::spinoff_prover]
proof fn lemma_fit_bits(x: Seq<u64>, m: u64, b: u8)
    requires
        forall|i: int| 0 <= i < x.len() ==> #[trigger] x[i] <= m,
        m < pow2(b as nat),
    ensures
        values_fit(x, b as nat),
{
}

/// Bit-packs values with the width their largest value needs.
fn pack_values(x: &[u64]) -> (r: (u8, Vec<u8>))
    ensures
        r.0 == spec_bits_required(max_u64(x@)),
        r.0 <= 64,
        values_fit(x@, r.0 as nat),
        r.1@ == spec_bitpack_encode(x@, r.0 as nat),
{
    let m = max_of(x);
    let bits = bits_required(m);
    proof {
        lemma_max_u64(x@);
        lemma_fit_bits(x@, m, bits);
    }
    let packed = bitpack_encode(x, bits);
    (bits, packed)
}

/// Reads a bit width, a count and a packed byte field.
fn read_packed(s: &[u8], pos: usize) -> (r: Result<(u8, u64, Vec<u8>), ArchiveError>)
    ensures
        match (r, spec_read_packed(s@, pos as int)) {
            (Ok((a, b, c)), Ok((x, y, z))) => a == x && b == y && c@ == z,
            (Err(e1), Err(e2)) => e1 == e2,
            _ => false,
        },
{
    let (bits, p) = match read_u8(s, pos) {
        Ok(x) => x,
        Err(e) => return Err(e),
    };
    let (count, q) = match read_u64(s, p) {
        Ok(x) => x,
        Err(e) => return Err(e),
    };
    match read_bytes(s, q) {
        Ok((packed, _)) => Ok((bits, count, packed)),
        Err(e) => Err(e),
    }
}

/// The number of rank positions that `n` rows can reach: `min(count, n)`.
fn needed(count: u64, n: usize) -> (m: usize)
    ensures
        m == (if (count as int) < (n as int) { count as int } else { n as int }),
{
    if count < n as u64 {
        count as usize
    } else {
        n
    }
}

#[verifier::spinoff_prover]
proof fn lemma_rank_le(bytes: Seq<u8>, i: int)
    requires
        0 <= i,
    ensures
        rank(bytes, i) <= i,
    decreases i,
{
    if i > 0 {
        lemma_rank_le(bytes, i - 1);
    }
}

/// Filling needs no value past position `min(len, n)`.
#[verifier::spinoff_prover]
proof fn lemma_fill_prefix(bytes: Seq<u8>, n: nat, a: Seq<Option<CellV>>, b: Seq<Option<CellV>>)
    requires
        a.len() <= b.len(),
        a.len() == b.len() || a.len() >= n,
        forall|k: int| 0 <= k < a.len() ==> #[trigger] a[k] == b[k],
    ensures
        spec_fill(bytes, n, a) == spec_fill(bytes, n, b),
{
    assert forall|i: int| 0 <= i < n implies #[trigger] spec_fill(bytes, n, a)[i] == spec_fill(bytes, n, b)[i] by {
        lemma_rank_le(bytes, i);
    }
    assert(spec_fill(bytes, n, a) =~= spec_fill(bytes, n, b));
}

/// Encodes a bit-packed chunk.
pub fn encode_bitpack(values: &[Option<Cell>]) -> (r: Result<Vec<u8>, ArchiveError>)
    ensures
        match (r, spec_encode_bitpack(cells_view(values@))) {
            (Ok(b), Ok(c)) => b@ == c,
            (Err(e1), Err(e2)) => e1 == e2,
            _ => false,
        },
{
    let present = presence_bitmap(values);
    let ints = match integer_values(values) {
        Ok(x) => x,
        Err(e) => return Err(e),
    };
    let mut unsigned: Vec<u64> = Vec::new();
    let mut i: usize = 0;
    while i < ints.len()
        invariant
            0 <= i <= ints.len(),
            unsigned@ == as_unsigned(ints@).take(i as int),
            all_present_integers(cells_view(values@)),
            ints@ == int_values(cells_view(values@)),
            forall|k: int| 0 <= k < i ==> ints@[k] >= 0,
        decreases ints.len() - i,
    {
        if ints[i] < 0 {
            assert(ints@[i as int] < 0);
            assert(has_negative(ints@));
            return encode_delta(values);
        }
        unsigned.push(ints[i] as u64);
        i = i + 1;
        assert(unsigned@ =~= as_unsigned(ints@).take(i as int));
    }
    assert(unsigned@ =~= as_unsigned(ints@));
    assert(!has_negative(ints@));
    let (bits, packed) = pack_values(unsigned.as_slice());
    let mut out: Vec<u8> = Vec::new();
    write_bytes(&mut out, present.as_slice());
    write_u8(&mut out, bits);
    write_u64(&mut out, unsigned.len() as u64);
    write_bytes(&mut out, packed.as_slice());
    Ok(out)
}

/// Decodes a bit-packed chunk into `row_count` rows.
pub fn decode_bitpack(s: &[u8], row_count: usize) -> (r: Result<Vec<Option<Cell>>, ArchiveError>)
    ensures
        match (r, spec_decode_bitpack(s@, row_count as nat)) {
            (Ok(c), Ok(d)) => cells_view(c@) == d,
            (Err(e1), Err(e2)) => e1 == e2,
            _ => false,
        },
{
    let (present, p) = match read_bytes(s, 0) {
        Ok(x) => x,
        Err(e) => return Err(e),
    };
    let (bits, count, packed) = match read_packed(s, p) {
        Ok(x) => x,
        Err(e) => return Err(e),
    };
    if bits > 127 {
        return Err(ArchiveError::BadBitWidth(bits));
    }
    let m = needed(count, row_count);
    let vals = bitpack_decode(packed.as_slice(), bits, m);
    let mut ints: Vec<i64> = Vec::new();
    let mut i: usize = 0;
    while i < vals.len()
        invariant
            0 <= i <= vals.len(),
            ints@ == as_signed(vals@).take(i as int),
        decreases vals.len() - i,
    {
        ints.push(vals[i] as i64);
        i = i + 1;
        assert(ints@ =~= as_signed(vals@).take(i as int));
    }
    assert(ints@ =~= as_signed(vals@));
    let out = fill_integers(present.as_slice(), row_count, ints.as_slice());
    proof {
        crate::codecs::bitpack::lemma_unpack_prefix(packed@, bits, m as nat, count as nat);
        let full = integer_cells(as_signed(spec_unpack(packed@, bits, count as nat)));
        lemma_fill_prefix(present@, row_count as nat, integer_cells(ints@), full);
    }
    Ok(out)
}

/// Encodes a frame-of-reference chunk.
pub fn encode_frame_of_reference(values: &[Option<Cell>]) -> (r: Result<Vec<u8>, ArchiveError>)
    ensures
        match (r, spec_encode_for(cells_view(values@))) {
            (Ok(b), Ok(c)) => b@ == c,
            (Err(e1), Err(e2)) => e1 == e2,
            _ => false,
        },
{
    let present = presence_bitmap(values);
    let ints = match integer_values(values) {
        Ok(x) => x,
        Err(e) => return Err(e),
    };
    let mut base: i64 = 0;
    if ints.len() > 0 {
        base = ints[0];
        let mut i: usize = 1;
        assert(ints@.take(1) =~= seq![ints@[0]]);
        while i < ints.len()
            invariant
                1 <= i <= ints.len(),
                base == seq_min(ints@.take(i as int)),
            decreases ints.len() - i,
        {
            assert(ints@.take(i + 1).drop_last() =~= ints@.take(i as int));
            if ints[i] < base {
                base = ints[i];
            }
            i = i + 1;
        }
        assert(ints@.take(ints.len() as int) =~= ints@);
    }
    assert(base == for_base(ints@));
    let mut offsets: Vec<u64> = Vec::new();
    let mut k: usize = 0;
    while k < ints.len()
        invariant
            0 <= k <= ints.len(),
            base == for_base(ints@),
            offsets@ == for_offsets(ints@).take(k as int),
            all_present_integers(cells_view(values@)),
            ints@ == int_values(cells_view(values@)),
            forall|j: int| 0 <= j < k ==> #[trigger] ints@[j] - for_base(ints@) <= i64::MAX,
        decreases ints.len() - k,
    {
        let d: i128 = ints[k] as i128 - base as i128;
        if d > i64::MAX as i128 {
            assert(ints@[k as int] - for_base(ints@) > i64::MAX);
            assert(!for_fits(ints@));
            return Err(ArchiveError::OffsetOverflow);
        }
        offsets.push(d as u64);
        k = k + 1;
        assert(offsets@ =~= for_offsets(ints@).take(k as int));
    }
    assert(offsets@ =~= for_offsets(ints@));
    let (bits, packed) = pack_values(offsets.as_slice());
    let mut out: Vec<u8> = Vec::new();
    write_bytes(&mut out, present.as_slice());
    write_i64(&mut out, base);
    write_u8(&mut out, bits);
    write_u64(&mut out, offsets.len() as u64);
    write_bytes(&mut out, packed.as_slice());
    Ok(out)
}

/// Decodes a frame-of-reference chunk into `row_count` rows.
pub fn decode_frame_of_reference(s: &[u8], row_count: usize) -> (r: Result<Vec<Option<Cell>>, ArchiveError>)
    ensures
        match (r, spec_decode_for(s@, row_count as nat)) {
            (Ok(c), Ok(d)) => cells_view(c@) == d,
            (Err(e1), Err(e2)) => e1 == e2,
            _ => false,
        },
{
    let (present, p) = match read_bytes(s, 0) {
        Ok(x) => x,
        Err(e) => return Err(e),
    };
    let (base, q) = match read_i64(s, p) {
        Ok(x) => x,
        Err(e) => return Err(e),
    };
    let (bits, count, packed) = match read_packed(s, q) {
        Ok(x) => x,
        Err(e) => return Err(e),
    };
    if bits > 127 {
        return Err(ArchiveError::BadBitWidth(bits));
    }
    let m = needed(count, row_count);
    let vals = bitpack_decode(packed.as_slice(), bits, m);
    let mut ints: Vec<i64> = Vec::new();
    let mut i: usize = 0;
    while i < vals.len()
        invariant
            0 <= i <= vals.len(),
            ints@ == for_values(base, vals@).take(i as int),
        decreases vals.len() - i,
    {
        ints.push(base.wrapping_add(vals[i] as i64));
        i = i + 1;
        assert(ints@ =~= for_values(base, vals@).take(i as int));
    }
    assert(ints@ =~= for_values(base, vals@));
    let out = fill_integers(present.as_slice(), row_count, ints.as_slice());
    proof {
        crate::codecs::bitpack::lemma_unpack_prefix(packed@, bits, m as nat, count as nat);
        let full = integer_cells(for_values(base, spec_unpack(packed@, bits, count as nat)));
        lemma_fill_prefix(present@, row_count as nat, integer_cells(ints@), full);
    }
    Ok(out)
}

/// Appends each string as a string field.
fn write_strings(out: &mut Vec<u8>, d: &[String])
    ensures
        final(out)@ == old(out)@ + strings_fields(strings_view(d@)),
{
    let mut i: usize = 0;
    while i < d.len()
        invariant
            0 <= i <= d.len(),
            out@ == old(out)@ + strings_fields(strings_view(d@.take(i as int))),
        decreases d.len() - i,
    {
        assert(strings_view(d@.take(i + 1)).drop_last() =~= strings_view(d@.take(i as int)));
        write_string(out, d[i].as_str());
        i = i + 1;
        assert(out@ =~= old(out)@ + strings_fields(strings_view(d@.take(i as int))));
    }
    assert(d@.take(d.len() as int) =~= d@);
}

#[verifier::spinoff_prover]
proof fn lemma_strings_error_persists(s: Seq<u8>, pos: int, n: nat, m: nat)
    requires
        n <= m,
        spec_read_strings(s, pos, n) is Err,
    ensures
        spec_read_strings(s, pos, m) == spec_read_strings(s, pos, n),
    decreases m - n,
{
    if n < m {
        lemma_strings_error_persists(s, pos, n, (m - 1) as nat);
    }
}

/// Reads `n` string fields.
fn read_strings(s: &[u8], pos: usize, n: u32) -> (r: Result<(Vec<String>, usize), ArchiveError>)
    ensures
        match (r, spec_read_strings(s@, pos as int, n as nat)) {
            (Ok((d, p)), Ok((e, q))) => strings_view(d@) == e && p == q,
            (Err(e1), Err(e2)) => e1 == e2,
            _ => false,
        },
{
    let mut out: Vec<String> = Vec::new();
    let mut p = pos;
    let mut i: u32 = 0;
    assert(strings_view(out@) =~= Seq::<Seq<char>>::empty());
    while i < n
        invariant
            0 <= i <= n,
            spec_read_strings(s@, pos as int, i as nat) == Ok::<(Seq<Seq<char>>, int), ArchiveError>(
                (strings_view(out@), p as int),
            ),
        decreases n - i,
    {
        let ghost before = out@;
        match read_string(s, p) {
            Ok((x, q)) => {
                out.push(x);
                p = q;
                assert(strings_view(out@) =~= strings_view(before).push(x@));
            },
            Err(e) => {
                proof {
                    lemma_strings_error_persists(s@, pos as int, (i + 1) as nat, n as nat);
                }
                return Err(e);
            },
        }
        i = i + 1;
    }
    Ok((out, p))
}

/// Encodes a dictionary chunk.
pub fn encode_dictionary(values: &[Option<Cell>]) -> (out: Vec<u8>)
    ensures
        out@ == spec_encode_dictionary(cells_view(values@)),
{
    let ghost v = cells_view(values@);
    let present = presence_bitmap(values);
    let mut strings: Vec<String> = Vec::new();
    let mut i: usize = 0;
    while i < values.len()
        invariant
            0 <= i <= values.len(),
            v == cells_view(values@),
            all_present_strings(v.take(i as int)),
            strings_view(strings@) == string_values(v.take(i as int)),
        decreases values.len() - i,
    {
        assert(v.take(i + 1).drop_last() =~= v.take(i as int));
        assert(v[i as int] == values@[i as int].deep_view());
        match &values[i] {
            None => {},
            Some(Cell::String(x)) => {
                let ghost before = strings@;
                strings.push(x.clone());
                assert(strings_view(strings@) =~= strings_view(before).push(x@));
            },
            Some(_) => {
                assert(!(v[i as int] matches Some(c) ==> c is String));
                assert(!all_present_strings(v)) by {
                    assert(0 <= i < v.len());
                }
                return encode_raw(values);
            },
        }
        i = i + 1;
        assert(all_present_strings(v.take(i as int))) by {
            assert forall|k: int| 0 <= k < v.take(i as int).len() implies (#[trigger] v.take(i as int)[k] matches Some(c) ==> c is String) by {
                if k < i - 1 {
                    assert(v.take(i as int)[k] == v.take(i - 1)[k]);
                }
            }
        }
    }
    assert(v.take(values.len() as int) =~= v);
    let (dict, idx) = encode_wide(strings.as_slice());
    let top: u64 = if dict.len() == 0 { 0 } else { (dict.len() - 1) as u64 };
    let bits = bits_required(top);
    proof {
        crate::codecs::dict::lemma_dict_positions(strings_view(strings@));
        assert forall|k: int| 0 <= k < idx@.len() implies #[trigger] idx@[k] <= top by {}
        lemma_fit_bits(idx@, top, bits);
    }
    let packed = bitpack_encode(idx.as_slice(), bits);
    let mut out: Vec<u8> = Vec::new();
    write_bytes(&mut out, present.as_slice());
    write_u32(&mut out, dict.len() as u32);
    write_strings(&mut out, dict.as_slice());
    write_u8(&mut out, bits);
    write_u64(&mut out, idx.len() as u64);
    write_bytes(&mut out, packed.as_slice());
    assert(out@ =~= dict_chunk(v));
    out
}

/// Decodes a dictionary chunk into `row_count` rows.
pub fn decode_dictionary(s: &[u8], row_count: usize) -> (r: Result<Vec<Option<Cell>>, ArchiveError>)
    ensures
        match (r, spec_decode_dictionary(s@, row_count as nat)) {
            (Ok(c), Ok(d)) => cells_view(c@) == d,
            (Err(e1), Err(e2)) => e1 == e2,
            _ => false,
        },
{
    let (present, p) = match read_bytes(s, 0) {
        Ok(x) => x,
        Err(e) => return Err(e),
    };
    let (len, q) = match read_u32(s, p) {
        Ok(x) => x,
        Err(e) => return Err(e),
    };
    let (dict, r) = match read_strings(s, q, len) {
        Ok(x) => x,
        Err(e) => return Err(e),
    };
    let (bits, count, packed) = match read_packed(s, r) {
        Ok(x) => x,
        Err(e) => return Err(e),
    };
    if bits > 127 {
        return Err(ArchiveError::BadBitWidth(bits));
    }
    let m = needed(count, row_count);
    let idx = bitpack_decode(packed.as_slice(), bits, m);
    let out = fill_strings(present.as_slice(), row_count, dict.as_slice(), idx.as_slice());
    proof {
        let d = strings_view(dict@);
        assert(dict@.map_values(|x: String| x@) =~= d);
        crate::codecs::bitpack::lemma_unpack_prefix(packed@, bits, m as nat, count as nat);
        let full = dict_cells(d, spec_unpack(packed@, bits, count as nat));
        lemma_fill_prefix(present@, row_count as nat, dict_cells(d, idx@), full);
    }
    Ok(out)
}

/// The width that `bits_required` picks holds the value and is at most 64.
#[verifier::spinoff_prover]
pub proof fn lemma_spec_bits_required(m: u64)
    ensures
        1 <= spec_bits_required(m) <= 64,
        m < pow2(spec_bits_required(m) as nat),
{
    vstd::arithmetic::power2::lemma2_to64();
    vstd::arithmetic::power2::lemma2_to64_rest();
    crate::codecs::bitpack::lemma_bit_width(m as nat);
    crate::codecs::bitpack::lemma_bit_width_le(m as nat, 64);
    if m > 0 {
        assert(bit_width(m as nat) >= 1) by {
            assert(bit_width(m as nat) == 1 + bit_width((m / 2) as nat));
        }
    }
}

/// Reading a width, a count and a packed field where they stand.
#[verifier::spinoff_prover]
proof fn lemma_read_packed_of(s: Seq<u8>, pos: int, bits: u8, count: u64, packed: Seq<u8>)
    requires
        0 <= pos,
        packed.len() <= u64::MAX,
        pos + 17 + packed.len() <= s.len(),
        s.subrange(pos, pos + 17 + packed.len()) == seq![bits] + spec_u64_to_le_bytes(count)
            + spec_bytes_field(packed),
    ensures
        spec_read_packed(s, pos) == Ok::<(u8, u64, Seq<u8>), ArchiveError>((bits, count, packed)),
{
    let c = spec_u64_to_le_bytes(count);
    let f = spec_bytes_field(packed);
    crate::wire::lemma_le_lengths(0, count);
    crate::wire::lemma_le_lengths(0, packed.len() as u64);
    let all = seq![bits] + c + f;
    assert(s[pos] == all[0]);
    assert(s.subrange(pos + 1, pos + 9) =~= c) by {
        assert forall|j: int| 0 <= j < 8 implies s.subrange(pos + 1, pos + 9)[j] == c[j] by {
            assert(s.subrange(pos, pos + 17 + packed.len())[1 + j] == all[1 + j]);
        }
    }
    crate::wire::lemma_read_u64_of(s, pos + 1, count);
    assert(s.subrange(pos + 9, pos + 9 + 8 + packed.len()) =~= f) by {
        assert forall|j: int| 0 <= j < f.len() implies s.subrange(pos + 9, pos + 9 + 8 + packed.len())[j] == f[j] by {
            assert(s.subrange(pos, pos + 17 + packed.len())[9 + j] == all[9 + j]);
        }
    }
    crate::wire::lemma_read_bytes_of(s, pos + 9, packed);
}

/// The values of a prefix-free split `a + b`: reading `a` at the start.
#[verifier::spinoff_prover]
proof fn lemma_split(a: Seq<u8>, b: Seq<u8>)
    ensures
        (a + b).subrange(0, a.len() as int) == a,
        (a + b).subrange(a.len() as int, (a.len() + b.len()) as int) == b,
{
    assert((a + b).subrange(0, a.len() as int) =~= a);
    assert((a + b).subrange(a.len() as int, (a.len() + b.len()) as int) =~= b);
}

#[verifier::spinoff_prover]
proof fn lemma_int_values_len(v: Seq<Option<CellV>>)
    ensures
        int_values(v).len() <= v.len(),
    decreases v.len(),
{
    if v.len() > 0 {
        lemma_int_values_len(v.drop_last());
    }
}

/// A bit-packed chunk of non-negative integers decodes to the slice it was made from.
#[verifier::spinoff_prover]
pub proof fn lemma_bitpack_chunk_roundtrip(v: Seq<Option<CellV>>)
    requires
        all_present_integers(v),
        !has_negative(int_values(v)),
        v.len() <= 0x0fff_ffff_ffff_ffff,
    ensures
        spec_decode_bitpack(bitpack_chunk(v), v.len()) == Ok::<Seq<Option<CellV>>, ArchiveError>(v),
{
    let x = int_values(v);
    let u = as_unsigned(x);
    let m = max_u64(u);
    let bits = spec_bits_required(m);
    lemma_spec_bits_required(m);
    lemma_max_u64(u);
    lemma_fit_bits(u, m, bits);
    crate::codecs::bitpack::lemma_bitpack_roundtrip(u, bits as nat);
    let pb = spec_presence_bytes(present_flags(v));
    let packed = spec_bitpack_encode(u, bits as nat);
    let a = spec_bytes_field(pb);
    let b = seq![bits] + spec_u64_to_le_bytes(u.len() as u64) + spec_bytes_field(packed);
    lemma_int_values_len(v);
    assert(packed.len() <= u64::MAX) by {
        assert(packed.len() == crate::codecs::bitpack::packed_len(u.len(), bits as nat));
        assert(u.len() * bits <= u.len() * 64) by (nonlinear_arith)
            requires bits <= 64;
    }
    crate::wire::lemma_le_lengths(0, pb.len() as u64);
    crate::wire::lemma_le_lengths(0, u.len() as u64);
    crate::wire::lemma_le_lengths(0, packed.len() as u64);
    assert(bitpack_chunk(v) =~= a + b);
    lemma_split(a, b);
    crate::wire::lemma_read_bytes_of(a + b, 0, pb);
    lemma_read_packed_of(a + b, a.len() as int, bits, u.len() as u64, packed);
    assert(as_signed(u) =~= x) by {
        assert forall|i: int| 0 <= i < x.len() implies #[trigger] as_signed(u)[i] == x[i] by {
            if x[i] < 0 {
                assert(has_negative(x));
            }
        }
    }
    crate::column::presence::lemma_int_values_present(v);
    crate::column::presence::lemma_fill_present(v);
}

/// A frame-of-reference chunk decodes to the slice it was made from.
#[verifier::spinoff_prover]
pub proof fn lemma_for_chunk_roundtrip(v: Seq<Option<CellV>>)
    requires
        all_present_integers(v),
        for_fits(int_values(v)),
        v.len() <= 0x0fff_ffff_ffff_ffff,
    ensures
        spec_decode_for(for_chunk(v), v.len()) == Ok::<Seq<Option<CellV>>, ArchiveError>(v),
{
    let x = int_values(v);
    let base = for_base(x);
    let off = for_offsets(x);
    let m = max_u64(off);
    let bits = spec_bits_required(m);
    lemma_spec_bits_required(m);
    lemma_max_u64(off);
    lemma_fit_bits(off, m, bits);
    crate::codecs::bitpack::lemma_bitpack_roundtrip(off, bits as nat);
    let pb = spec_presence_bytes(present_flags(v));
    let packed = spec_bitpack_encode(off, bits as nat);
    let a = spec_bytes_field(pb);
    let bb = spec_i64_to_le_bytes(base);
    let b = seq![bits] + spec_u64_to_le_bytes(off.len() as u64) + spec_bytes_field(packed);
    lemma_int_values_len(v);
    assert(packed.len() <= u64::MAX) by {
        assert(packed.len() == crate::codecs::bitpack::packed_len(off.len(), bits as nat));
        assert(off.len() * bits <= off.len() * 64) by (nonlinear_arith)
            requires bits <= 64;
    }
    crate::wire::lemma_le_lengths(0, pb.len() as u64);
    crate::wire::lemma_le_lengths(0, off.len() as u64);
    crate::wire::lemma_le_lengths(0, packed.len() as u64);
    crate::wire::lemma_le_lengths(0, base as u64);
    assert(for_chunk(v) =~= a + (bb + b));
    lemma_split(a, bb + b);
    crate::wire::lemma_read_bytes_of(a + (bb + b), 0, pb);
    let s = a + (bb + b);
    let al = a.len() as int;
    assert(s.subrange(al, al + 8) =~= bb);
    crate::wire::lemma_read_i64_of(s, a.len() as int, base);
    assert(s.subrange(al + 8, al + 8 + 17 + packed.len()) =~= b);
    lemma_read_packed_of(s, al + 8, bits, off.len() as u64, packed);
    if x.len() > 0 {
        crate::codecs::frame_of_reference::lemma_seq_min(x);
    }
    assert(for_values(base, off) =~= x) by {
        assert forall|i: int| 0 <= i < x.len() implies #[trigger] for_values(base, off)[i] == x[i] by {
            assert(x[i] - base <= i64::MAX);
            assert(base <= x[i]);
        }
    }
    crate::column::presence::lemma_int_values_present(v);
    crate::column::presence::lemma_fill_present(v);
}

/// Reading string fields where they stand gives the strings back.
#[verifier::spinoff_prover]
pub proof fn lemma_read_strings_of(s: Seq<u8>, pos: int, d: Seq<Seq<char>>)
    requires
        0 <= pos,
        pos + strings_fields(d).len() <= s.len(),
        s.subrange(pos, pos + strings_fields(d).len()) == strings_fields(d),
        forall|k: int| 0 <= k < d.len() ==> (#[trigger] encode_utf8(d[k])).len() <= u64::MAX,
    ensures
        spec_read_strings(s, pos, d.len()) == Ok::<(Seq<Seq<char>>, int), ArchiveError>(
            (d, pos + strings_fields(d).len()),
        ),
    decreases d.len(),
{
    if d.len() > 0 {
        let a = strings_fields(d.drop_last());
        let b = spec_string_field(d.last());
        assert(strings_fields(d) == a + b);
        assert(s.subrange(pos, pos + a.len()) =~= a) by {
            assert forall|j: int| 0 <= j < a.len() implies s.subrange(pos, pos + a.len())[j] == a[j] by {
                assert(s.subrange(pos, pos + strings_fields(d).len())[j] == (a + b)[j]);
            }
        }
        assert forall|k: int| 0 <= k < d.drop_last().len() implies (#[trigger] encode_utf8(d.drop_last()[k])).len() <= u64::MAX by {
            assert(d.drop_last()[k] == d[k]);
        }
        lemma_read_strings_of(s, pos, d.drop_last());
        assert(s.subrange(pos + a.len(), pos + a.len() + b.len()) =~= b) by {
            assert forall|j: int| 0 <= j < b.len() implies s.subrange(pos + a.len(), pos + a.len() + b.len())[j] == b[j] by {
                assert(s.subrange(pos, pos + strings_fields(d).len())[a.len() + j] == (a + b)[a.len() + j]);
            }
        }
        assert(encode_utf8(d[d.len() - 1]).len() <= u64::MAX);
        crate::wire::lemma_read_string_of(s, pos + a.len(), d.last());
        assert(d.drop_last().push(d.last()) =~= d);
        assert((d.len() - 1) as nat == d.drop_last().len());
    } else {
        assert(d =~= Seq::<Seq<char>>::empty());
    }
}

/// Every string of `string_values(v)` is the text of a string cell of `v`.
#[verifier::spinoff_prover]
pub proof fn lemma_string_values_from(v: Seq<Option<CellV>>)
    ensures
        forall|k: int| 0 <= k < string_values(v).len() ==> exists|i: int| 0 <= i < v.len()
            && v[i] == Some(CellV::String(#[trigger] string_values(v)[k])),
    decreases v.len(),
{
    if v.len() > 0 {
        lemma_string_values_from(v.drop_last());
        let r = string_values(v.drop_last());
        assert forall|k: int| 0 <= k < string_values(v).len() implies exists|i: int| 0 <= i < v.len()
            && v[i] == Some(CellV::String(#[trigger] string_values(v)[k])) by {
            if k < r.len() {
                assert(string_values(v)[k] == r[k]);
                let i = choose|i: int| 0 <= i < v.drop_last().len() && v.drop_last()[i] == Some(CellV::String(r[k]));
                assert(v[i] == v.drop_last()[i]);
            } else {
                assert(v[v.len() - 1] == v.last());
            }
        }
    }
}

proof fn lemma_packed_small(n: nat, bits: nat)
    requires
        n <= 0x0fff_ffff_ffff_ffff,
        bits <= 64,
    ensures
        crate::codecs::bitpack::packed_len(n, bits) <= u64::MAX,
{
    assert(n * bits <= 0x0fff_ffff_ffff_ffff * 64) by (nonlinear_arith)
        requires
            n <= 0x0fff_ffff_ffff_ffff,
            bits <= 64,
    ;
}

/// A dictionary chunk decodes to the slice it was made from, where the
/// distinct strings are few enough for the chunk's `u32` count.
#[verifier::rlimit(100)]
#[verifier::spinoff_prover]
pub proof fn lemma_dict_chunk_roundtrip(v: Seq<Option<CellV>>)
    requires
        all_present_strings(v),
        v.len() <= 0x0fff_ffff_ffff_ffff,
        first_occurrences(string_values(v)).len() <= u32::MAX,
        forall|k: int| 0 <= k < string_values(v).len() ==> (#[trigger] encode_utf8(string_values(v)[k])).len() <= u64::MAX,
    ensures
        spec_decode_dictionary(dict_chunk(v), v.len()) == Ok::<Seq<Option<CellV>>, ArchiveError>(v),
{
    let st = string_values(v);
    let d = first_occurrences(st);
    let idx = spec_dict_positions(st);
    let bits = dict_bits(d.len());
    let top: u64 = if d.len() == 0 { 0 } else { (d.len() - 1) as u64 };
    crate::codecs::dict::lemma_dict_positions(st);
    crate::codecs::dict::lemma_first_occurrences(st);
    lemma_string_values_len(v);
    lemma_spec_bits_required(top);
    assert forall|k: int| 0 <= k < idx.len() implies #[trigger] idx[k] <= top by {}
    lemma_fit_bits(idx, top, bits);
    crate::codecs::bitpack::lemma_bitpack_roundtrip(idx, bits as nat);
    let pb = spec_presence_bytes(present_flags(v));
    let packed = spec_bitpack_encode(idx, bits as nat);
    assert(idx.len() <= v.len());
    assert(packed.len() <= u64::MAX) by {
        assert(packed.len() == crate::codecs::bitpack::packed_len(idx.len(), bits as nat));
        lemma_packed_small(idx.len(), bits as nat);
    }
    let a = spec_bytes_field(pb);
    let lenb = spec_u32_to_le_bytes(d.len() as u32);
    let sf = strings_fields(d);
    let b = seq![bits] + spec_u64_to_le_bytes(idx.len() as u64) + spec_bytes_field(packed);
    crate::wire::lemma_le_lengths(d.len() as u32, pb.len() as u64);
    crate::wire::lemma_le_lengths(0, idx.len() as u64);
    crate::wire::lemma_le_lengths(0, packed.len() as u64);
    let s = a + (lenb + (sf + b));
    assert(dict_chunk(v) =~= s);
    lemma_split(a, lenb + (sf + b));
    crate::wire::lemma_read_bytes_of(s, 0, pb);
    let al = a.len() as int;
    assert(s.subrange(al, al + 4) =~= lenb);
    crate::wire::lemma_read_u32_of(s, al, d.len() as u32);
    assert(s.subrange(al + 4, al + 4 + sf.len()) =~= sf);
    assert forall|k: int| 0 <= k < d.len() implies (#[trigger] encode_utf8(d[k])).len() <= u64::MAX by {
        assert(d.contains(d[k]));
        assert(st.contains(d[k]));
        let j = choose|j: int| 0 <= j < st.len() && st[j] == d[k];
        assert(encode_utf8(st[j]).len() <= u64::MAX);
    }
    assert((d.len() as u32) as nat == d.len());
    lemma_read_strings_of(s, al + 4, d);
    assert(s.subrange(al + 4 + sf.len(), al + 4 + sf.len() + 17 + packed.len()) =~= b);
    lemma_read_packed_of(s, al + 4 + sf.len(), bits, idx.len() as u64, packed);
    assert(dict_cells(d, idx) =~= crate::column::presence::string_cells(st)) by {
        assert forall|k: int| 0 <= k < idx.len() implies #[trigger] dict_cells(d, idx)[k]
            == crate::column::presence::string_cells(st)[k] by {
            assert(0 <= crate::codecs::dict::position_of(d, st[k]) < d.len());
        }
    }
    crate::column::presence::lemma_string_values_present(v);
    crate::column::presence::lemma_fill_present(v);
}

#[verifier::spinoff_prover]
pub(crate) proof fn lemma_string_values_len(v: Seq<Option<CellV>>)
    ensures
        string_values(v).len() <= v.len(),
    decreases v.len(),
{
    if v.len() > 0 {
        lemma_string_values_len(v.drop_last());
    }
}

} // verus!
