//! Little-endian fields, variable-length integers and length-prefixed bytes.
use vstd::prelude::*;
use vstd::bytes::{
    spec_u32_to_le_bytes, spec_u32_from_le_bytes, spec_u64_to_le_bytes, spec_u64_from_le_bytes,
    lemma_auto_spec_u32_to_from_le_bytes, lemma_auto_spec_u64_to_from_le_bytes,
};
use vstd::utf8::{valid_utf8, decode_utf8, encode_utf8};
use crate::error::ArchiveError;
use crate::text::string_from_utf8;

verus! {

broadcast use vstd::utf8::encode_utf8_valid_utf8, vstd::utf8::encode_utf8_decode_utf8;

/// An exec read result agrees with a spec read result.
pub open spec fn agrees<T>(r: Result<(T, usize), ArchiveError>, s: Result<(T, int), ArchiveError>) -> bool {
    match (r, s) {
        (Ok((a, p)), Ok((b, q))) => a == b && p == q,
        (Err(e1), Err(e2)) => e1 == e2,
        _ => false,
    }
}

pub open spec fn spec_read_u8(s: Seq<u8>, pos: int) -> Result<(u8, int), ArchiveError> {
    if 0 <= pos < s.len() {
        Ok((s[pos], pos + 1))
    } else {
        Err(ArchiveError::UnexpectedEnd)
    }
}

pub open spec fn spec_read_u32(s: Seq<u8>, pos: int) -> Result<(u32, int), ArchiveError> {
    if 0 <= pos && pos + 4 <= s.len() {
        Ok((spec_u32_from_le_bytes(s.subrange(pos, pos + 4)), pos + 4))
    } else {
        Err(ArchiveError::UnexpectedEnd)
    }
}

pub open spec fn spec_read_u64(s: Seq<u8>, pos: int) -> Result<(u64, int), ArchiveError> {
    if 0 <= pos && pos + 8 <= s.len() {
        Ok((spec_u64_from_le_bytes(s.subrange(pos, pos + 8)), pos + 8))
    } else {
        Err(ArchiveError::UnexpectedEnd)
    }
}

/// The little-endian bytes of an `i64` (its two's-complement bits).
pub open spec fn spec_i64_to_le_bytes(x: i64) -> Seq<u8> {
    spec_u64_to_le_bytes(x as u64)
}

pub open spec fn spec_read_i64(s: Seq<u8>, pos: int) -> Result<(i64, int), ArchiveError> {
    match spec_read_u64(s, pos) {
        Ok((v, p)) => Ok((v as i64, p)),
        Err(e) => Err(e),
    }
}

/// The bytes of a variable-length integer: seven bits per byte, least
/// significant group first, the high bit set on every byte but the last.
pub open spec fn spec_varint_bytes(v: u64) -> Seq<u8>
    decreases v,
{
    if v < 0x80 {
        seq![v as u8]
    } else {
        seq![((v % 0x80) + 0x80) as u8] + spec_varint_bytes(v / 0x80)
    }
}

/// Reads the variable-length integer whose byte `k` is at `pos + k`, with `acc`
/// holding the bits of its first `k` bytes.
pub open spec fn spec_varint_from(s: Seq<u8>, pos: int, k: nat, acc: u64) -> Result<(u64, int), ArchiveError>
    decreases 10 - k,
{
    if k >= 10 {
        Err(ArchiveError::VarintTooLong)
    } else if !(0 <= pos + k < s.len()) {
        Err(ArchiveError::UnexpectedEnd)
    } else {
        let byte = s[pos + k];
        let next = acc | (((byte & 0x7f) as u64) << ((7 * k) as u64));
        if byte & 0x80 == 0 {
            Ok((next, pos + k + 1))
        } else if k + 1 >= 10 {
            Err(ArchiveError::VarintTooLong)
        } else {
            spec_varint_from(s, pos, k + 1, next)
        }
    }
}

pub open spec fn spec_read_varint(s: Seq<u8>, pos: int) -> Result<(u64, int), ArchiveError> {
    spec_varint_from(s, pos, 0, 0)
}

/// A length-prefixed byte field: the length as a little-endian `u64`, then the bytes.
pub open spec fn spec_bytes_field(b: Seq<u8>) -> Seq<u8> {
    spec_u64_to_le_bytes(b.len() as u64) + b
}

pub open spec fn spec_read_bytes(s: Seq<u8>, pos: int) -> Result<(Seq<u8>, int), ArchiveError> {
    match spec_read_u64(s, pos) {
        Ok((len, p)) => if p + len <= s.len() {
            Ok((s.subrange(p, p + len), p + len))
        } else {
            Err(ArchiveError::UnexpectedEnd)
        },
        Err(e) => Err(e),
    }
}

/// A string field: its UTF-8 bytes as a byte field.
pub open spec fn spec_string_field(c: Seq<char>) -> Seq<u8> {
    spec_bytes_field(encode_utf8(c))
}

pub open spec fn spec_read_string(s: Seq<u8>, pos: int) -> Result<(Seq<char>, int), ArchiveError> {
    match spec_read_bytes(s, pos) {
        Ok((b, p)) => if valid_utf8(b) {
            Ok((decode_utf8(b), p))
        } else {
            Err(ArchiveError::InvalidUtf8)
        },
        Err(e) => Err(e),
    }
}

pub fn append_bytes(out: &mut Vec<u8>, bytes: &[u8])
    ensures
        final(out)@ == old(out)@ + bytes@,
{
    let mut i: usize = 0;
    while i < bytes.len()
        invariant
            0 <= i <= bytes.len(),
            out@ == old(out)@ + bytes@.take(i as int),
        decreases bytes.len() - i,
    {
        out.push(bytes[i]);
        i = i + 1;
        assert(out@ =~= old(out)@ + bytes@.take(i as int));
    }
    assert(bytes@.take(bytes.len() as int) =~= bytes@);
}

pub fn write_u8(out: &mut Vec<u8>, x: u8)
    ensures
        final(out)@ == old(out)@ + seq![x],
{
    out.push(x);
    assert(out@ =~= old(out)@ + seq![x]);
}

pub fn write_u32(out: &mut Vec<u8>, x: u32)
    ensures
        final(out)@ == old(out)@ + spec_u32_to_le_bytes(x),
{
    let b = vstd::bytes::u32_to_le_bytes(x);
    append_bytes(out, b.as_slice());
}

pub fn write_u64(out: &mut Vec<u8>, x: u64)
    ensures
        final(out)@ == old(out)@ + spec_u64_to_le_bytes(x),
{
    let b = vstd::bytes::u64_to_le_bytes(x);
    append_bytes(out, b.as_slice());
}

pub fn write_i64(out: &mut Vec<u8>, x: i64)
    ensures
        final(out)@ == old(out)@ + spec_i64_to_le_bytes(x),
{
    write_u64(out, x as u64);
}

pub fn read_u8(s: &[u8], pos: usize) -> (r: Result<(u8, usize), ArchiveError>)
    ensures
        agrees(r, spec_read_u8(s@, pos as int)),
{
    if pos < s.len() {
        Ok((s[pos], pos + 1))
    } else {
        Err(ArchiveError::UnexpectedEnd)
    }
}

pub fn read_u32(s: &[u8], pos: usize) -> (r: Result<(u32, usize), ArchiveError>)
    ensures
        agrees(r, spec_read_u32(s@, pos as int)),
{
    if pos <= s.len() && s.len() - pos >= 4 {
        let v = vstd::bytes::u32_from_le_bytes(vstd::slice::slice_subrange(s, pos, pos + 4));
        Ok((v, pos + 4))
    } else {
        Err(ArchiveError::UnexpectedEnd)
    }
}

pub fn read_u64(s: &[u8], pos: usize) -> (r: Result<(u64, usize), ArchiveError>)
    ensures
        agrees(r, spec_read_u64(s@, pos as int)),
{
    if pos <= s.len() && s.len() - pos >= 8 {
        let v = vstd::bytes::u64_from_le_bytes(vstd::slice::slice_subrange(s, pos, pos + 8));
        Ok((v, pos + 8))
    } else {
        Err(ArchiveError::UnexpectedEnd)
    }
}

pub fn read_i64(s: &[u8], pos: usize) -> (r: Result<(i64, usize), ArchiveError>)
    ensures
        agrees(r, spec_read_i64(s@, pos as int)),
{
    match read_u64(s, pos) {
        Ok((v, p)) => Ok((v as i64, p)),
        Err(e) => Err(e),
    }
}

pub fn write_varint(out: &mut Vec<u8>, value: u64)
    ensures
        final(out)@ == old(out)@ + spec_varint_bytes(value),
    decreases value,
{
    if value >= 0x80 {
        let byte = (value as u8) | 0x80;
        assert(byte == ((value % 0x80) + 0x80) as u8) by (bit_vector)
            requires
                byte == (value as u8) | 0x80,
        ;
        out.push(byte);
        assert(value >> 7u32 == value / 0x80) by (bit_vector);
        write_varint(out, value >> 7u32);
        assert(out@ =~= old(out)@ + spec_varint_bytes(value));
    } else {
        out.push(value as u8);
        assert(out@ =~= old(out)@ + spec_varint_bytes(value));
    }
}

pub fn read_varint(s: &[u8], pos: usize) -> (r: Result<(u64, usize), ArchiveError>)
    ensures
        agrees(r, spec_read_varint(s@, pos as int)),
{
    let mut out: u64 = 0;
    let mut k: usize = 0;
    while true
        invariant
            k < 10,
            spec_read_varint(s@, pos as int) == spec_varint_from(s@, pos as int, k as nat, out),
        decreases 10 - k,
    {
        if pos >= s.len() || s.len() - pos <= k {
            return Err(ArchiveError::UnexpectedEnd);
        }
        let byte = s[pos + k];
        let shift = (7 * k) as u64;
        let next = out | (((byte & 0x7f) as u64) << shift);
        if byte & 0x80 == 0 {
            return Ok((next, pos + k + 1));
        }
        if k + 1 >= 10 {
            return Err(ArchiveError::VarintTooLong);
        }
        out = next;
        k = k + 1;
    }
    Err(ArchiveError::VarintTooLong)
}

pub fn write_bytes(out: &mut Vec<u8>, bytes: &[u8])
    ensures
        final(out)@ == old(out)@ + spec_bytes_field(bytes@),
{
    write_u64(out, bytes.len() as u64);
    append_bytes(out, bytes);
    assert(out@ =~= old(out)@ + spec_bytes_field(bytes@));
}

pub fn read_bytes(s: &[u8], pos: usize) -> (r: Result<(Vec<u8>, usize), ArchiveError>)
    ensures
        match (r, spec_read_bytes(s@, pos as int)) {
            (Ok((b, p)), Ok((c, q))) => b@ == c && p == q,
            (Err(e1), Err(e2)) => e1 == e2,
            _ => false,
        },
{
    let (len, p) = match read_u64(s, pos) {
        Ok(x) => x,
        Err(e) => return Err(e),
    };
    if (s.len() - p) as u64 >= len {
        let end = p + len as usize;
        let b = vstd::slice::slice_to_vec(vstd::slice::slice_subrange(s, p, end));
        Ok((b, end))
    } else {
        Err(ArchiveError::UnexpectedEnd)
    }
}

pub fn write_string(out: &mut Vec<u8>, value: &str)
    ensures
        final(out)@ == old(out)@ + spec_string_field(value@),
{
    write_bytes(out, value.as_bytes());
}

pub fn read_string(s: &[u8], pos: usize) -> (r: Result<(String, usize), ArchiveError>)
    ensures
        match (r, spec_read_string(s@, pos as int)) {
            (Ok((b, p)), Ok((c, q))) => b@ == c && p == q,
            (Err(e1), Err(e2)) => e1 == e2,
            _ => false,
        },
{
    let (bytes, p) = match read_bytes(s, pos) {
        Ok(x) => x,
        Err(e) => return Err(e),
    };
    match string_from_utf8(bytes) {
        Some(st) => Ok((st, p)),
        None => Err(ArchiveError::InvalidUtf8),
    }
}


pub proof fn lemma_read_u8_of(s: Seq<u8>, pos: int, x: u8)
    requires
        0 <= pos < s.len(),
        s[pos] == x,
    ensures
        spec_read_u8(s, pos) == Ok::<(u8, int), ArchiveError>((x, pos + 1)),
{
}

pub proof fn lemma_read_u32_of(s: Seq<u8>, pos: int, x: u32)
    requires
        0 <= pos,
        pos + 4 <= s.len(),
        s.subrange(pos, pos + 4) == spec_u32_to_le_bytes(x),
    ensures
        spec_read_u32(s, pos) == Ok::<(u32, int), ArchiveError>((x, pos + 4)),
{
    lemma_auto_spec_u32_to_from_le_bytes();
    assert(spec_u32_to_le_bytes(x).len() == 4);
}

pub proof fn lemma_read_u64_of(s: Seq<u8>, pos: int, x: u64)
    requires
        0 <= pos,
        pos + 8 <= s.len(),
        s.subrange(pos, pos + 8) == spec_u64_to_le_bytes(x),
    ensures
        spec_read_u64(s, pos) == Ok::<(u64, int), ArchiveError>((x, pos + 8)),
{
    lemma_auto_spec_u64_to_from_le_bytes();
}

pub proof fn lemma_read_i64_of(s: Seq<u8>, pos: int, x: i64)
    requires
        0 <= pos,
        pos + 8 <= s.len(),
        s.subrange(pos, pos + 8) == spec_i64_to_le_bytes(x),
    ensures
        spec_read_i64(s, pos) == Ok::<(i64, int), ArchiveError>((x, pos + 8)),
{
    lemma_read_u64_of(s, pos, x as u64);
    assert((x as u64) as i64 == x) by (bit_vector);
}

pub proof fn lemma_le_lengths(x: u32, y: u64)
    ensures
        spec_u32_to_le_bytes(x).len() == 4,
        spec_u64_to_le_bytes(y).len() == 8,
{
    lemma_auto_spec_u32_to_from_le_bytes();
    lemma_auto_spec_u64_to_from_le_bytes();
}

/// A value below `2^(7m)` takes at most `m` varint bytes.
pub proof fn lemma_varint_len(v: u64, m: nat)
    requires
        m >= 1,
        m <= 9 ==> v >> ((7 * m) as u64) == 0,
    ensures
        1 <= spec_varint_bytes(v).len() <= m,
    decreases v,
{
    if v >= 0x80 {
        assert(v >> 7u64 == v / 0x80) by (bit_vector);
        if m == 1 {
            assert(v >> 7u64 != 0) by (bit_vector)
                requires
                    v >= 0x80,
            ;
        }
        let m1 = (m - 1) as nat;
        if m == 10 {
            assert((v >> 7u64) >> 63u64 == 0) by (bit_vector);
            assert((7 * m1) as u64 == 63);
        } else if m1 <= 9 {
            let sh = (7 * m) as u64;
            let sh1 = (7 * m1) as u64;
            assert((v >> 7u64) >> sh1 == 0) by (bit_vector)
                requires
                    sh == sh1 + 7,
                    sh <= 63,
                    v >> sh == 0,
            ;
        }
        lemma_varint_len(v / 0x80, m1);
    }
}

proof fn lemma_varint_step(acc: u64, v: u64, sh: u64)
    requires
        sh + 7 <= 63,
        acc >> sh == 0,
        (v << sh) >> sh == v,
        v >= 0x80,
    ensures
        (acc | (((((v % 0x80) + 0x80) as u8 & 0x7f) as u64) << sh)) >> (sh + 7) as u64 == 0,
        ((v / 0x80) << (sh + 7) as u64) >> (sh + 7) as u64 == v / 0x80,
        (acc | (((((v % 0x80) + 0x80) as u8 & 0x7f) as u64) << sh)) | ((v / 0x80) << (sh + 7) as u64)
            == acc | (v << sh),
        ((v % 0x80) + 0x80) as u8 & 0x80 != 0,
{
    assert(
        (acc | (((((v % 0x80) + 0x80) as u8 & 0x7f) as u64) << sh)) >> (sh + 7) as u64 == 0
        && ((v / 0x80) << (sh + 7) as u64) >> (sh + 7) as u64 == v / 0x80
        && (acc | (((((v % 0x80) + 0x80) as u8 & 0x7f) as u64) << sh)) | ((v / 0x80) << (sh + 7) as u64)
            == acc | (v << sh)
        && ((v % 0x80) + 0x80) as u8 & 0x80 != 0
    ) by (bit_vector)
        requires
            sh + 7 <= 63,
            acc >> sh == 0,
            (v << sh) >> sh == v,
            v >= 0x80,
    ;
}

proof fn lemma_varint_last(acc: u64, v: u64, sh: u64)
    requires
        sh <= 63,
        v < 0x80,
    ensures
        acc | ((((v as u8) & 0x7f) as u64) << sh) == acc | (v << sh),
        (v as u8) & 0x80 == 0,
{
    assert(acc | ((((v as u8) & 0x7f) as u64) << sh) == acc | (v << sh) && (v as u8) & 0x80 == 0)
        by (bit_vector)
        requires
            sh <= 63,
            v < 0x80,
    ;
}

proof fn lemma_read_varint_from(s: Seq<u8>, pos: int, k: nat, acc: u64, v: u64)
    requires
        0 <= pos,
        k < 10,
        k + spec_varint_bytes(v).len() <= 10,
        pos + k + spec_varint_bytes(v).len() <= s.len(),
        s.subrange(pos + k, pos + k + spec_varint_bytes(v).len()) == spec_varint_bytes(v),
        acc >> ((7 * k) as u64) == 0,
        (v << ((7 * k) as u64)) >> ((7 * k) as u64) == v,
    ensures
        spec_varint_from(s, pos, k, acc) == Ok::<(u64, int), ArchiveError>(
            (acc | (v << ((7 * k) as u64)), pos + k + spec_varint_bytes(v).len()),
        ),
    decreases v,
{
    let enc = spec_varint_bytes(v);
    assert(s[pos + k] == enc[0]);
    if v < 0x80 {
        lemma_varint_last(acc, v, (7 * k) as u64);
    } else {
        let sh = (7 * k) as u64;
        let rest = spec_varint_bytes(v / 0x80);
        assert(enc == seq![((v % 0x80) + 0x80) as u8] + rest);
        lemma_varint_len(v / 0x80, 10);
        assert(k + 1 < 10);
        lemma_varint_step(acc, v, sh);
        assert((7 * (k + 1)) as u64 == sh + 7);
        assert(s.subrange(pos + (k + 1), pos + (k + 1) + rest.len()) =~= rest) by {
            assert forall|j: int| 0 <= j < rest.len() implies s[pos + k + 1 + j] == rest[j] by {
                assert(s.subrange(pos + k, pos + k + enc.len())[j + 1] == enc[j + 1]);
            }
        }
        let next = acc | (((((v % 0x80) + 0x80) as u8 & 0x7f) as u64) << sh);
        lemma_read_varint_from(s, pos, k + 1, next, v / 0x80);
    }
}

/// Reading a varint where its bytes stand gives the value and the position after it.
pub proof fn lemma_read_varint_of(s: Seq<u8>, pos: int, v: u64)
    requires
        0 <= pos,
        pos + spec_varint_bytes(v).len() <= s.len(),
        s.subrange(pos, pos + spec_varint_bytes(v).len()) == spec_varint_bytes(v),
    ensures
        spec_read_varint(s, pos) == Ok::<(u64, int), ArchiveError>((v, pos + spec_varint_bytes(v).len())),
        1 <= spec_varint_bytes(v).len() <= 10,
{
    lemma_varint_len(v, 10);
    assert((v << 0u64) >> 0u64 == v) by (bit_vector);
    assert(0u64 >> 0u64 == 0) by (bit_vector);
    assert(0u64 | (v << 0u64) == v) by (bit_vector);
    lemma_read_varint_from(s, pos, 0, 0, v);
}

pub proof fn lemma_read_bytes_of(s: Seq<u8>, pos: int, b: Seq<u8>)
    requires
        0 <= pos,
        pos + 8 + b.len() <= s.len(),
        s.subrange(pos, pos + 8 + b.len()) == spec_bytes_field(b),
        b.len() <= u64::MAX,
    ensures
        spec_read_bytes(s, pos) == Ok::<(Seq<u8>, int), ArchiveError>((b, pos + 8 + b.len())),
{
    lemma_le_lengths(0, b.len() as u64);
    let f = spec_bytes_field(b);
    assert(s.subrange(pos, pos + 8) =~= f.subrange(0, 8));
    assert(f.subrange(0, 8) =~= spec_u64_to_le_bytes(b.len() as u64));
    lemma_read_u64_of(s, pos, b.len() as u64);
    assert(s.subrange(pos + 8, pos + 8 + b.len()) =~= b) by {
        assert forall|j: int| 0 <= j < b.len() implies s[pos + 8 + j] == b[j] by {
            assert(s.subrange(pos, pos + 8 + b.len())[8 + j] == f[8 + j]);
        }
    }
}

pub proof fn lemma_read_string_of(s: Seq<u8>, pos: int, c: Seq<char>)
    requires
        0 <= pos,
        pos + spec_string_field(c).len() <= s.len(),
        s.subrange(pos, pos + spec_string_field(c).len()) == spec_string_field(c),
        encode_utf8(c).len() <= u64::MAX,
    ensures
        spec_read_string(s, pos) == Ok::<(Seq<char>, int), ArchiveError>((c, pos + spec_string_field(c).len())),
{
    lemma_le_lengths(0, encode_utf8(c).len() as u64);
    lemma_read_bytes_of(s, pos, encode_utf8(c));
}

/// `a` sits at `pos` in `s` when `a + b` does, and `b` right after it.
pub proof fn lemma_sub_prefix(s: Seq<u8>, pos: int, a: Seq<u8>, b: Seq<u8>)
    requires
        0 <= pos,
        pos + a.len() + b.len() <= s.len(),
        s.subrange(pos, pos + a.len() + b.len()) == a + b,
    ensures
        s.subrange(pos, pos + a.len()) == a,
        s.subrange(pos + a.len(), pos + a.len() + b.len()) == b,
{
    let al = a.len() as int;
    let bl = b.len() as int;
    let w = s.subrange(pos, pos + al + bl);
    assert(s.subrange(pos, pos + al) =~= a) by {
        assert forall|j: int| 0 <= j < al implies s.subrange(pos, pos + al)[j] == a[j] by {
            assert(w[j] == (a + b)[j]);
            assert(w[j] == s[pos + j]);
        }
    }
    assert(s.subrange(pos + al, pos + al + bl) =~= b) by {
        assert forall|j: int| 0 <= j < bl implies s.subrange(pos + al, pos + al + bl)[j] == b[j] by {
            assert(w[al + j] == (a + b)[al + j]);
            assert(w[al + j] == s[pos + al + j]);
        }
    }
}

} // verus!
