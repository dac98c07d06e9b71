//! Column chunks by codec: codec ids, encoding and decoding through the
//! codec's chunk format, and the choice of a codec for a slice.
use vstd::prelude::*;
use crate::error::ArchiveError;
use crate::formats::table::{Cell, CellV};
use crate::column::types::ColumnCodec;
use crate::column::cells::{cells_view, spec_raw_chunk, spec_read_raw_from, encode_raw, decode_raw, cells_fit};
use crate::column::presence::{all_present_integers, all_present_strings, int_values};
use crate::column::intchunks::{delta_chunk, delta2_chunk, spec_decode_delta, spec_decode_delta2, encode_delta, encode_delta2, decode_delta, decode_delta2, wdeltas, wrapping_deltas};
use crate::column::packchunks::{spec_encode_bitpack, spec_encode_for, spec_encode_dictionary, spec_decode_bitpack, spec_decode_for, spec_decode_dictionary, encode_bitpack, encode_frame_of_reference, encode_dictionary, decode_bitpack, decode_frame_of_reference, decode_dictionary, has_negative};
use crate::codecs::dict::first_occurrences;
use crate::column::rlechunk::{rle_chunk, spec_decode_rle, encode_rle, decode_rle, rle_exact};
use crate::entropy::zstd::zstd_compressed;

verus! {

pub open spec fn spec_codec_id(c: ColumnCodec) -> u8 {
    match c {
        ColumnCodec::Raw => 0,
        ColumnCodec::Dictionary => 1,
        ColumnCodec::Delta => 2,
        ColumnCodec::DeltaOfDelta => 3,
        ColumnCodec::Rle => 4,
        ColumnCodec::BitPack => 5,
        ColumnCodec::FrameOfReference => 6,
    }
}

pub open spec fn spec_codec_from_id(id: u8) -> Result<ColumnCodec, ArchiveError> {
    if id == 0 {
        Ok(ColumnCodec::Raw)
    } else if id == 1 {
        Ok(ColumnCodec::Dictionary)
    } else if id == 2 {
        Ok(ColumnCodec::Delta)
    } else if id == 3 {
        Ok(ColumnCodec::DeltaOfDelta)
    } else if id == 4 {
        Ok(ColumnCodec::Rle)
    } else if id == 5 {
        Ok(ColumnCodec::BitPack)
    } else if id == 6 {
        Ok(ColumnCodec::FrameOfReference)
    } else {
        Err(ArchiveError::UnknownCodec(id))
    }
}

/// The id of a codec on the wire.
pub fn codec_id(codec: ColumnCodec) -> (id: u8)
    ensures
        id == spec_codec_id(codec),
        spec_codec_from_id(id) == Ok::<ColumnCodec, ArchiveError>(codec),
{
    match codec {
        ColumnCodec::Raw => 0,
        ColumnCodec::Dictionary => 1,
        ColumnCodec::Delta => 2,
        ColumnCodec::DeltaOfDelta => 3,
        ColumnCodec::Rle => 4,
        ColumnCodec::BitPack => 5,
        ColumnCodec::FrameOfReference => 6,
    }
}

/// The codec with a wire id.
pub fn codec_from_id(id: u8) -> (r: Result<ColumnCodec, ArchiveError>)
    ensures
        r == spec_codec_from_id(id),
        r matches Ok(c) ==> spec_codec_id(c) == id,
{
    match id {
        0 => Ok(ColumnCodec::Raw),
        1 => Ok(ColumnCodec::Dictionary),
        2 => Ok(ColumnCodec::Delta),
        3 => Ok(ColumnCodec::DeltaOfDelta),
        4 => Ok(ColumnCodec::Rle),
        5 => Ok(ColumnCodec::BitPack),
        6 => Ok(ColumnCodec::FrameOfReference),
        _ => Err(ArchiveError::UnknownCodec(id)),
    }
}

/// The chunk bytes of a slice under a codec.
pub open spec fn spec_encode_chunk(v: Seq<Option<CellV>>, codec: ColumnCodec) -> Result<Seq<u8>, ArchiveError> {
    match codec {
        ColumnCodec::Raw => Ok(spec_raw_chunk(v)),
        ColumnCodec::Dictionary => Ok(spec_encode_dictionary(v)),
        ColumnCodec::Delta => if all_present_integers(v) {
            Ok(delta_chunk(v))
        } else {
            Err(ArchiveError::NonIntegerValue)
        },
        ColumnCodec::DeltaOfDelta => if all_present_integers(v) {
            Ok(delta2_chunk(v))
        } else {
            Err(ArchiveError::NonIntegerValue)
        },
        ColumnCodec::Rle => Ok(rle_chunk(v)),
        ColumnCodec::BitPack => spec_encode_bitpack(v),
        ColumnCodec::FrameOfReference => spec_encode_for(v),
    }
}

/// The `n` rows that a chunk holds under a codec.
pub open spec fn spec_decode_chunk(s: Seq<u8>, codec: ColumnCodec, n: nat) -> Result<Seq<Option<CellV>>, ArchiveError> {
    match codec {
        ColumnCodec::Raw => match spec_read_raw_from(s, 0, n) {
            Ok((v, _)) => Ok(v),
            Err(e) => Err(e),
        },
        ColumnCodec::Dictionary => spec_decode_dictionary(s, n),
        ColumnCodec::Delta => spec_decode_delta(s, n),
        ColumnCodec::DeltaOfDelta => spec_decode_delta2(s, n),
        ColumnCodec::Rle => spec_decode_rle(s, n),
        ColumnCodec::BitPack => spec_decode_bitpack(s, n),
        ColumnCodec::FrameOfReference => spec_decode_for(s, n),
    }
}

/// Encodes a slice under a codec.
pub fn encode_column_chunk(values: &[Option<Cell>], codec: ColumnCodec) -> (r: Result<Vec<u8>, ArchiveError>)
    ensures
        match (r, spec_encode_chunk(cells_view(values@), codec)) {
            (Ok(b), Ok(c)) => b@ == c,
            (Err(e1), Err(e2)) => e1 == e2,
            _ => false,
        },
{
    match codec {
        ColumnCodec::Dictionary => Ok(encode_dictionary(values)),
        ColumnCodec::Delta => encode_delta(values),
        ColumnCodec::DeltaOfDelta => encode_delta2(values),
        ColumnCodec::BitPack => encode_bitpack(values),
        ColumnCodec::FrameOfReference => encode_frame_of_reference(values),
        ColumnCodec::Rle => Ok(encode_rle(values)),
        ColumnCodec::Raw => Ok(encode_raw(values)),
    }
}

/// Decodes `row_count` rows from a chunk under a codec.
pub fn decode_column_chunk(chunk: &[u8], codec: ColumnCodec, row_count: usize) -> (r: Result<Vec<Option<Cell>>, ArchiveError>)
    ensures
        match (r, spec_decode_chunk(chunk@, codec, row_count as nat)) {
            (Ok(c), Ok(d)) => cells_view(c@) == d,
            (Err(e1), Err(e2)) => e1 == e2,
            _ => false,
        },
{
    match codec {
        ColumnCodec::Raw => match decode_raw(chunk, 0, row_count) {
            Ok((v, _)) => Ok(v),
            Err(e) => Err(e),
        },
        ColumnCodec::Dictionary => decode_dictionary(chunk, row_count),
        ColumnCodec::Delta => decode_delta(chunk, row_count),
        ColumnCodec::DeltaOfDelta => decode_delta2(chunk, row_count),
        ColumnCodec::BitPack => decode_bitpack(chunk, row_count),
        ColumnCodec::FrameOfReference => decode_frame_of_reference(chunk, row_count),
        ColumnCodec::Rle => decode_rle(chunk, row_count),
    }
}

/// A codec whose chunk reads back as the slice: dictionaries need strings and
/// bit packing needs non-negative integers; every other codec either decodes
/// exactly or refuses the slice when encoding.
pub open spec fn admissible(v: Seq<Option<CellV>>, codec: ColumnCodec) -> bool {
    match codec {
        ColumnCodec::Dictionary => all_present_strings(v),
        ColumnCodec::BitPack => !has_negative(int_values(v)),
        _ => true,
    }
}

/// A chunk that an admissible codec encoded decodes to the slice it was made
/// from (for run-length chunks, when no two neighbours compare equal without
/// being identical; for dictionary chunks, when the distinct strings fit the
/// chunk's `u32` count).
pub proof fn lemma_chunk_roundtrip(v: Seq<Option<CellV>>, codec: ColumnCodec)
    requires
        admissible(v, codec),
        spec_encode_chunk(v, codec) is Ok,
        cells_fit(v),
        codec == ColumnCodec::Rle ==> rle_exact(v),
        codec == ColumnCodec::Dictionary ==> first_occurrences(crate::column::presence::string_values(v)).len() <= u32::MAX,
        v.len() <= 0x0fff_ffff_ffff_ffff,
    ensures
        spec_decode_chunk(spec_encode_chunk(v, codec)->Ok_0, codec, v.len()) == Ok::<Seq<Option<CellV>>, ArchiveError>(v),
{
    match codec {
        ColumnCodec::Raw => {
            assert(spec_raw_chunk(v).subrange(0, spec_raw_chunk(v).len() as int) =~= spec_raw_chunk(v));
            crate::column::cells::lemma_read_raw_of(spec_raw_chunk(v), 0, v);
        },
        ColumnCodec::Dictionary => {
            assert forall|k: int| 0 <= k < crate::column::presence::string_values(v).len()
                implies (#[trigger] vstd::utf8::encode_utf8(crate::column::presence::string_values(v)[k])).len() <= u64::MAX by {
                crate::column::packchunks::lemma_string_values_from(v);
                let i = choose|i: int| 0 <= i < v.len() && v[i] == Some(CellV::String(crate::column::presence::string_values(v)[k]));
                assert(v[i] matches Some(c) ==> crate::column::cells::cell_fits(c));
            }
            crate::column::packchunks::lemma_dict_chunk_roundtrip(v);
        },
        ColumnCodec::Delta => {
            crate::column::intchunks::lemma_delta_chunk_roundtrip(v);
        },
        ColumnCodec::DeltaOfDelta => {
            crate::column::intchunks::lemma_delta2_chunk_roundtrip(v);
        },
        ColumnCodec::Rle => {
            crate::column::rlechunk::lemma_rle_chunk_roundtrip(v);
        },
        ColumnCodec::BitPack => {
            crate::column::packchunks::lemma_bitpack_chunk_roundtrip(v);
        },
        ColumnCodec::FrameOfReference => {
            crate::column::packchunks::lemma_for_chunk_roundtrip(v);
        },
    }
}

/// The chunk bytes used to judge a codec: the encoding, or nothing when the codec refuses.
pub open spec fn trial_bytes(v: Seq<Option<CellV>>, codec: ColumnCodec) -> Seq<u8> {
    match spec_encode_chunk(v, codec) {
        Ok(b) => b,
        Err(_) => Seq::empty(),
    }
}

/// The size of a codec's chunk after zstd at level 1 (its raw size when zstd fails).
pub open spec fn spec_compressed_size(v: Seq<Option<CellV>>, codec: ColumnCodec) -> nat {
    match zstd_compressed(trial_bytes(v, codec), 1) {
        Some(z) => z.len(),
        None => trial_bytes(v, codec).len(),
    }
}

/// The first candidate with the smallest compressed size among the first `k`.
pub open spec fn first_smallest(v: Seq<Option<CellV>>, cands: Seq<ColumnCodec>, k: nat) -> ColumnCodec
    decreases k,
{
    if k <= 1 {
        cands[0]
    } else {
        let best = first_smallest(v, cands, (k - 1) as nat);
        if spec_compressed_size(v, cands[k - 1]) < spec_compressed_size(v, best) {
            cands[k - 1]
        } else {
            best
        }
    }
}

pub open spec fn integer_candidates() -> Seq<ColumnCodec> {
    seq![ColumnCodec::Raw, ColumnCodec::DeltaOfDelta, ColumnCodec::Delta, ColumnCodec::BitPack, ColumnCodec::FrameOfReference]
}

pub open spec fn string_candidates() -> Seq<ColumnCodec> {
    seq![ColumnCodec::Raw, ColumnCodec::Dictionary, ColumnCodec::Rle]
}

pub open spec fn mixed_candidates() -> Seq<ColumnCodec> {
    seq![ColumnCodec::Raw, ColumnCodec::Rle]
}

/// The number of neighbouring pairs that are equal.
pub open spec fn stable_count(d: Seq<i64>) -> nat
    decreases d.len(),
{
    if d.len() < 2 {
        0
    } else {
        stable_count(d.drop_last()) + (if d[d.len() - 2] == d[d.len() - 1] { 1nat } else { 0nat })
    }
}

/// At least four integers, and at least 90% of the consecutive differences
/// repeat the difference before them.
pub open spec fn spec_near_linear(v: Seq<Option<CellV>>) -> bool {
    let x = int_values(v);
    let d = wdeltas(x).drop_first();
    x.len() >= 4 && stable_count(d) * 100 >= (d.len() - 1) * 90
}

/// The codec chosen for a slice.
pub open spec fn spec_choose_codec(v: Seq<Option<CellV>>) -> ColumnCodec {
    if all_present_integers(v) {
        if spec_near_linear(v) && spec_compressed_size(v, ColumnCodec::DeltaOfDelta)
            <= spec_compressed_size(v, ColumnCodec::Delta) + 16 {
            ColumnCodec::DeltaOfDelta
        } else {
            first_smallest(v, integer_candidates(), 5)
        }
    } else if all_present_strings(v) {
        first_smallest(v, string_candidates(), 3)
    } else {
        first_smallest(v, mixed_candidates(), 2)
    }
}

/// The size of a codec's chunk after zstd at level 1.
fn compressed_chunk_size(values: &[Option<Cell>], codec: ColumnCodec) -> (n: usize)
    ensures
        n == spec_compressed_size(cells_view(values@), codec),
{
    let bytes = match encode_column_chunk(values, codec) {
        Ok(b) => b,
        Err(_) => Vec::new(),
    };
    assert(bytes@ == trial_bytes(cells_view(values@), codec));
    match crate::entropy::zstd::encode(bytes.as_slice(), 1) {
        Ok(z) => z.len(),
        Err(_) => bytes.len(),
    }
}

/// The integers of the integer cells, skipping every other value.
fn collect_integers(values: &[Option<Cell>]) -> (out: Vec<i64>)
    ensures
        out@ == int_values(cells_view(values@)),
{
    let ghost v = cells_view(values@);
    let mut out: Vec<i64> = Vec::new();
    let mut i: usize = 0;
    while i < values.len()
        invariant
            0 <= i <= values.len(),
            v == cells_view(values@),
            out@ == int_values(v.take(i as int)),
        decreases values.len() - i,
    {
        assert(v.take(i + 1).drop_last() =~= v.take(i as int));
        assert(v[i as int] == values@[i as int].deep_view());
        if let Some(Cell::Integer(x)) = &values[i] {
            out.push(*x);
        }
        i = i + 1;
    }
    assert(v.take(values.len() as int) =~= v);
    out
}

/// Whether the integers of a slice grow by a nearly constant step.
pub fn is_near_linear(values: &[Option<Cell>]) -> (r: bool)
    ensures
        r == spec_near_linear(cells_view(values@)),
{
    let ints = collect_integers(values);
    if ints.len() < 4 {
        return false;
    }
    let all = wrapping_deltas(ints.as_slice());
    let deltas = vstd::slice::slice_subrange(all.as_slice(), 1, all.len());
    assert(deltas@ =~= wdeltas(ints@).drop_first());
    let mut stable: usize = 0;
    let mut k: usize = 1;
    assert(deltas@.take(1).drop_last() =~= Seq::<i64>::empty());
    while k < deltas.len()
        invariant
            1 <= k <= deltas.len(),
            stable == stable_count(deltas@.take(k as int)),
            stable < k,
        decreases deltas.len() - k,
    {
        assert(deltas@.take(k + 1).drop_last() =~= deltas@.take(k as int));
        if deltas[k - 1] == deltas[k] {
            stable = stable + 1;
        }
        k = k + 1;
    }
    assert(deltas@.take(deltas.len() as int) =~= deltas@);
    (stable as u128) * 100 >= ((deltas.len() - 1) as u128) * 90
}

/// The first candidate with the smallest compressed size.
fn first_smallest_of(values: &[Option<Cell>], cands: &[ColumnCodec]) -> (c: ColumnCodec)
    requires
        cands@.len() >= 1,
    ensures
        c == first_smallest(cells_view(values@), cands@, cands@.len()),
{
    let mut best = cands[0];
    let mut best_size = compressed_chunk_size(values, best);
    let mut k: usize = 1;
    while k < cands.len()
        invariant
            1 <= k <= cands.len(),
            best == first_smallest(cells_view(values@), cands@, k as nat),
            best_size == spec_compressed_size(cells_view(values@), best),
        decreases cands.len() - k,
    {
        let size = compressed_chunk_size(values, cands[k]);
        if size < best_size {
            best = cands[k];
            best_size = size;
        }
        k = k + 1;
    }
    best
}

/// Chooses the codec with the smallest compressed chunk for a slice: among the
/// integer codecs when every present value is an integer (delta-of-delta
/// outright for nearly linear integers when it is within 16 bytes of delta),
/// among raw, dictionary and run-length for strings, and between raw and
/// run-length otherwise; ties go to the earlier candidate.
pub fn choose_best_codec(values: &[Option<Cell>]) -> (c: ColumnCodec)
    ensures
        c == spec_choose_codec(cells_view(values@)),
        admissible(cells_view(values@), c),
{
    let ghost v = cells_view(values@);
    proof {
        lemma_choice_admissible(v);
    }
    let mut all_ints = true;
    let mut all_strings = true;
    let mut i: usize = 0;
    while i < values.len()
        invariant
            0 <= i <= values.len(),
            v == cells_view(values@),
            all_ints == all_present_integers(v.take(i as int)),
            all_strings == all_present_strings(v.take(i as int)),
        decreases values.len() - i,
    {
        assert(v[i as int] == values@[i as int].deep_view());
        match &values[i] {
            None => {},
            Some(Cell::Integer(_)) => {
                all_strings = false;
            },
            Some(Cell::String(_)) => {
                all_ints = false;
            },
            Some(_) => {
                all_ints = false;
                all_strings = false;
            },
        }
        proof {
            let a = v.take(i as int);
            let b = v.take(i + 1);
            assert forall|k: int| 0 <= k < a.len() implies #[trigger] b[k] == a[k] by {}
            assert(b[i as int] == v[i as int]);
            if all_present_integers(b) {
                assert forall|k: int| 0 <= k < a.len() implies (#[trigger] a[k] matches Some(c) ==> c is Integer) by {
                    assert(b[k] == a[k]);
                }
            }
            if all_present_strings(b) {
                assert forall|k: int| 0 <= k < a.len() implies (#[trigger] a[k] matches Some(c) ==> c is String) by {
                    assert(b[k] == a[k]);
                }
            }
            if all_ints {
                assert forall|k: int| 0 <= k < b.len() implies (#[trigger] b[k] matches Some(c) ==> c is Integer) by {
                    if k < i {
                        assert(b[k] == a[k]);
                    }
                }
            }
            if all_strings {
                assert forall|k: int| 0 <= k < b.len() implies (#[trigger] b[k] matches Some(c) ==> c is String) by {
                    if k < i {
                        assert(b[k] == a[k]);
                    }
                }
            }
        }
        i = i + 1;
    }
    assert(v.take(values.len() as int) =~= v);
    if all_ints {
        if is_near_linear(values) {
            let delta = compressed_chunk_size(values, ColumnCodec::Delta);
            let delta2 = compressed_chunk_size(values, ColumnCodec::DeltaOfDelta);
            if (delta2 as u128) <= (delta as u128) + 16 {
                return ColumnCodec::DeltaOfDelta;
            }
        }
        let cands = [
            ColumnCodec::Raw,
            ColumnCodec::DeltaOfDelta,
            ColumnCodec::Delta,
            ColumnCodec::BitPack,
            ColumnCodec::FrameOfReference,
        ];
        assert(cands@ =~= integer_candidates());
        first_smallest_of(values, cands.as_slice())
    } else if all_strings {
        let cands = [ColumnCodec::Raw, ColumnCodec::Dictionary, ColumnCodec::Rle];
        assert(cands@ =~= string_candidates());
        first_smallest_of(values, cands.as_slice())
    } else {
        let cands = [ColumnCodec::Raw, ColumnCodec::Rle];
        assert(cands@ =~= mixed_candidates());
        first_smallest_of(values, cands.as_slice())
    }
}

/// The first smallest of the first `k` candidates is strictly smaller than
/// every candidate before it, and no larger than any of the first `k`.
proof fn lemma_first_smallest(v: Seq<Option<CellV>>, cands: Seq<ColumnCodec>, k: nat)
    requires
        1 <= k <= cands.len(),
    ensures
        exists|j: int| 0 <= j < k && cands[j] == first_smallest(v, cands, k) && (forall|i: int|
            0 <= i < j ==> spec_compressed_size(v, first_smallest(v, cands, k)) < #[trigger] spec_compressed_size(v, cands[i])),
        forall|i: int| 0 <= i < k ==> spec_compressed_size(v, first_smallest(v, cands, k)) <= #[trigger] spec_compressed_size(v, cands[i]),
    decreases k,
{
    if k > 1 {
        lemma_first_smallest(v, cands, (k - 1) as nat);
        let best = first_smallest(v, cands, (k - 1) as nat);
        if spec_compressed_size(v, cands[k - 1]) < spec_compressed_size(v, best) {
            assert(cands[k - 1] == first_smallest(v, cands, k));
        }
    } else {
        assert(cands[0] == first_smallest(v, cands, k));
    }
}

/// The chosen codec reads back as the slice: a bit-packed chunk is never
/// chosen for negative integers, since its bytes are then those of the delta
/// chunk, which comes first among the candidates.
pub proof fn lemma_choice_admissible(v: Seq<Option<CellV>>)
    ensures
        admissible(v, spec_choose_codec(v)),
{
    if all_present_integers(v) {
        let c = integer_candidates();
        lemma_first_smallest(v, c, 5);
        if has_negative(int_values(v)) {
            assert(trial_bytes(v, ColumnCodec::BitPack) == trial_bytes(v, ColumnCodec::Delta));
            let r = first_smallest(v, c, 5);
            let j = choose|j: int| 0 <= j < 5 && c[j] == r && (forall|i: int|
                0 <= i < j ==> spec_compressed_size(v, r) < #[trigger] spec_compressed_size(v, c[i]));
            if r == ColumnCodec::BitPack {
                assert(j == 3);
                assert(spec_compressed_size(v, r) < spec_compressed_size(v, c[2]));
            }
        }
    } else if all_present_strings(v) {
        lemma_first_smallest(v, string_candidates(), 3);
    } else {
        lemma_first_smallest(v, mixed_candidates(), 2);
    }
}

/// The length of a codec's chunk, or `u64::MAX` when the codec refuses the slice.
pub fn estimate_encoded_len(values: &[Option<Cell>], codec: ColumnCodec) -> (n: u64)
    ensures
        n == match spec_encode_chunk(cells_view(values@), codec) {
            Ok(b) => b.len() as u64,
            Err(_) => u64::MAX,
        },
{
    match encode_column_chunk(values, codec) {
        Ok(bytes) => bytes.len() as u64,
        Err(_) => u64::MAX,
    }
}

} // verus!
