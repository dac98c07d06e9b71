//! Packing and unpacking end to end: the fallback archive, the structural
//! candidate checked by restoring it, and the text of a decoded table in its
//! format.
use vstd::prelude::*;
use vstd::utf8::encode_utf8;
use crate::archive::{
    PackOptions, Unpacked, UnpackedV, build_structural, check_restored, choose_archive, pack_fallback,
    spec_check_restored, spec_unpack, unpack_archive,
};
use crate::error::ArchiveError;
use crate::formats::csv::{csv_records, csv_rows, csv_written, delimited_table, ends_with_lf, float_fields_view, spec_trim_final};
use crate::formats::json::spec_parse_jsonl;
use crate::formats::jsonl::spec_parse_exact;
use crate::formats::logs::spec_parse_logs;
use crate::formats::table::spec_line_ending;
use vstd::utf8::{valid_utf8, decode_utf8};
use crate::formats::json::JsonV;
use crate::formats::json_write::{float_values_view, spec_reconstruct_jsonl};
use crate::formats::logs_text::spec_reconstruct_logs;
use crate::formats::table::{LineEnding, StoredTable, TableV, bincode_values_size, floats_view};
use crate::header::{InputFormat, header_bytes};
use crate::archive::{inspect_succeeds, spec_parse_archive, fallback_header, container_bytes, structural_header, table_uniques};
use crate::header::HeaderV;
use crate::checksum::blake3_digest;
use crate::column::payload::spec_encode_table;
use crate::entropy::zstd::zstd_compressed;

verus! {

/// The text of a decoded table in its format: JSON lines, delimited text or
/// log lines; a binary format has no table text. Floats take the text, or
/// for JSON the value, given for their bit pattern.
pub open spec fn spec_restore(format: InputFormat, t: TableV, ft: Seq<(u64, Seq<char>)>, fv: Seq<(u64, JsonV)>) -> Result<Seq<u8>, ArchiveError> {
    match format {
        InputFormat::Jsonl => Ok(encode_utf8(spec_reconstruct_jsonl(t, fv))),
        InputFormat::Csv | InputFormat::Tsv => match t.delimiter {
            None => Err(ArchiveError::MissingDelimiter),
            Some(d) => match csv_written(csv_rows(t, ft), d, t.line_ending == LineEnding::CrLf) {
                None => Err(ArchiveError::Csv),
                Some(b) => Ok(spec_trim_final(b, t.trailing_newline, t.line_ending)),
            },
        },
        InputFormat::Logs => Ok(encode_utf8(spec_reconstruct_logs(t, ft))),
        InputFormat::BinaryFallback => Err(ArchiveError::NoStructuralPlan),
    }
}

/// What unpacking an archive gives: a fallback archive's payload, or a
/// structural archive's table written back in its format and checked against
/// the recorded hash.
pub open spec fn spec_unpack_bytes(a: Seq<u8>, ft: Seq<(u64, Seq<char>)>, fv: Seq<(u64, JsonV)>) -> Result<Seq<u8>, ArchiveError> {
    match spec_unpack(a) {
        Err(e) => Err(e),
        Ok(UnpackedV::Restored(b)) => Ok(b),
        Ok(UnpackedV::Decoded(f, t, h)) => match spec_restore(f, t, ft, fv) {
            Err(e) => Err(e),
            Ok(b) => spec_check_restored(b, h),
        },
    }
}

/// Writes a decoded table back in its format.
pub fn restore(format: InputFormat, table: &StoredTable, texts: &[(u64, String)], values: &[(u64, serde_json::Value)]) -> (r: Result<Vec<u8>, ArchiveError>)
    ensures
        match (r, spec_restore(format, table@, floats_view(texts@), float_values_view(values@))) {
            (Ok(b), Ok(c)) => b@ == c,
            (Err(e1), Err(e2)) => e1 == e2,
            _ => false,
        },
{
    match format {
        InputFormat::Jsonl => Ok(crate::formats::json_write::reconstruct(table, values)),
        InputFormat::Csv | InputFormat::Tsv => crate::formats::csv::reconstruct(table, texts),
        InputFormat::Logs => Ok(crate::formats::logs_text::reconstruct(table, texts)),
        InputFormat::BinaryFallback => Err(ArchiveError::NoStructuralPlan),
    }
}

/// Unpacks an archive: a fallback archive's payload, or a structural
/// archive's table written back in its format, checked against the recorded
/// hash.
pub fn unpack(bytes: &[u8], texts: &[(u64, String)], values: &[(u64, serde_json::Value)]) -> (r: Result<Vec<u8>, ArchiveError>)
    ensures
        match (r, spec_unpack_bytes(bytes@, floats_view(texts@), float_values_view(values@))) {
            (Ok(b), Ok(c)) => b@ == c,
            (Err(e1), Err(e2)) => e1 == e2,
            _ => false,
        },
{
    match unpack_archive(bytes) {
        Err(e) => Err(e),
        Ok(Unpacked::Restored(b)) => Ok(b),
        Ok(Unpacked::Decoded(f, t, h)) => match restore(f, &t, texts, values) {
            Err(e) => Err(e),
            Ok(b) => check_restored(b, &h),
        },
    }
}

/// Compressing the fallback archive of `input` fails: its header or the input
/// does not compress.
pub open spec fn pack_fallback_fails(input: Seq<u8>, format: InputFormat, options: PackOptions) -> bool {
    zstd_compressed(header_bytes(fallback_header(input, format, options)), options.level) is None
        || zstd_compressed(input, options.level) is None
}

/// The container of `input` with header `h` and payload `p`, each section
/// compressed at the level; none where a section does not compress.
pub open spec fn container_of(input: Seq<u8>, h: HeaderV, p: Seq<u8>, options: PackOptions) -> Option<Seq<u8>> {
    match (zstd_compressed(header_bytes(h), options.level), zstd_compressed(p, options.level)) {
        (Some(hc), Some(pc)) => Some(container_bytes(if options.exact { 1u32 } else { 0u32 }, hc, pc, blake3_digest(input)@)),
        _ => None,
    }
}

/// A table that a structural archive can be made from: each column holds a
/// value or an absence for every row, and its values' bincode size fits a
/// `u64`.
pub open spec fn packable(t: TableV) -> bool {
    &&& forall|j: int| 0 <= j < t.columns.len() ==> t.row_count <= (#[trigger] t.columns[j]).values.len()
    &&& forall|j: int| 0 <= j < t.columns.len() ==> bincode_values_size((#[trigger] t.columns[j]).values) <= u64::MAX
}

/// The structural archive of `input` with table `t`, where it can be made.
pub open spec fn structural_archive(input: Seq<u8>, format: InputFormat, options: PackOptions, t: TableV, ft: Seq<(u64, Seq<char>)>) -> Option<Seq<u8>> {
    if format == InputFormat::BinaryFallback || !packable(t) {
        None
    } else {
        match spec_encode_table(t) {
            Err(_) => None,
            Ok(p) => container_of(input, structural_header(input, format, options, t, table_uniques(t, ft)), p, options),
        }
    }
}

/// What `pack` keeps: the structural archive where there is one that unpacks
/// to the input and is smaller than the fallback archive, the fallback
/// archive otherwise.
pub open spec fn spec_pack(
    input: Seq<u8>,
    format: InputFormat,
    options: PackOptions,
    t: Option<TableV>,
    ft: Seq<(u64, Seq<char>)>,
    fv: Seq<(u64, JsonV)>,
) -> Option<Seq<u8>> {
    match container_of(input, fallback_header(input, format, options), input, options) {
        None => None,
        Some(f) => if format == InputFormat::BinaryFallback {
            Some(f)
        } else {
            match t {
                Some(tv) => match structural_archive(input, format, options, tv, ft) {
                    Some(c) => if spec_unpack_bytes(c, ft, fv) == Ok::<Seq<u8>, ArchiveError>(input) && c.len() < f.len() {
                        Some(c)
                    } else {
                        Some(f)
                    },
                    None => Some(f),
                },
                None => Some(f),
            }
        },
    }
}

/// Whether the table meets what a structural archive asks of it: every
/// column holds a value or an absence for each row, and each column's
/// values have a bincode size that fits a `u64`.
fn table_packable(t: &StoredTable) -> (r: bool)
    ensures
        r == packable(t@),
        r ==> forall|j: int| 0 <= j < t.columns@.len() ==> t.row_count <= (#[trigger] t.columns@[j]).values@.len(),
        r ==> forall|j: int| 0 <= j < t.columns@.len() ==> bincode_values_size(#[trigger] t@.columns[j].values) <= u64::MAX,
{
    let mut j: usize = 0;
    while j < t.columns.len()
        invariant
            0 <= j <= t.columns@.len(),
            forall|k: int| 0 <= k < j ==> t.row_count <= (#[trigger] t.columns@[k]).values@.len(),
            forall|k: int| 0 <= k < j ==> bincode_values_size(#[trigger] t@.columns[k].values) <= u64::MAX,
        decreases t.columns@.len() - j,
    {
        assert(t@.columns[j as int].values == crate::column::cells::cells_view(t.columns@[j as int].values@));
        assert(t@.columns[j as int] == t.columns@[j as int]@);
        if t.columns[j].values.len() < t.row_count {
            assert(!packable(t@));
            return false;
        }
        match crate::formats::table::bincode_size_checked(t.columns[j].values.as_slice()) {
            Some(_) => {},
            None => {
                assert(!packable(t@));
                return false;
            },
        }
        j = j + 1;
    }
    assert forall|k: int| 0 <= k < t@.columns.len() implies t@.row_count <= (#[trigger] t@.columns[k]).values.len() by {
        assert(t@.columns[k] == t.columns@[k]@);
    }
    true
}

/// Packs `input` as `format`: the fallback archive, unless `table` (the
/// input parsed in that format) gives a structural archive that is smaller
/// and unpacks to the input byte for byte with the same float forms. The
/// archive kept always unpacks to the input; only a failure to compress the
/// fallback is an error.
#[verifier::spinoff_prover]
#[verifier::rlimit(40)]
pub fn pack(
    input: &[u8],
    format: InputFormat,
    options: PackOptions,
    table: Option<StoredTable>,
    texts: &[(u64, String)],
    values: &[(u64, serde_json::Value)],
) -> (r: Result<Vec<u8>, ArchiveError>)
    ensures
        r matches Ok(a) ==> spec_unpack_bytes(a@, floats_view(texts@), float_values_view(values@)) == Ok::<Seq<u8>, ArchiveError>(input@),
        r matches Err(e) ==> e == ArchiveError::Compression && pack_fallback_fails(input@, format, options),
        match r {
            Ok(a) => spec_pack(input@, format, options, match table { Some(t) => Some(t@), None => None }, floats_view(texts@), float_values_view(values@)) == Some(a@),
            Err(_) => spec_pack(input@, format, options, match table { Some(t) => Some(t@), None => None }, floats_view(texts@), float_values_view(values@)) is None,
        },
{
    let fallback = match pack_fallback(input, format, options) {
        Ok(a) => a,
        Err(e) => return Err(e),
    };
    let ghost fb = fallback@;
    if format == InputFormat::BinaryFallback {
        return Ok(fallback);
    }
    let candidate: Option<Vec<u8>> = match table {
        Some(t) => if table_packable(&t) {
            match build_structural(input, format, options, t, texts) {
                Ok(a) => Some(a),
                Err(_) => None,
            }
        } else {
            None
        },
        None => None,
    };
    let restored: Option<Vec<u8>> = match &candidate {
        Some(c) => match unpack(c.as_slice(), texts, values) {
            Ok(b) => Some(b),
            Err(_) => None,
        },
        None => None,
    };
    let ghost cand = candidate;
    let ghost rest = restored;
    let a = choose_archive(input, fallback, candidate, restored);
    proof {
        if cand is Some && rest is Some && rest->Some_0@ == input@ && cand->Some_0@.len() < fb.len() {
            assert(a@ == cand->Some_0@);
            assert(spec_unpack_bytes(cand->Some_0@, floats_view(texts@), float_values_view(values@))
                == Ok::<Seq<u8>, ArchiveError>(rest->Some_0@));
        } else {
            assert(a@ == fb);
        }
    }
    Ok(a)
}

/// The table of `input` in `format`: exact lines for JSON lines in exact
/// mode, else the format's own table; `floats` gives the float that a text
/// stands for where it is not an integer.
pub open spec fn spec_parse_table(input: Seq<u8>, format: InputFormat, exact: bool, ff: Seq<(Seq<char>, u64)>) -> Result<TableV, ArchiveError> {
    match format {
        InputFormat::Jsonl => if exact {
            if valid_utf8(input) {
                Ok(spec_parse_exact(decode_utf8(input), spec_line_ending(input)))
            } else {
                Err(ArchiveError::InvalidUtf8)
            }
        } else {
            spec_parse_jsonl(input, ff)
        },
        InputFormat::Csv => match csv_records(input, 44) {
            None => Err(ArchiveError::Csv),
            Some((h, recs)) => Ok(delimited_table(h, recs, ff, InputFormat::Csv, 44, spec_line_ending(input), ends_with_lf(input))),
        },
        InputFormat::Tsv => match csv_records(input, 9) {
            None => Err(ArchiveError::Csv),
            Some((h, recs)) => Ok(delimited_table(h, recs, ff, InputFormat::Tsv, 9, spec_line_ending(input), ends_with_lf(input))),
        },
        InputFormat::Logs => if valid_utf8(input) {
            Ok(spec_parse_logs(decode_utf8(input), spec_line_ending(input)))
        } else {
            Err(ArchiveError::InvalidUtf8)
        },
        InputFormat::BinaryFallback => Err(ArchiveError::NoStructuralPlan),
    }
}

/// Parses `input` in `format` with the parser a structural archive uses:
/// exact lines for JSON lines in exact mode; a binary format has none.
pub fn parse_table(input: &[u8], format: InputFormat, exact: bool, floats: &[(String, u64)]) -> (r: Result<StoredTable, ArchiveError>)
    ensures
        match (r, spec_parse_table(input@, format, exact, float_fields_view(floats@))) {
            (Ok(t), Ok(v)) => t@ == v,
            (Err(e1), Err(e2)) => e1 == e2,
            _ => false,
        },
{
    match format {
        InputFormat::Jsonl => if exact {
            crate::formats::jsonl::parse_exact(input)
        } else {
            crate::formats::json::parse(input, floats)
        },
        InputFormat::Csv => crate::formats::csv::parse(input, floats),
        InputFormat::Tsv => crate::formats::tsv::parse(input, floats),
        InputFormat::Logs => crate::formats::logs::parse(input),
        InputFormat::BinaryFallback => Err(ArchiveError::NoStructuralPlan),
    }
}

/// An archive that unpacks can be inspected: it opens, and a structural
/// archive's payload, which decodes, can be walked chunk head by chunk head.
pub proof fn lemma_unpackable_archive_inspects(a: Seq<u8>, ft: Seq<(u64, Seq<char>)>, fv: Seq<(u64, JsonV)>)
    requires
        spec_unpack_bytes(a, ft, fv) is Ok,
    ensures
        inspect_succeeds(a),
{
    let arch = spec_parse_archive(a)->Ok_0;
    if !arch.header.fallback_used {
        crate::column::payload::lemma_decoded_payload_scans(arch.payload);
    }
}

} // verus!
