//! The `NXZ1` container: magic, version, flags, the compressed header and
//! payload with their lengths, and the checksum of the original input.
use vstd::prelude::*;
use vstd::bytes::{spec_u32_to_le_bytes, spec_u64_to_le_bytes};
use crate::error::ArchiveError;
use crate::checksum::{blake3_digest, blake3_bytes};
use crate::entropy::zstd::{zstd_compressed, zstd_decompressed};
use crate::formats::table::{StoredTable, TableV};
use crate::header::{
    ArchiveHeader, HeaderV, InputFormat, MAGIC, VERSION, header_bytes, spec_decode_header,
    encode_header, decode_header, header_writable, lemma_header_roundtrip,
};
use crate::column::{ColumnPlan};
use crate::column::payload::{
    spec_decode_table, spec_encode_table, encode_table, decode_table, block_count, codec_stats,
    spec_read_meta, spec_chunk_heads, stats_describe, column_names, CodecStat,
};
use crate::schema::Schema;
use crate::wire::{
    spec_read_u32, spec_read_u64, write_u32, write_u64, append_bytes, read_u32, read_u64,
    lemma_le_lengths, lemma_read_u32_of, lemma_read_u64_of, lemma_sub_prefix,
};

verus! {

/// How to pack: whether JSONL keeps its exact lines, and the zstd level.
#[derive(Debug, Clone, Copy)]
pub struct PackOptions {
    pub exact: bool,
    pub level: i32,
}

/// An opened archive: its header and its decompressed payload.
#[derive(Debug)]
pub struct Archive {
    pub header: ArchiveHeader,
    pub payload: Vec<u8>,
}

/// The mathematical value of an opened archive.
pub struct ArchiveV {
    pub header: HeaderV,
    pub payload: Seq<u8>,
}

impl View for Archive {
    type V = ArchiveV;

    open spec fn view(&self) -> ArchiveV {
        ArchiveV { header: self.header@, payload: self.payload@ }
    }
}

/// The parts of a container.
pub struct EnvelopeV {
    pub header_compressed: Seq<u8>,
    pub payload_compressed: Seq<u8>,
    pub checksum: Seq<u8>,
}

/// What opening an archive gives: the restored bytes (of a fallback archive,
/// checked against the header's hash), or a decoded table that still has to be
/// turned back into text in its format, with the hash its text must have.
#[derive(Debug)]
pub enum Unpacked {
    Restored(Vec<u8>),
    Decoded(InputFormat, StoredTable, [u8; 32]),
}

pub enum UnpackedV {
    Restored(Seq<u8>),
    Decoded(InputFormat, TableV, Seq<u8>),
}

impl View for Unpacked {
    type V = UnpackedV;

    open spec fn view(&self) -> UnpackedV {
        match self {
            Unpacked::Restored(b) => UnpackedV::Restored(b@),
            Unpacked::Decoded(f, t, h) => UnpackedV::Decoded(*f, t@, h@),
        }
    }
}

pub open spec fn magic_bytes() -> Seq<u8> {
    seq![0x4eu8, 0x58u8, 0x5au8, 0x31u8]
}

/// The fixed bytes of a container around its two sections.
pub open spec fn container_overhead() -> nat {
    4 + 4 + 4 + 8 + 8 + 32
}

/// A container: magic, version, flags, header length and header, payload
/// length and payload, checksum.
pub open spec fn container_bytes(flags: u32, hc: Seq<u8>, pc: Seq<u8>, checksum: Seq<u8>) -> Seq<u8> {
    magic_bytes() + spec_u32_to_le_bytes(1) + spec_u32_to_le_bytes(flags) + spec_u64_to_le_bytes(
        hc.len() as u64,
    ) + hc + spec_u64_to_le_bytes(pc.len() as u64) + pc + checksum
}

/// Splits a container into its sections.
pub open spec fn spec_parse_envelope(s: Seq<u8>) -> Result<EnvelopeV, ArchiveError> {
    if s.len() < 4 {
        Err(ArchiveError::UnexpectedEnd)
    } else if s.subrange(0, 4) != magic_bytes() {
        Err(ArchiveError::BadMagic)
    } else {
        match spec_read_u32(s, 4) {
            Err(e) => Err(e),
            Ok((version, p)) => if version != 1 {
                Err(ArchiveError::UnsupportedVersion(version))
            } else {
                match spec_read_u32(s, p) {
                    Err(e) => Err(e),
                    Ok((_, p2)) => match spec_read_u64(s, p2) {
                        Err(e) => Err(e),
                        Ok((hl, hs)) => if hs + (hl as usize) > usize::MAX {
                            Err(ArchiveError::LengthOverflow)
                        } else if hs + (hl as usize) > s.len() {
                            Err(ArchiveError::TruncatedHeader)
                        } else {
                            let he = hs + (hl as usize);
                            match spec_read_u64(s, he) {
                                Err(e) => Err(e),
                                Ok((pl, ps)) => if ps + (pl as usize) > usize::MAX {
                                    Err(ArchiveError::LengthOverflow)
                                } else if ps + (pl as usize) > s.len() {
                                    Err(ArchiveError::TruncatedPayload)
                                } else {
                                    let pe = ps + (pl as usize);
                                    if pe + 32 > s.len() {
                                        Err(ArchiveError::UnexpectedEnd)
                                    } else {
                                        Ok(EnvelopeV {
                                            header_compressed: s.subrange(hs, he),
                                            payload_compressed: s.subrange(ps, pe),
                                            checksum: s.subrange(pe, pe + 32),
                                        })
                                    }
                                },
                            }
                        },
                    },
                }
            },
        }
    }
}

/// Opens the sections: the header and the payload decompressed, and the
/// checksum matched against the header's hash.
pub open spec fn spec_archive_from_envelope(env: EnvelopeV) -> Result<ArchiveV, ArchiveError> {
    match zstd_decompressed(env.header_compressed) {
        None => Err(ArchiveError::Decompression),
        Some(hb) => match spec_decode_header(hb) {
            Err(e) => Err(e),
            Ok(h) => match zstd_decompressed(env.payload_compressed) {
                None => Err(ArchiveError::Decompression),
                Some(p) => if env.checksum != h.original_hash {
                    Err(ArchiveError::ArchiveChecksumMismatch)
                } else {
                    Ok(ArchiveV { header: h, payload: p })
                },
            },
        },
    }
}

pub open spec fn spec_parse_archive(s: Seq<u8>) -> Result<ArchiveV, ArchiveError> {
    match spec_parse_envelope(s) {
        Err(e) => Err(e),
        Ok(env) => spec_archive_from_envelope(env),
    }
}

/// Restored bytes pass when their hash is the one the header records.
pub open spec fn spec_check_restored(output: Seq<u8>, hash: Seq<u8>) -> Result<Seq<u8>, ArchiveError> {
    if blake3_digest(output)@ == hash {
        Ok(output)
    } else {
        Err(ArchiveError::ChecksumMismatch)
    }
}

/// Opens an archive: a fallback archive restores its payload; a structural
/// one decodes its payload into a table (a binary-fallback format restores the
/// payload once it decodes).
pub open spec fn spec_unpack(s: Seq<u8>) -> Result<UnpackedV, ArchiveError> {
    match spec_parse_archive(s) {
        Err(e) => Err(e),
        Ok(a) => if a.header.fallback_used {
            match spec_check_restored(a.payload, a.header.original_hash) {
                Err(e) => Err(e),
                Ok(b) => Ok(UnpackedV::Restored(b)),
            }
        } else {
            match spec_decode_table(a.payload) {
                Err(e) => Err(e),
                Ok(t) => if a.header.format == InputFormat::BinaryFallback {
                    match spec_check_restored(a.payload, a.header.original_hash) {
                        Err(e) => Err(e),
                        Ok(b) => Ok(UnpackedV::Restored(b)),
                    }
                } else {
                    Ok(UnpackedV::Decoded(a.header.format, t, a.header.original_hash))
                },
            }
        },
    }
}

/// The header that an archive of `input` records.
pub open spec fn expected_header(input: Seq<u8>, format: InputFormat, fallback_used: bool, options: PackOptions, schema: Schema, plans: Seq<ColumnPlan>, row_count: u64) -> HeaderV {
    HeaderV {
        version: 1,
        header_schema_version: 1,
        original_size: input.len() as u64,
        original_hash: blake3_digest(input)@,
        format,
        exact_mode: options.exact,
        fallback_used,
        schema: Seq::new(schema.columns@.len(), |i: int| crate::header::schema_col_view(schema.columns@[i])),
        row_count,
        column_plans: Seq::new(plans.len(), |i: int| crate::header::plan_view(plans[i])),
    }
}

/// `a` is a container of `input` with header `h` and payload `p`, each section
/// the zstd frame of its bytes at the level, which decompresses back to them.
pub open spec fn is_container_of(a: Seq<u8>, input: Seq<u8>, h: HeaderV, p: Seq<u8>, options: PackOptions) -> bool {
    exists|hc: Seq<u8>, pc: Seq<u8>|
        zstd_compressed(header_bytes(h), options.level) == Some(hc) && zstd_decompressed(hc) == Some(header_bytes(h))
            && zstd_compressed(p, options.level) == Some(pc) && zstd_decompressed(pc) == Some(p)
            && a == container_bytes(if options.exact { 1u32 } else { 0u32 }, hc, pc, blake3_digest(input)@)
}

/// Writes the container around two compressed sections.
fn write_container(flags: u32, hc: &[u8], pc: &[u8], checksum: &[u8; 32]) -> (out: Vec<u8>)
    ensures
        out@ == container_bytes(flags, hc@, pc@, checksum@),
{
    let mut out: Vec<u8> = Vec::new();
    append_bytes(&mut out, MAGIC.as_slice());
    write_u32(&mut out, VERSION);
    write_u32(&mut out, flags);
    write_u64(&mut out, hc.len() as u64);
    append_bytes(&mut out, hc);
    write_u64(&mut out, pc.len() as u64);
    append_bytes(&mut out, pc);
    append_bytes(&mut out, checksum.as_slice());
    assert(MAGIC@ =~= magic_bytes());
    assert(out@ =~= container_bytes(flags, hc@, pc@, checksum@));
    out
}

/// Builds an archive of `input`: the header records the input's size and
/// hash, the format and the plans; the payload is `payload` for a fallback
/// archive and the encoded table otherwise; both are compressed at the level.
fn build_archive(
    input: &[u8],
    format: InputFormat,
    fallback_used: bool,
    options: PackOptions,
    payload: Vec<u8>,
    table: Option<StoredTable>,
    schema: Schema,
    plans: Vec<ColumnPlan>,
) -> (r: Result<Vec<u8>, ArchiveError>)
    requires
        table matches Some(t) ==> forall|j: int| 0 <= j < t.columns@.len() ==> t.row_count <= (#[trigger] t.columns@[j]).values@.len(),
    ensures
        ({
            let row_count: u64 = match table {
                Some(t) => t.row_count as u64,
                None => 0,
            };
            let h = expected_header(input@, format, fallback_used, options, schema, plans@, row_count);
            match r {
                Ok(a) => if fallback_used {
                    is_container_of(a@, input@, h, payload@, options)
                } else {
                    match table {
                        Some(t) => match spec_encode_table(t@) {
                            Ok(p) => is_container_of(a@, input@, h, p, options) && p.len() <= usize::MAX,
                            Err(_) => false,
                        },
                        None => false,
                    }
                },
                Err(e) => if fallback_used {
                    e == ArchiveError::Compression && (zstd_compressed(header_bytes(h), options.level) is None
                        || zstd_compressed(payload@, options.level) is None)
                } else {
                    match table {
                        Some(t) => match spec_encode_table(t@) {
                            Err(e2) => e == e2,
                            Ok(p) => e == ArchiveError::Compression && (zstd_compressed(header_bytes(h), options.level) is None
                                || zstd_compressed(p, options.level) is None),
                        },
                        None => e == ArchiveError::NoStructuralPlan,
                    }
                },
            }
        }),
{
    let row_count: u64 = match &table {
        Some(t) => t.row_count as u64,
        None => 0,
    };
    let body = if fallback_used {
        payload
    } else {
        match &table {
            Some(t) => match encode_table(t, plans.as_slice()) {
                Ok(b) => b,
                Err(e) => return Err(e),
            },
            None => return Err(ArchiveError::NoStructuralPlan),
        }
    };
    assert(body@.len() == body.len());
    let hash = blake3_bytes(input);
    let header = ArchiveHeader {
        version: VERSION,
        header_schema_version: 1,
        original_size: input.len() as u64,
        original_hash: hash,
        format,
        exact_mode: options.exact,
        fallback_used,
        schema,
        row_count,
        column_plans: plans,
    };
    let ghost h = header@;
    proof {
        assert(h == expected_header(input@, format, fallback_used, options, header.schema, header.column_plans@, row_count));
    }
    let hb = encode_header(&header);
    let hc = match crate::entropy::zstd::encode(hb.as_slice(), options.level) {
        Ok(c) => c,
        Err(e) => return Err(e),
    };
    let pc = match crate::entropy::zstd::encode(body.as_slice(), options.level) {
        Ok(c) => c,
        Err(e) => return Err(e),
    };
    let flags: u32 = if options.exact { 1 } else { 0 };
    let out = write_container(flags, hc.as_slice(), pc.as_slice(), &hash);
    proof {
        assert(h == expected_header(input@, format, fallback_used, options, header.schema, header.column_plans@, row_count));
    }
    Ok(out)
}

/// The sections of a container.
fn parse_archive_envelope(bytes: &[u8]) -> (r: Result<(Vec<u8>, Vec<u8>, [u8; 32]), ArchiveError>)
    ensures
        match (r, spec_parse_envelope(bytes@)) {
            (Ok((h, p, c)), Ok(env)) => h@ == env.header_compressed && p@ == env.payload_compressed && c@ == env.checksum,
            (Err(e1), Err(e2)) => e1 == e2,
            _ => false,
        },
{
    if bytes.len() < 4 {
        return Err(ArchiveError::UnexpectedEnd);
    }
    if !(bytes[0] == MAGIC[0] && bytes[1] == MAGIC[1] && bytes[2] == MAGIC[2] && bytes[3] == MAGIC[3]) {
        assert(bytes@.subrange(0, 4) != magic_bytes()) by {
            if bytes@.subrange(0, 4) == magic_bytes() {
                assert(bytes@.subrange(0, 4)[0] == magic_bytes()[0]);
                assert(bytes@.subrange(0, 4)[1] == magic_bytes()[1]);
                assert(bytes@.subrange(0, 4)[2] == magic_bytes()[2]);
                assert(bytes@.subrange(0, 4)[3] == magic_bytes()[3]);
            }
        }
        return Err(ArchiveError::BadMagic);
    }
    assert(bytes@.subrange(0, 4) =~= magic_bytes());
    let (version, p) = match read_u32(bytes, 4) {
        Ok(x) => x,
        Err(e) => return Err(e),
    };
    if version != VERSION {
        return Err(ArchiveError::UnsupportedVersion(version));
    }
    let (_flags, p2) = match read_u32(bytes, p) {
        Ok(x) => x,
        Err(e) => return Err(e),
    };
    let (hl, hs) = match read_u64(bytes, p2) {
        Ok(x) => x,
        Err(e) => return Err(e),
    };
    let hlen = hl as usize;
    if hlen > usize::MAX - hs {
        return Err(ArchiveError::LengthOverflow);
    }
    let he = hs + hlen;
    if he > bytes.len() {
        return Err(ArchiveError::TruncatedHeader);
    }
    let (pl, ps) = match read_u64(bytes, he) {
        Ok(x) => x,
        Err(e) => return Err(e),
    };
    let plen = pl as usize;
    if plen > usize::MAX - ps {
        return Err(ArchiveError::LengthOverflow);
    }
    let pe = ps + plen;
    if pe > bytes.len() {
        return Err(ArchiveError::TruncatedPayload);
    }
    if bytes.len() - pe < 32 {
        return Err(ArchiveError::UnexpectedEnd);
    }
    let header_compressed = vstd::slice::slice_to_vec(vstd::slice::slice_subrange(bytes, hs, he));
    let payload_compressed = vstd::slice::slice_to_vec(vstd::slice::slice_subrange(bytes, ps, pe));
    let mut checksum: [u8; 32] = [0u8; 32];
    let mut i: usize = 0;
    while i < 32
        invariant
            0 <= i <= 32,
            pe + 32 <= bytes@.len(),
            bytes@.len() == bytes.len(),
            forall|j: int| 0 <= j < i ==> checksum@[j] == bytes@[pe + j],
        decreases 32 - i,
    {
        checksum[i] = bytes[pe + i];
        i = i + 1;
    }
    assert(checksum@ =~= bytes@.subrange(pe as int, pe + 32));
    Ok((header_compressed, payload_compressed, checksum))
}

/// Opens the sections of a container.
fn archive_from_envelope(hc: &[u8], pc: &[u8], checksum: &[u8; 32]) -> (r: Result<Archive, ArchiveError>)
    ensures
        match (r, spec_archive_from_envelope(EnvelopeV { header_compressed: hc@, payload_compressed: pc@, checksum: checksum@ })) {
            (Ok(a), Ok(v)) => a@ == v,
            (Err(e1), Err(e2)) => e1 == e2,
            _ => false,
        },
{
    let hb = match crate::entropy::zstd::decode(hc) {
        Ok(b) => b,
        Err(e) => return Err(e),
    };
    let header = match decode_header(hb.as_slice()) {
        Ok(h) => h,
        Err(e) => return Err(e),
    };
    let payload = match crate::entropy::zstd::decode(pc) {
        Ok(p) => p,
        Err(e) => return Err(e),
    };
    let mut same = true;
    let mut i: usize = 0;
    while i < 32
        invariant
            0 <= i <= 32,
            same <==> (forall|j: int| 0 <= j < i ==> checksum@[j] == header.original_hash@[j]),
        decreases 32 - i,
    {
        if checksum[i] != header.original_hash[i] {
            same = false;
        }
        i = i + 1;
    }
    if !same {
        assert(checksum@ != header.original_hash@) by {
            let j = choose|j: int| 0 <= j < 32 && checksum@[j] != header.original_hash@[j];
        }
        return Err(ArchiveError::ArchiveChecksumMismatch);
    }
    assert(checksum@ =~= header.original_hash@);
    Ok(Archive { header, payload })
}

/// Opens an archive: splits the container, decompresses its sections, reads
/// the header, and matches the checksum against the header's hash.
pub fn parse_archive(bytes: &[u8]) -> (r: Result<Archive, ArchiveError>)
    ensures
        match (r, spec_parse_archive(bytes@)) {
            (Ok(a), Ok(v)) => a@ == v,
            (Err(e1), Err(e2)) => e1 == e2,
            _ => false,
        },
{
    let (hc, pc, checksum) = match parse_archive_envelope(bytes) {
        Ok(x) => x,
        Err(e) => return Err(e),
    };
    archive_from_envelope(hc.as_slice(), pc.as_slice(), &checksum)
}

/// Whether two hashes are equal.
fn same_hash(a: &[u8; 32], b: &[u8; 32]) -> (r: bool)
    ensures
        r == (a@ == b@),
{
    let mut i: usize = 0;
    while i < 32
        invariant
            0 <= i <= 32,
            forall|j: int| 0 <= j < i ==> a@[j] == b@[j],
        decreases 32 - i,
    {
        if a[i] != b[i] {
            return false;
        }
        i = i + 1;
    }
    assert(a@ =~= b@);
    true
}

/// Accepts restored bytes when their hash is the one the header records.
pub fn check_restored(output: Vec<u8>, hash: &[u8; 32]) -> (r: Result<Vec<u8>, ArchiveError>)
    ensures
        match (r, spec_check_restored(output@, hash@)) {
            (Ok(a), Ok(b)) => a@ == b,
            (Err(e1), Err(e2)) => e1 == e2,
            _ => false,
        },
{
    let got = blake3_bytes(output.as_slice());
    if same_hash(&got, hash) {
        Ok(output)
    } else {
        Err(ArchiveError::ChecksumMismatch)
    }
}

/// Opens an archive as far as the library goes without its source format:
/// fallback archives come back restored, structural ones as their table.
pub fn unpack_archive(bytes: &[u8]) -> (r: Result<Unpacked, ArchiveError>)
    ensures
        match (r, spec_unpack(bytes@)) {
            (Ok(u), Ok(v)) => u@ == v,
            (Err(e1), Err(e2)) => e1 == e2,
            _ => false,
        },
{
    let archive = match parse_archive(bytes) {
        Ok(a) => a,
        Err(e) => return Err(e),
    };
    let Archive { header, payload } = archive;
    if header.fallback_used {
        return match check_restored(payload, &header.original_hash) {
            Ok(b) => Ok(Unpacked::Restored(b)),
            Err(e) => Err(e),
        };
    }
    let table = match decode_table(payload.as_slice()) {
        Ok(t) => t,
        Err(e) => return Err(e),
    };
    if header.format == InputFormat::BinaryFallback {
        match check_restored(payload, &header.original_hash) {
            Ok(b) => Ok(Unpacked::Restored(b)),
            Err(e) => Err(e),
        }
    } else {
        Ok(Unpacked::Decoded(header.format, table, header.original_hash))
    }
}

/// Splitting a container gives back its sections.
#[verifier::spinoff_prover]
proof fn lemma_parse_container(flags: u32, hc: Seq<u8>, pc: Seq<u8>, ck: Seq<u8>)
    requires
        ck.len() == 32,
        container_bytes(flags, hc, pc, ck).len() <= usize::MAX,
    ensures
        spec_parse_envelope(container_bytes(flags, hc, pc, ck)) == Ok::<EnvelopeV, ArchiveError>(
            EnvelopeV { header_compressed: hc, payload_compressed: pc, checksum: ck },
        ),
{
    let s = container_bytes(flags, hc, pc, ck);
    let m = magic_bytes();
    let v = spec_u32_to_le_bytes(1);
    let f = spec_u32_to_le_bytes(flags);
    let hl = spec_u64_to_le_bytes(hc.len() as u64);
    let pl = spec_u64_to_le_bytes(pc.len() as u64);
    lemma_le_lengths(1, hc.len() as u64);
    lemma_le_lengths(flags, pc.len() as u64);
    let r7 = pc + ck;
    let r6 = pl + r7;
    let r5 = hc + r6;
    let r4 = hl + r5;
    let r3 = f + r4;
    let r2 = v + r3;
    assert(s =~= m + r2);
    assert(s.subrange(0, s.len() as int) =~= s);
    lemma_sub_prefix(s, 0, m, r2);
    lemma_sub_prefix(s, 4, v, r3);
    lemma_read_u32_of(s, 4, 1);
    lemma_sub_prefix(s, 8, f, r4);
    lemma_read_u32_of(s, 8, flags);
    lemma_sub_prefix(s, 12, hl, r5);
    lemma_read_u64_of(s, 12, hc.len() as u64);
    lemma_sub_prefix(s, 20, hc, r6);
    let he: int = 20 + hc.len() as int;
    lemma_sub_prefix(s, he, pl, r7);
    lemma_read_u64_of(s, he, pc.len() as u64);
    lemma_sub_prefix(s, he + 8, pc, ck);
    assert(((hc.len() as u64) as usize) as int == hc.len());
    assert(((pc.len() as u64) as usize) as int == pc.len());
}

/// Every strict prefix of a container is refused: a truncated archive never
/// opens.
#[verifier::spinoff_prover]
pub proof fn lemma_truncated_container_refused(flags: u32, hc: Seq<u8>, pc: Seq<u8>, ck: Seq<u8>, k: int)
    requires
        ck.len() == 32,
        container_bytes(flags, hc, pc, ck).len() <= usize::MAX,
        0 <= k < container_bytes(flags, hc, pc, ck).len(),
    ensures
        spec_parse_envelope(container_bytes(flags, hc, pc, ck).take(k)) is Err,
        spec_unpack(container_bytes(flags, hc, pc, ck).take(k)) is Err,
{
    let s = container_bytes(flags, hc, pc, ck);
    let t = s.take(k);
    let m = magic_bytes();
    let v = spec_u32_to_le_bytes(1);
    let f = spec_u32_to_le_bytes(flags);
    let hl = spec_u64_to_le_bytes(hc.len() as u64);
    let pl = spec_u64_to_le_bytes(pc.len() as u64);
    lemma_le_lengths(1, hc.len() as u64);
    lemma_le_lengths(flags, pc.len() as u64);
    let r7 = pc + ck;
    let r6 = pl + r7;
    let r5 = hc + r6;
    let r4 = hl + r5;
    let r3 = f + r4;
    let r2 = v + r3;
    assert(s =~= m + r2);
    assert(s.subrange(0, s.len() as int) =~= s);
    lemma_sub_prefix(s, 0, m, r2);
    lemma_sub_prefix(s, 4, v, r3);
    lemma_read_u32_of(s, 4, 1);
    lemma_sub_prefix(s, 8, f, r4);
    lemma_read_u32_of(s, 8, flags);
    lemma_sub_prefix(s, 12, hl, r5);
    lemma_read_u64_of(s, 12, hc.len() as u64);
    lemma_sub_prefix(s, 20, hc, r6);
    let he: int = 20 + hc.len() as int;
    lemma_sub_prefix(s, he, pl, r7);
    lemma_read_u64_of(s, he, pc.len() as u64);
    assert(((hc.len() as u64) as usize) as int == hc.len());
    assert(((pc.len() as u64) as usize) as int == pc.len());
    assert(s.len() == he + 8 + pc.len() + 32);
    if k >= 4 {
        assert(t.subrange(0, 4) =~= s.subrange(0, 4));
        if k >= 8 {
            assert(t.subrange(4, 8) =~= s.subrange(4, 8));
            assert(spec_read_u32(t, 4) == spec_read_u32(s, 4));
            if k >= 12 {
                assert(t.subrange(8, 12) =~= s.subrange(8, 12));
                assert(spec_read_u32(t, 8) == spec_read_u32(s, 8));
                if k >= 20 {
                    assert(t.subrange(12, 20) =~= s.subrange(12, 20));
                    assert(spec_read_u64(t, 12) == spec_read_u64(s, 12));
                    if he + 8 <= k {
                        assert(t.subrange(he, he + 8) =~= s.subrange(he, he + 8));
                        assert(spec_read_u64(t, he) == spec_read_u64(s, he));
                    } else if he <= k {
                        assert(spec_read_u64(t, he) is Err);
                    }
                } else {
                    assert(spec_read_u64(t, 12) is Err);
                }
            } else {
                assert(spec_read_u32(t, 8) is Err);
            }
        } else {
            assert(spec_read_u32(t, 4) is Err);
        }
    }
}

/// An archive whose checksum differs from the hash its header records is
/// refused.
#[verifier::spinoff_prover]
pub proof fn lemma_checksum_mismatch_refused(flags: u32, hc: Seq<u8>, pc: Seq<u8>, ck: Seq<u8>, h: HeaderV)
    requires
        ck.len() == 32,
        container_bytes(flags, hc, pc, ck).len() <= usize::MAX,
        zstd_decompressed(hc) == Some(header_bytes(h)),
        header_writable(h),
        zstd_decompressed(pc) is Some,
        ck != h.original_hash,
    ensures
        spec_unpack(container_bytes(flags, hc, pc, ck)) == Err::<UnpackedV, ArchiveError>(ArchiveError::ArchiveChecksumMismatch),
{
    lemma_parse_container(flags, hc, pc, ck);
    lemma_header_roundtrip(h);
}

/// A fallback archive opens to the bytes it was made from.
#[verifier::spinoff_prover]
pub proof fn lemma_fallback_roundtrip(a: Seq<u8>, input: Seq<u8>, h: HeaderV, options: PackOptions)
    requires
        is_container_of(a, input, h, input, options),
        a.len() <= usize::MAX,
        h.fallback_used,
        h.original_hash == blake3_digest(input)@,
        header_writable(h),
    ensures
        spec_unpack(a) == Ok::<UnpackedV, ArchiveError>(UnpackedV::Restored(input)),
{
    let (hc, pc) = choose|hc: Seq<u8>, pc: Seq<u8>|
        zstd_compressed(header_bytes(h), options.level) == Some(hc) && zstd_decompressed(hc) == Some(header_bytes(h))
            && zstd_compressed(input, options.level) == Some(pc) && zstd_decompressed(pc) == Some(input)
            && a == container_bytes(if options.exact { 1u32 } else { 0u32 }, hc, pc, blake3_digest(input)@);
    crate::checksum::lemma_digest_len(input);
    lemma_parse_container(if options.exact { 1u32 } else { 0u32 }, hc, pc, blake3_digest(input)@);
    lemma_header_roundtrip(h);
}

/// A structural archive opens to the table it was made from, in its format,
/// with the hash of the input.
#[verifier::spinoff_prover]
pub proof fn lemma_structural_roundtrip(a: Seq<u8>, input: Seq<u8>, h: HeaderV, t: TableV, options: PackOptions)
    requires
        spec_encode_table(t) is Ok,
        spec_encode_table(t)->Ok_0.len() <= u64::MAX,
        is_container_of(a, input, h, spec_encode_table(t)->Ok_0, options),
        a.len() <= usize::MAX,
        !h.fallback_used,
        h.format != InputFormat::BinaryFallback,
        h.original_hash == blake3_digest(input)@,
        header_writable(h),
        crate::column::roundtrip::table_writable(t),
    ensures
        spec_unpack(a) == Ok::<UnpackedV, ArchiveError>(UnpackedV::Decoded(h.format, t, blake3_digest(input)@)),
{
    let p = spec_encode_table(t)->Ok_0;
    let (hc, pc) = choose|hc: Seq<u8>, pc: Seq<u8>|
        zstd_compressed(header_bytes(h), options.level) == Some(hc) && zstd_decompressed(hc) == Some(header_bytes(h))
            && zstd_compressed(p, options.level) == Some(pc) && zstd_decompressed(pc) == Some(p)
            && a == container_bytes(if options.exact { 1u32 } else { 0u32 }, hc, pc, blake3_digest(input)@);
    crate::checksum::lemma_digest_len(input);
    lemma_parse_container(if options.exact { 1u32 } else { 0u32 }, hc, pc, blake3_digest(input)@);
    lemma_header_roundtrip(h);
    crate::column::roundtrip::lemma_table_roundtrip(t);
}

/// The header of the fallback archive of `input`: no schema, no plans, no rows.
pub open spec fn fallback_header(input: Seq<u8>, format: InputFormat, options: PackOptions) -> HeaderV {
    HeaderV {
        version: 1,
        header_schema_version: 1,
        original_size: input.len() as u64,
        original_hash: blake3_digest(input)@,
        format,
        exact_mode: options.exact,
        fallback_used: true,
        schema: Seq::empty(),
        row_count: 0,
        column_plans: Seq::empty(),
    }
}

/// The header of the structural archive of `input` with table `t`: a schema
/// entry and a plan for each column.
pub open spec fn structural_header(input: Seq<u8>, format: InputFormat, options: PackOptions, t: TableV, uniques: Seq<usize>) -> HeaderV {
    HeaderV {
        version: 1,
        header_schema_version: 1,
        original_size: input.len() as u64,
        original_hash: blake3_digest(input)@,
        format,
        exact_mode: options.exact,
        fallback_used: false,
        schema: Seq::new(t.columns.len(), |j: int| crate::formats::table::schema_entry(t.columns[j], t.row_count as nat, uniques[j] as nat)),
        row_count: t.row_count as u64,
        column_plans: Seq::new(t.columns.len(), |j: int| crate::formats::table::plan_entry(t.columns[j], t.row_count as nat, uniques[j] as nat)),
    }
}

/// Builds the fallback archive of `input`: the input itself, compressed, as
/// the payload. It opens to the input.
pub fn pack_fallback(input: &[u8], format: InputFormat, options: PackOptions) -> (r: Result<Vec<u8>, ArchiveError>)
    ensures
        r matches Ok(a) ==> is_container_of(a@, input@, fallback_header(input@, format, options), input@, options),
        r matches Ok(a) ==> spec_unpack(a@) == Ok::<UnpackedV, ArchiveError>(UnpackedV::Restored(input@)),
        r matches Err(e) ==> e == ArchiveError::Compression && (zstd_compressed(header_bytes(fallback_header(input@, format, options)), options.level) is None
            || zstd_compressed(input@, options.level) is None),
{
    let payload = vstd::slice::slice_to_vec(input);
    let schema = Schema::default();
    let plans: Vec<ColumnPlan> = Vec::new();
    let ghost h = expected_header(input@, format, true, options, schema, plans@, 0);
    assert(h == fallback_header(input@, format, options)) by {
        assert(h.schema =~= Seq::<crate::header::SchemaColV>::empty());
        assert(h.column_plans =~= Seq::<crate::header::PlanV>::empty());
    }
    let r = build_archive(input, format, true, options, payload, None, schema, plans);
    match r {
        Ok(a) => {
            proof {
                crate::checksum::lemma_digest_len(input@);
                assert(crate::header::header_writable(h));
                assert(a@.len() == a.len());
                lemma_fallback_roundtrip(a@, input@, h, options);
            }
            Ok(a)
        },
        Err(e) => Err(e),
    }
}

/// The number of distinct texts of each column of a table.
pub open spec fn table_uniques(t: TableV, ft: Seq<(u64, Seq<char>)>) -> Seq<usize> {
    Seq::new(t.columns.len(), |j: int| crate::column::stats::distinct_texts(t.columns[j].values, ft).len() as usize)
}

/// The number of distinct texts of each column; floats take the text given
/// for their bit pattern.
fn column_uniques(table: &StoredTable, floats: &[(u64, String)]) -> (u: Vec<usize>)
    ensures
        u@ == table_uniques(table@, crate::formats::table::floats_view(floats@)),
{
    let mut u: Vec<usize> = Vec::new();
    let mut j: usize = 0;
    while j < table.columns.len()
        invariant
            0 <= j <= table.columns@.len(),
            u@ == table_uniques(table@, crate::formats::table::floats_view(floats@)).take(j as int),
        decreases table.columns@.len() - j,
    {
        let n = crate::column::stats::unique_count(table.columns[j].values.as_slice(), floats);
        u.push(n);
        j = j + 1;
        assert(u@ =~= table_uniques(table@, crate::formats::table::floats_view(floats@)).take(j as int));
    }
    assert(u@ =~= table_uniques(table@, crate::formats::table::floats_view(floats@)));
    u
}

/// Builds the structural archive of `input` from the table parsed out of it:
/// the header records a schema entry and a plan for each column, from the
/// column's values and its number of distinct texts (floats take the text
/// given for their bit pattern). A table that the payload can hold opens back
/// to itself, in its format, with the input's hash.
pub fn build_structural(input: &[u8], format: InputFormat, options: PackOptions, table: StoredTable, floats: &[(u64, String)]) -> (r: Result<Vec<u8>, ArchiveError>)
    requires
        forall|j: int| 0 <= j < table.columns@.len() ==> table.row_count <= (#[trigger] table.columns@[j]).values@.len(),
        forall|j: int| 0 <= j < table.columns@.len() ==> crate::formats::table::bincode_values_size(#[trigger] table@.columns[j].values) <= u64::MAX,
    ensures
        format == InputFormat::BinaryFallback ==> r == Err::<Vec<u8>, ArchiveError>(ArchiveError::NoStructuralPlan),
        format != InputFormat::BinaryFallback ==> match spec_encode_table(table@) {
            Err(e) => r == Err::<Vec<u8>, ArchiveError>(e),
            Ok(p) => {
                let h = structural_header(input@, format, options, table@, table_uniques(table@, crate::formats::table::floats_view(floats@)));
                match r {
                    Ok(a) => is_container_of(a@, input@, h, p, options),
                    Err(e) => e == ArchiveError::Compression && (zstd_compressed(header_bytes(h), options.level) is None
                        || zstd_compressed(p, options.level) is None),
                }
            },
        },
        r matches Ok(a) ==> (crate::column::roundtrip::table_writable(table@) ==> spec_unpack(a@)
            == Ok::<UnpackedV, ArchiveError>(UnpackedV::Decoded(format, table@, blake3_digest(input@)@))),
{
    if format == InputFormat::BinaryFallback {
        return Err(ArchiveError::NoStructuralPlan);
    }
    let uniques = column_uniques(&table, floats);
    let (schema, plans) = table.schema_and_plans(uniques.as_slice());
    let ghost t = table@;
    let ghost h = expected_header(input@, format, false, options, schema, plans@, table.row_count as u64);
    assert(h == structural_header(input@, format, options, t, uniques@)) by {
        assert(h.schema =~= structural_header(input@, format, options, t, uniques@).schema);
        assert(h.column_plans =~= structural_header(input@, format, options, t, uniques@).column_plans);
    }
    let r = build_archive(input, format, false, options, Vec::new(), Some(table), schema, plans);
    match r {
        Ok(a) => {
            proof {
                if crate::column::roundtrip::table_writable(t) {
                    crate::checksum::lemma_digest_len(input@);
                    assert forall|i: int| 0 <= i < h.schema.len() implies vstd::utf8::encode_utf8((#[trigger] h.schema[i]).name).len() <= u64::MAX by {
                        assert(h.schema[i].name == t.columns[i].name);
                    }
                    assert forall|i: int| 0 <= i < h.column_plans.len() implies vstd::utf8::encode_utf8((#[trigger] h.column_plans[i]).name).len() <= u64::MAX by {
                        assert(h.column_plans[i].name == t.columns[i].name);
                    }
                    assert(crate::header::header_writable(h));
                    assert(a@.len() == a.len());
                    lemma_structural_roundtrip(a@, input@, h, t, options);
                }
            }
            Ok(a)
        },
        Err(e) => Err(e),
    }
}

/// Picks the archive to keep: the structural candidate when its restoration
/// gave the input back byte for byte and it is smaller than the fallback, the
/// fallback otherwise.
pub fn choose_archive(input: &[u8], fallback: Vec<u8>, candidate: Option<Vec<u8>>, restored: Option<Vec<u8>>) -> (r: Vec<u8>)
    ensures
        (candidate matches Some(c) && restored matches Some(b) && b@ == input@ && c@.len() < fallback@.len())
            ==> r@ == candidate->Some_0@,
        !(candidate matches Some(c) && restored matches Some(b) && b@ == input@ && c@.len() < fallback@.len())
            ==> r@ == fallback@,
{
    match (candidate, restored) {
        (Some(c), Some(b)) => {
            let same = same_bytes(b.as_slice(), input);
            if same && c.len() < fallback.len() {
                c
            } else {
                fallback
            }
        },
        _ => fallback,
    }
}

/// Whether two byte strings are equal.
fn same_bytes(a: &[u8], b: &[u8]) -> (r: bool)
    ensures
        r == (a@ == b@),
{
    if a.len() != b.len() {
        return false;
    }
    let mut i: usize = 0;
    while i < a.len()
        invariant
            0 <= i <= a.len(),
            a.len() == b.len(),
            forall|j: int| 0 <= j < i ==> a@[j] == b@[j],
        decreases a.len() - i,
    {
        if a[i] != b[i] {
            return false;
        }
        i = i + 1;
    }
    assert(a@ =~= b@);
    true
}

/// The sizes of an archive's parts.
#[derive(Debug, Clone, Copy)]
pub struct SizeBreakdown {
    pub header_compressed: usize,
    pub payload_compressed: usize,
    pub payload_decoded: usize,
    pub container_overhead: usize,
}

/// What `inspect` reports of an archive.
#[derive(Debug)]
pub struct ArchiveInspection {
    pub version: u32,
    pub header_schema_version: u32,
    pub format: InputFormat,
    pub original_size: u64,
    pub archive_size: usize,
    pub fallback: bool,
    pub rows: u64,
    pub columns: usize,
    pub blocks: usize,
    pub sizes: SizeBreakdown,
    pub plans: Vec<ColumnPlan>,
    pub codec_stats: Vec<CodecStat>,
}

/// The block count a report shows: none for a fallback archive, and none when
/// the payload does not announce one.
pub open spec fn report_blocks(a: ArchiveV) -> nat {
    if a.header.fallback_used {
        0
    } else {
        match spec_read_meta(a.payload) {
            Ok((_, p)) => match spec_read_u32(a.payload, p) {
                Ok((n, _)) => n as nat,
                Err(_) => 0,
            },
            Err(_) => 0,
        }
    }
}

/// Inspecting an archive succeeds: it opens, and for a structural archive its
/// payload can be walked chunk head by chunk head.
pub open spec fn inspect_succeeds(s: Seq<u8>) -> bool {
    match spec_parse_archive(s) {
        Err(_) => false,
        Ok(a) => a.header.fallback_used || spec_chunk_heads(a.payload) is Ok,
    }
}

/// Inspects an archive: the header's fields, the sizes of the parts, the
/// column plans, and for a structural archive the block count and the codec
/// statistics of the payload's chunks.
pub fn inspect_archive_report(bytes: &[u8]) -> (r: Result<ArchiveInspection, ArchiveError>)
    ensures
        r is Ok <==> inspect_succeeds(bytes@),
        match spec_parse_envelope(bytes@) {
            Err(e) => r == Err::<ArchiveInspection, ArchiveError>(e),
            Ok(env) => match spec_archive_from_envelope(env) {
                Err(e) => r == Err::<ArchiveInspection, ArchiveError>(e),
                Ok(a) => {
                    let stats = spec_chunk_heads(a.payload);
                    if !a.header.fallback_used && stats is Err {
                        r == Err::<ArchiveInspection, ArchiveError>(stats->Err_0)
                    } else {
                        r matches Ok(rep) && {
                            &&& rep.version == a.header.version
                            &&& rep.header_schema_version == a.header.header_schema_version
                            &&& rep.format == a.header.format
                            &&& rep.original_size == a.header.original_size
                            &&& rep.archive_size == bytes@.len()
                            &&& rep.fallback == a.header.fallback_used
                            &&& rep.rows == a.header.row_count
                            &&& rep.columns == a.header.column_plans.len()
                            &&& rep.blocks == report_blocks(a)
                            &&& rep.sizes.header_compressed == env.header_compressed.len()
                            &&& rep.sizes.payload_compressed == env.payload_compressed.len()
                            &&& rep.sizes.payload_decoded == a.payload.len()
                            &&& rep.sizes.container_overhead == container_overhead()
                            &&& Seq::new(rep.plans@.len(), |i: int| crate::header::plan_view(rep.plans@[i])) == a.header.column_plans
                            &&& (a.header.fallback_used ==> rep.codec_stats@.len() == 0)
                            &&& (!a.header.fallback_used ==> stats_describe(rep.codec_stats@, column_names(stats->Ok_0.0), stats->Ok_0.1))
                        }
                    }
                },
            },
        },
{
    let (hc, pc, checksum) = match parse_archive_envelope(bytes) {
        Ok(x) => x,
        Err(e) => return Err(e),
    };
    let archive = match archive_from_envelope(hc.as_slice(), pc.as_slice(), &checksum) {
        Ok(a) => a,
        Err(e) => return Err(e),
    };
    let blocks = if archive.header.fallback_used {
        0
    } else {
        match block_count(archive.payload.as_slice()) {
            Ok(n) => n,
            Err(_) => 0,
        }
    };
    let stats = if archive.header.fallback_used {
        Vec::new()
    } else {
        match codec_stats(archive.payload.as_slice()) {
            Ok(s) => s,
            Err(e) => return Err(e),
        }
    };
    let Archive { header, payload } = archive;
    let sizes = SizeBreakdown {
        header_compressed: hc.len(),
        payload_compressed: pc.len(),
        payload_decoded: payload.len(),
        container_overhead: 4 + 4 + 4 + 8 + 8 + 32,
    };
    let columns = header.column_plans.len();
    Ok(ArchiveInspection {
        version: header.version,
        header_schema_version: header.header_schema_version,
        format: header.format,
        original_size: header.original_size,
        archive_size: bytes.len(),
        fallback: header.fallback_used,
        rows: header.row_count,
        columns,
        blocks,
        sizes,
        plans: header.column_plans,
        codec_stats: stats,
    })
}

} // verus!
