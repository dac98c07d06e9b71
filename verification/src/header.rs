//! The archive header: what the container records about the original input.
use vstd::prelude::*;
use vstd::bytes::{spec_u32_to_le_bytes, spec_u64_to_le_bytes};
use vstd::utf8::encode_utf8;
use crate::error::ArchiveError;
use crate::column::{ColumnCodec, ColumnPlan};
use crate::column::chunk::{spec_codec_id, spec_codec_from_id, codec_id, codec_from_id};
use crate::column::payload::{spec_format_id, spec_format_from_id, format_id, format_from_id};
use crate::schema::{ColumnSchema, ColumnType, Schema};
use crate::wire::{spec_read_u8, spec_read_u32, spec_read_u64, spec_read_string, spec_string_field, write_u8, write_u32, write_u64, write_string, read_u8, read_u32, read_u64, read_string, append_bytes, lemma_le_lengths, lemma_read_u32_of, lemma_read_u64_of, lemma_read_string_of, lemma_sub_prefix};

verus! {

/// The four bytes every archive starts with: `NXZ1`.
pub const MAGIC: [u8; 4] = [0x4e, 0x58, 0x5a, 0x31];

/// The container version.
pub const VERSION: u32 = 1;

#[derive(Debug, Clone, Copy, PartialEq, Eq, Structural)]
pub enum InputFormat {
    Jsonl,
    Csv,
    Tsv,
    Logs,
    BinaryFallback,
}

#[derive(Debug, Clone)]
pub struct ArchiveHeader {
    pub version: u32,
    pub header_schema_version: u32,
    pub original_size: u64,
    pub original_hash: [u8; 32],
    pub format: InputFormat,
    pub exact_mode: bool,
    pub fallback_used: bool,
    pub schema: Schema,
    pub row_count: u64,
    pub column_plans: Vec<ColumnPlan>,
}

/// The mathematical value of a column schema.
pub struct SchemaColV {
    pub name: Seq<char>,
    pub column_type: ColumnType,
    pub nullable: bool,
}

/// The mathematical value of a column plan.
pub struct PlanV {
    pub name: Seq<char>,
    pub column_type: ColumnType,
    pub codec: ColumnCodec,
    pub original_len: u64,
    pub encoded_len_estimate: u64,
}

/// The mathematical value of a header.
pub struct HeaderV {
    pub version: u32,
    pub header_schema_version: u32,
    pub original_size: u64,
    pub original_hash: Seq<u8>,
    pub format: InputFormat,
    pub exact_mode: bool,
    pub fallback_used: bool,
    pub schema: Seq<SchemaColV>,
    pub row_count: u64,
    pub column_plans: Seq<PlanV>,
}

pub open spec fn schema_col_view(c: ColumnSchema) -> SchemaColV {
    SchemaColV { name: c.name@, column_type: c.column_type, nullable: c.nullable }
}

pub open spec fn plan_view(p: ColumnPlan) -> PlanV {
    PlanV {
        name: p.name@,
        column_type: p.column_type,
        codec: p.codec,
        original_len: p.original_len,
        encoded_len_estimate: p.encoded_len_estimate,
    }
}

impl View for ArchiveHeader {
    type V = HeaderV;

    open spec fn view(&self) -> HeaderV {
        HeaderV {
            version: self.version,
            header_schema_version: self.header_schema_version,
            original_size: self.original_size,
            original_hash: self.original_hash@,
            format: self.format,
            exact_mode: self.exact_mode,
            fallback_used: self.fallback_used,
            schema: Seq::new(self.schema.columns@.len(), |i: int| schema_col_view(self.schema.columns@[i])),
            row_count: self.row_count,
            column_plans: Seq::new(self.column_plans@.len(), |i: int| plan_view(self.column_plans@[i])),
        }
    }
}

/// The bincode variant index of a column type: its place in the declaration.
pub open spec fn spec_column_type_index(t: ColumnType) -> u32 {
    match t {
        ColumnType::Null => 0,
        ColumnType::Bool => 1,
        ColumnType::Integer => 2,
        ColumnType::Float => 3,
        ColumnType::String => 4,
        ColumnType::Enum => 5,
        ColumnType::Timestamp => 6,
        ColumnType::JsonRaw => 7,
    }
}

pub open spec fn spec_column_type_from_index(v: u32) -> Result<ColumnType, ArchiveError> {
    if v == 0 {
        Ok(ColumnType::Null)
    } else if v == 1 {
        Ok(ColumnType::Bool)
    } else if v == 2 {
        Ok(ColumnType::Integer)
    } else if v == 3 {
        Ok(ColumnType::Float)
    } else if v == 4 {
        Ok(ColumnType::String)
    } else if v == 5 {
        Ok(ColumnType::Enum)
    } else if v == 6 {
        Ok(ColumnType::Timestamp)
    } else if v == 7 {
        Ok(ColumnType::JsonRaw)
    } else {
        Err(ArchiveError::UnknownVariant(v))
    }
}

/// The bincode variant index of a source format.
pub open spec fn spec_format_index(f: InputFormat) -> u32 {
    spec_format_id(f) as u32
}

pub open spec fn spec_format_from_index(v: u32) -> Result<InputFormat, ArchiveError> {
    if v < 5 {
        spec_format_from_id(v as u8)
    } else {
        Err(ArchiveError::UnknownVariant(v))
    }
}

/// The bincode variant index of a codec.
pub open spec fn spec_codec_index(c: ColumnCodec) -> u32 {
    spec_codec_id(c) as u32
}

pub open spec fn spec_codec_from_index(v: u32) -> Result<ColumnCodec, ArchiveError> {
    if v < 7 {
        spec_codec_from_id(v as u8)
    } else {
        Err(ArchiveError::UnknownVariant(v))
    }
}

fn column_type_index(t: ColumnType) -> (v: u32)
    ensures
        v == spec_column_type_index(t),
        spec_column_type_from_index(v) == Ok::<ColumnType, ArchiveError>(t),
{
    match t {
        ColumnType::Null => 0,
        ColumnType::Bool => 1,
        ColumnType::Integer => 2,
        ColumnType::Float => 3,
        ColumnType::String => 4,
        ColumnType::Enum => 5,
        ColumnType::Timestamp => 6,
        ColumnType::JsonRaw => 7,
    }
}

fn column_type_from_index(v: u32) -> (r: Result<ColumnType, ArchiveError>)
    ensures
        r == spec_column_type_from_index(v),
{
    match v {
        0 => Ok(ColumnType::Null),
        1 => Ok(ColumnType::Bool),
        2 => Ok(ColumnType::Integer),
        3 => Ok(ColumnType::Float),
        4 => Ok(ColumnType::String),
        5 => Ok(ColumnType::Enum),
        6 => Ok(ColumnType::Timestamp),
        7 => Ok(ColumnType::JsonRaw),
        _ => Err(ArchiveError::UnknownVariant(v)),
    }
}

fn format_index(f: InputFormat) -> (v: u32)
    ensures
        v == spec_format_index(f),
        spec_format_from_index(v) == Ok::<InputFormat, ArchiveError>(f),
{
    format_id(f) as u32
}

fn format_from_index(v: u32) -> (r: Result<InputFormat, ArchiveError>)
    ensures
        r == spec_format_from_index(v),
{
    if v < 5 {
        format_from_id(v as u8)
    } else {
        Err(ArchiveError::UnknownVariant(v))
    }
}

fn codec_index(c: ColumnCodec) -> (v: u32)
    ensures
        v == spec_codec_index(c),
        spec_codec_from_index(v) == Ok::<ColumnCodec, ArchiveError>(c),
{
    codec_id(c) as u32
}

fn codec_from_index(v: u32) -> (r: Result<ColumnCodec, ArchiveError>)
    ensures
        r == spec_codec_from_index(v),
{
    if v < 7 {
        codec_from_id(v as u8)
    } else {
        Err(ArchiveError::UnknownVariant(v))
    }
}

/// A `bool` as bincode writes it.
pub open spec fn bool_byte(b: bool) -> u8 {
    if b { 1 } else { 0 }
}

/// A `bool` as bincode reads it: 0 or 1, any other byte is refused.
pub open spec fn spec_bool_from_byte(b: u8) -> Result<bool, ArchiveError> {
    if b == 0 {
        Ok(false)
    } else if b == 1 {
        Ok(true)
    } else {
        Err(ArchiveError::InvalidBool(b))
    }
}

fn bool_from_byte(b: u8) -> (r: Result<bool, ArchiveError>)
    ensures
        r == spec_bool_from_byte(b),
{
    if b == 0 {
        Ok(false)
    } else if b == 1 {
        Ok(true)
    } else {
        Err(ArchiveError::InvalidBool(b))
    }
}

/// A schema column as bincode writes it: the name (`u64` length and UTF-8
/// bytes), the type's variant index as a `u32`, the nullable flag.
pub open spec fn schema_col_bytes(c: SchemaColV) -> Seq<u8> {
    spec_string_field(c.name) + spec_u32_to_le_bytes(spec_column_type_index(c.column_type)) + seq![bool_byte(c.nullable)]
}

/// A plan as bincode writes it: the name, the type's and the codec's variant
/// indexes as `u32`, the original length and the estimate as `u64`.
pub open spec fn plan_bytes(p: PlanV) -> Seq<u8> {
    spec_string_field(p.name) + spec_u32_to_le_bytes(spec_column_type_index(p.column_type))
        + spec_u32_to_le_bytes(spec_codec_index(p.codec))
        + spec_u64_to_le_bytes(p.original_len) + spec_u64_to_le_bytes(p.encoded_len_estimate)
}

pub open spec fn schema_cols_bytes(c: Seq<SchemaColV>) -> Seq<u8>
    decreases c.len(),
{
    if c.len() == 0 {
        Seq::empty()
    } else {
        schema_cols_bytes(c.drop_last()) + schema_col_bytes(c.last())
    }
}

pub open spec fn plans_bytes(p: Seq<PlanV>) -> Seq<u8>
    decreases p.len(),
{
    if p.len() == 0 {
        Seq::empty()
    } else {
        plans_bytes(p.drop_last()) + plan_bytes(p.last())
    }
}

/// The header as bincode writes an `ArchiveHeader`: version, header schema
/// version, original size, the 32 hash bytes, the format's variant index as a
/// `u32`, the exact and fallback flags, the schema columns after their `u64`
/// count, the row count, and the column plans after their `u64` count.
pub open spec fn header_bytes(h: HeaderV) -> Seq<u8> {
    spec_u32_to_le_bytes(h.version) + spec_u32_to_le_bytes(h.header_schema_version)
        + spec_u64_to_le_bytes(h.original_size) + h.original_hash
        + spec_u32_to_le_bytes(spec_format_index(h.format)) + seq![
        bool_byte(h.exact_mode),
        bool_byte(h.fallback_used),
    ] + spec_u64_to_le_bytes(h.schema.len() as u64) + schema_cols_bytes(h.schema)
        + spec_u64_to_le_bytes(h.row_count) + spec_u64_to_le_bytes(h.column_plans.len() as u64)
        + plans_bytes(h.column_plans)
}

pub open spec fn spec_read_bool(s: Seq<u8>, pos: int) -> Result<(bool, int), ArchiveError> {
    match spec_read_u8(s, pos) {
        Err(e) => Err(e),
        Ok((b, p)) => match spec_bool_from_byte(b) {
            Err(e) => Err(e),
            Ok(v) => Ok((v, p)),
        },
    }
}

pub open spec fn spec_read_schema_col(s: Seq<u8>, pos: int) -> Result<(SchemaColV, int), ArchiveError> {
    match spec_read_string(s, pos) {
        Err(e) => Err(e),
        Ok((name, p)) => match spec_read_u32(s, p) {
            Err(e) => Err(e),
            Ok((tid, q)) => match spec_column_type_from_index(tid) {
                Err(e) => Err(e),
                Ok(t) => match spec_read_bool(s, q) {
                    Err(e) => Err(e),
                    Ok((nb, r)) => Ok((SchemaColV { name, column_type: t, nullable: nb }, r)),
                },
            },
        },
    }
}

pub open spec fn spec_read_plan(s: Seq<u8>, pos: int) -> Result<(PlanV, int), ArchiveError> {
    match spec_read_string(s, pos) {
        Err(e) => Err(e),
        Ok((name, p)) => match spec_read_u32(s, p) {
            Err(e) => Err(e),
            Ok((tid, q)) => match spec_column_type_from_index(tid) {
                Err(e) => Err(e),
                Ok(t) => match spec_read_u32(s, q) {
                    Err(e) => Err(e),
                    Ok((cid, r)) => match spec_codec_from_index(cid) {
                        Err(e) => Err(e),
                        Ok(c) => match spec_read_u64(s, r) {
                            Err(e) => Err(e),
                            Ok((ol, r2)) => match spec_read_u64(s, r2) {
                                Err(e) => Err(e),
                                Ok((el, r3)) => Ok((
                                    PlanV { name, column_type: t, codec: c, original_len: ol, encoded_len_estimate: el },
                                    r3,
                                )),
                            },
                        },
                    },
                },
            },
        },
    }
}

pub open spec fn spec_read_schema_cols(s: Seq<u8>, pos: int, n: nat) -> Result<(Seq<SchemaColV>, int), ArchiveError>
    decreases n,
{
    if n == 0 {
        Ok((Seq::empty(), pos))
    } else {
        match spec_read_schema_cols(s, pos, (n - 1) as nat) {
            Err(e) => Err(e),
            Ok((c, p)) => match spec_read_schema_col(s, p) {
                Err(e) => Err(e),
                Ok((x, q)) => Ok((c.push(x), q)),
            },
        }
    }
}

pub open spec fn spec_read_plans(s: Seq<u8>, pos: int, n: nat) -> Result<(Seq<PlanV>, int), ArchiveError>
    decreases n,
{
    if n == 0 {
        Ok((Seq::empty(), pos))
    } else {
        match spec_read_plans(s, pos, (n - 1) as nat) {
            Err(e) => Err(e),
            Ok((c, p)) => match spec_read_plan(s, p) {
                Err(e) => Err(e),
                Ok((x, q)) => Ok((c.push(x), q)),
            },
        }
    }
}

/// Reads a header as bincode reads an `ArchiveHeader`; bytes after it are not
/// looked at.
pub open spec fn spec_decode_header(s: Seq<u8>) -> Result<HeaderV, ArchiveError> {
    match spec_read_u32(s, 0) {
        Err(e) => Err(e),
        Ok((version, p1)) => match spec_read_u32(s, p1) {
            Err(e) => Err(e),
            Ok((hsv, p2)) => match spec_read_u64(s, p2) {
                Err(e) => Err(e),
                Ok((size, p3)) => if p3 + 32 > s.len() {
                    Err(ArchiveError::UnexpectedEnd)
                } else {
                    match spec_read_u32(s, p3 + 32) {
                        Err(e) => Err(e),
                        Ok((fid, p4)) => match spec_format_from_index(fid) {
                            Err(e) => Err(e),
                            Ok(format) => match spec_read_bool(s, p4) {
                                Err(e) => Err(e),
                                Ok((ex, p5)) => match spec_read_bool(s, p5) {
                                    Err(e) => Err(e),
                                    Ok((fb, p6)) => match spec_read_u64(s, p6) {
                                        Err(e) => Err(e),
                                        Ok((nsc, p7)) => match spec_read_schema_cols(s, p7, nsc as nat) {
                                            Err(e) => Err(e),
                                            Ok((schema, p8)) => match spec_read_u64(s, p8) {
                                                Err(e) => Err(e),
                                                Ok((rows, p9)) => match spec_read_u64(s, p9) {
                                                    Err(e) => Err(e),
                                                    Ok((npl, p10)) => match spec_read_plans(s, p10, npl as nat) {
                                                        Err(e) => Err(e),
                                                        Ok((plans, _)) => Ok(HeaderV {
                                                            version,
                                                            header_schema_version: hsv,
                                                            original_size: size,
                                                            original_hash: s.subrange(p3, p3 + 32),
                                                            format,
                                                            exact_mode: ex,
                                                            fallback_used: fb,
                                                            schema,
                                                            row_count: rows,
                                                            column_plans: plans,
                                                        }),
                                                    },
                                                },
                                            },
                                        },
                                    },
                                },
                            },
                        },
                    }
                },
            },
        },
    }
}

/// Writes a header as bincode writes an `ArchiveHeader`.
pub fn encode_header(header: &ArchiveHeader) -> (out: Vec<u8>)
    ensures
        out@ == header_bytes(header@),
{
    let ghost h = header@;
    let mut out: Vec<u8> = Vec::new();
    write_u32(&mut out, header.version);
    write_u32(&mut out, header.header_schema_version);
    write_u64(&mut out, header.original_size);
    append_bytes(&mut out, header.original_hash.as_slice());
    write_u32(&mut out, format_index(header.format));
    write_u8(&mut out, if header.exact_mode { 1 } else { 0 });
    write_u8(&mut out, if header.fallback_used { 1 } else { 0 });
    write_u64(&mut out, header.schema.columns.len() as u64);
    let ghost mid = out@;
    let mut i: usize = 0;
    while i < header.schema.columns.len()
        invariant
            0 <= i <= header.schema.columns@.len(),
            h == header@,
            out@ == mid + schema_cols_bytes(h.schema.take(i as int)),
        decreases header.schema.columns@.len() - i,
    {
        assert(h.schema.take(i + 1).drop_last() =~= h.schema.take(i as int));
        let c = &header.schema.columns[i];
        write_string(&mut out, c.name.as_str());
        write_u32(&mut out, column_type_index(c.column_type));
        write_u8(&mut out, if c.nullable { 1 } else { 0 });
        i = i + 1;
        assert(out@ =~= mid + schema_cols_bytes(h.schema.take(i as int)));
    }
    assert(h.schema.take(h.schema.len() as int) =~= h.schema);
    write_u64(&mut out, header.row_count);
    write_u64(&mut out, header.column_plans.len() as u64);
    let ghost mid2 = out@;
    let mut k: usize = 0;
    while k < header.column_plans.len()
        invariant
            0 <= k <= header.column_plans@.len(),
            h == header@,
            out@ == mid2 + plans_bytes(h.column_plans.take(k as int)),
        decreases header.column_plans@.len() - k,
    {
        assert(h.column_plans.take(k + 1).drop_last() =~= h.column_plans.take(k as int));
        let p = &header.column_plans[k];
        write_string(&mut out, p.name.as_str());
        write_u32(&mut out, column_type_index(p.column_type));
        write_u32(&mut out, codec_index(p.codec));
        write_u64(&mut out, p.original_len);
        write_u64(&mut out, p.encoded_len_estimate);
        k = k + 1;
        assert(out@ =~= mid2 + plans_bytes(h.column_plans.take(k as int)));
    }
    assert(h.column_plans.take(h.column_plans.len() as int) =~= h.column_plans);
    assert(out@ =~= header_bytes(h));
    out
}

fn read_bool(s: &[u8], pos: usize) -> (r: Result<(bool, usize), ArchiveError>)
    ensures
        match (r, spec_read_bool(s@, pos as int)) {
            (Ok((b, p)), Ok((c, q))) => b == c && p == q,
            (Err(e1), Err(e2)) => e1 == e2,
            _ => false,
        },
{
    let (b, p) = match read_u8(s, pos) {
        Ok(x) => x,
        Err(e) => return Err(e),
    };
    match bool_from_byte(b) {
        Ok(v) => Ok((v, p)),
        Err(e) => Err(e),
    }
}

fn read_schema_col(s: &[u8], pos: usize) -> (r: Result<(ColumnSchema, usize), ArchiveError>)
    ensures
        match (r, spec_read_schema_col(s@, pos as int)) {
            (Ok((c, p)), Ok((d, q))) => schema_col_view(c) == d && p == q,
            (Err(e1), Err(e2)) => e1 == e2,
            _ => false,
        },
{
    let (name, p) = match read_string(s, pos) {
        Ok(x) => x,
        Err(e) => return Err(e),
    };
    let (tid, q) = match read_u32(s, p) {
        Ok(x) => x,
        Err(e) => return Err(e),
    };
    let t = match column_type_from_index(tid) {
        Ok(t) => t,
        Err(e) => return Err(e),
    };
    let (nb, r) = match read_bool(s, q) {
        Ok(x) => x,
        Err(e) => return Err(e),
    };
    Ok((ColumnSchema { name, column_type: t, nullable: nb }, r))
}

fn read_plan(s: &[u8], pos: usize) -> (r: Result<(ColumnPlan, usize), ArchiveError>)
    ensures
        match (r, spec_read_plan(s@, pos as int)) {
            (Ok((c, p)), Ok((d, q))) => plan_view(c) == d && p == q,
            (Err(e1), Err(e2)) => e1 == e2,
            _ => false,
        },
{
    let (name, p) = match read_string(s, pos) {
        Ok(x) => x,
        Err(e) => return Err(e),
    };
    let (tid, q) = match read_u32(s, p) {
        Ok(x) => x,
        Err(e) => return Err(e),
    };
    let t = match column_type_from_index(tid) {
        Ok(t) => t,
        Err(e) => return Err(e),
    };
    let (cid, r) = match read_u32(s, q) {
        Ok(x) => x,
        Err(e) => return Err(e),
    };
    let codec = match codec_from_index(cid) {
        Ok(c) => c,
        Err(e) => return Err(e),
    };
    let (ol, r2) = match read_u64(s, r) {
        Ok(x) => x,
        Err(e) => return Err(e),
    };
    let (el, r3) = match read_u64(s, r2) {
        Ok(x) => x,
        Err(e) => return Err(e),
    };
    Ok((ColumnPlan { name, column_type: t, codec, original_len: ol, encoded_len_estimate: el }, r3))
}

#[verifier::spinoff_prover]
proof fn lemma_schema_cols_error(s: Seq<u8>, pos: int, k: nat, m: nat)
    requires
        k <= m,
        spec_read_schema_cols(s, pos, k) is Err,
    ensures
        spec_read_schema_cols(s, pos, m) == spec_read_schema_cols(s, pos, k),
    decreases m - k,
{
    if k < m {
        lemma_schema_cols_error(s, pos, k, (m - 1) as nat);
    }
}

#[verifier::spinoff_prover]
proof fn lemma_plans_error(s: Seq<u8>, pos: int, k: nat, m: nat)
    requires
        k <= m,
        spec_read_plans(s, pos, k) is Err,
    ensures
        spec_read_plans(s, pos, m) == spec_read_plans(s, pos, k),
    decreases m - k,
{
    if k < m {
        lemma_plans_error(s, pos, k, (m - 1) as nat);
    }
}

fn read_schema_cols(s: &[u8], pos: usize, n: u64) -> (r: Result<(Vec<ColumnSchema>, usize), ArchiveError>)
    ensures
        match (r, spec_read_schema_cols(s@, pos as int, n as nat)) {
            (Ok((c, p)), Ok((d, q))) => Seq::new(c@.len(), |i: int| schema_col_view(c@[i])) == d && p == q,
            (Err(e1), Err(e2)) => e1 == e2,
            _ => false,
        },
{
    let mut out: Vec<ColumnSchema> = Vec::new();
    let mut p = pos;
    let mut i: u64 = 0;
    assert(Seq::new(out@.len(), |i: int| schema_col_view(out@[i])) =~= Seq::<SchemaColV>::empty());
    while i < n
        invariant
            0 <= i <= n,
            spec_read_schema_cols(s@, pos as int, i as nat) == Ok::<(Seq<SchemaColV>, int), ArchiveError>(
                (Seq::new(out@.len(), |i: int| schema_col_view(out@[i])), p as int),
            ),
        decreases n - i,
    {
        let ghost before = out@;
        match read_schema_col(s, p) {
            Ok((c, q)) => {
                let ghost cv = schema_col_view(c);
                out.push(c);
                p = q;
                assert(Seq::new(out@.len(), |i: int| schema_col_view(out@[i])) =~= Seq::new(before.len(), |i: int| schema_col_view(before[i])).push(cv));
            },
            Err(e) => {
                proof {
                    lemma_schema_cols_error(s@, pos as int, (i + 1) as nat, n as nat);
                }
                return Err(e);
            },
        }
        i = i + 1;
    }
    Ok((out, p))
}

fn read_plans(s: &[u8], pos: usize, n: u64) -> (r: Result<(Vec<ColumnPlan>, usize), ArchiveError>)
    ensures
        match (r, spec_read_plans(s@, pos as int, n as nat)) {
            (Ok((c, p)), Ok((d, q))) => Seq::new(c@.len(), |i: int| plan_view(c@[i])) == d && p == q,
            (Err(e1), Err(e2)) => e1 == e2,
            _ => false,
        },
{
    let mut out: Vec<ColumnPlan> = Vec::new();
    let mut p = pos;
    let mut i: u64 = 0;
    assert(Seq::new(out@.len(), |i: int| plan_view(out@[i])) =~= Seq::<PlanV>::empty());
    while i < n
        invariant
            0 <= i <= n,
            spec_read_plans(s@, pos as int, i as nat) == Ok::<(Seq<PlanV>, int), ArchiveError>(
                (Seq::new(out@.len(), |i: int| plan_view(out@[i])), p as int),
            ),
        decreases n - i,
    {
        let ghost before = out@;
        match read_plan(s, p) {
            Ok((c, q)) => {
                let ghost cv = plan_view(c);
                out.push(c);
                p = q;
                assert(Seq::new(out@.len(), |i: int| plan_view(out@[i])) =~= Seq::new(before.len(), |i: int| plan_view(before[i])).push(cv));
            },
            Err(e) => {
                proof {
                    lemma_plans_error(s@, pos as int, (i + 1) as nat, n as nat);
                }
                return Err(e);
            },
        }
        i = i + 1;
    }
    Ok((out, p))
}

/// Reads a header as bincode reads an `ArchiveHeader`.
pub fn decode_header(s: &[u8]) -> (r: Result<ArchiveHeader, ArchiveError>)
    ensures
        match (r, spec_decode_header(s@)) {
            (Ok(h), Ok(v)) => h@ == v,
            (Err(e1), Err(e2)) => e1 == e2,
            _ => false,
        },
{
    let (version, p1) = match read_u32(s, 0) {
        Ok(x) => x,
        Err(e) => return Err(e),
    };
    let (hsv, p2) = match read_u32(s, p1) {
        Ok(x) => x,
        Err(e) => return Err(e),
    };
    let (size, p3) = match read_u64(s, p2) {
        Ok(x) => x,
        Err(e) => return Err(e),
    };
    if s.len() - p3 < 32 {
        return Err(ArchiveError::UnexpectedEnd);
    }
    let mut hash: [u8; 32] = [0u8; 32];
    let mut i: usize = 0;
    while i < 32
        invariant
            0 <= i <= 32,
            p3 + 32 <= s@.len(),
            s@.len() == s.len(),
            forall|j: int| 0 <= j < i ==> hash@[j] == s@[p3 + j],
        decreases 32 - i,
    {
        hash[i] = s[p3 + i];
        i = i + 1;
    }
    assert(hash@ =~= s@.subrange(p3 as int, p3 + 32));
    let (fid, p4) = match read_u32(s, p3 + 32) {
        Ok(x) => x,
        Err(e) => return Err(e),
    };
    let format = match format_from_index(fid) {
        Ok(f) => f,
        Err(e) => return Err(e),
    };
    let (ex, p5) = match read_bool(s, p4) {
        Ok(x) => x,
        Err(e) => return Err(e),
    };
    let (fb, p6) = match read_bool(s, p5) {
        Ok(x) => x,
        Err(e) => return Err(e),
    };
    let (nsc, p7) = match read_u64(s, p6) {
        Ok(x) => x,
        Err(e) => return Err(e),
    };
    let (columns, p8) = match read_schema_cols(s, p7, nsc) {
        Ok(x) => x,
        Err(e) => return Err(e),
    };
    let (rows, p9) = match read_u64(s, p8) {
        Ok(x) => x,
        Err(e) => return Err(e),
    };
    let (npl, p10) = match read_u64(s, p9) {
        Ok(x) => x,
        Err(e) => return Err(e),
    };
    let (plans, _) = match read_plans(s, p10, npl) {
        Ok(x) => x,
        Err(e) => return Err(e),
    };
    let header = ArchiveHeader {
        version,
        header_schema_version: hsv,
        original_size: size,
        original_hash: hash,
        format,
        exact_mode: ex,
        fallback_used: fb,
        schema: Schema { columns },
        row_count: rows,
        column_plans: plans,
    };
    Ok(header)
}

/// A header that bincode can hold: a 32-byte hash, counts that fit their
/// `u64` fields and names that fit their length fields.
pub open spec fn header_writable(h: HeaderV) -> bool {
    &&& h.original_hash.len() == 32
    &&& h.schema.len() <= u64::MAX
    &&& h.column_plans.len() <= u64::MAX
    &&& forall|i: int| 0 <= i < h.schema.len() ==> encode_utf8((#[trigger] h.schema[i]).name).len() <= u64::MAX
    &&& forall|i: int| 0 <= i < h.column_plans.len() ==> encode_utf8((#[trigger] h.column_plans[i]).name).len() <= u64::MAX
}

#[verifier::spinoff_prover]
proof fn lemma_read_bool_of(s: Seq<u8>, pos: int, b: bool)
    requires
        0 <= pos < s.len(),
        s[pos] == bool_byte(b),
    ensures
        spec_read_bool(s, pos) == Ok::<(bool, int), ArchiveError>((b, pos + 1)),
{
}

#[verifier::spinoff_prover]
proof fn lemma_read_schema_col_of(s: Seq<u8>, pos: int, c: SchemaColV)
    requires
        0 <= pos,
        encode_utf8(c.name).len() <= u64::MAX,
        pos + schema_col_bytes(c).len() <= s.len(),
        s.subrange(pos, pos + schema_col_bytes(c).len()) == schema_col_bytes(c),
    ensures
        spec_read_schema_col(s, pos) == Ok::<(SchemaColV, int), ArchiveError>((c, pos + schema_col_bytes(c).len())),
{
    let f = spec_string_field(c.name);
    let t = spec_u32_to_le_bytes(spec_column_type_index(c.column_type));
    let n = seq![bool_byte(c.nullable)];
    lemma_le_lengths(spec_column_type_index(c.column_type), 0);
    assert(schema_col_bytes(c) =~= f + (t + n));
    lemma_sub_prefix(s, pos, f, t + n);
    lemma_read_string_of(s, pos, c.name);
    let p = pos + f.len();
    lemma_sub_prefix(s, p, t, n);
    lemma_read_u32_of(s, p, spec_column_type_index(c.column_type));
    assert(s[p + 4] == n[0]) by {
        assert(s.subrange(p + 4, p + 5)[0] == n[0]);
    }
    lemma_read_bool_of(s, p + 4, c.nullable);
}

#[verifier::spinoff_prover]
proof fn lemma_read_plan_of(s: Seq<u8>, pos: int, c: PlanV)
    requires
        0 <= pos,
        encode_utf8(c.name).len() <= u64::MAX,
        pos + plan_bytes(c).len() <= s.len(),
        s.subrange(pos, pos + plan_bytes(c).len()) == plan_bytes(c),
    ensures
        spec_read_plan(s, pos) == Ok::<(PlanV, int), ArchiveError>((c, pos + plan_bytes(c).len())),
{
    let f = spec_string_field(c.name);
    let t = spec_u32_to_le_bytes(spec_column_type_index(c.column_type));
    let k = spec_u32_to_le_bytes(spec_codec_index(c.codec));
    let a = spec_u64_to_le_bytes(c.original_len);
    let b = spec_u64_to_le_bytes(c.encoded_len_estimate);
    lemma_le_lengths(spec_column_type_index(c.column_type), c.original_len);
    lemma_le_lengths(spec_codec_index(c.codec), c.encoded_len_estimate);
    assert(plan_bytes(c) =~= f + (t + (k + (a + b))));
    lemma_sub_prefix(s, pos, f, t + (k + (a + b)));
    lemma_read_string_of(s, pos, c.name);
    let p = pos + f.len();
    lemma_sub_prefix(s, p, t, k + (a + b));
    lemma_read_u32_of(s, p, spec_column_type_index(c.column_type));
    lemma_sub_prefix(s, p + 4, k, a + b);
    lemma_read_u32_of(s, p + 4, spec_codec_index(c.codec));
    lemma_sub_prefix(s, p + 8, a, b);
    lemma_read_u64_of(s, p + 8, c.original_len);
    lemma_read_u64_of(s, p + 16, c.encoded_len_estimate);
}

#[verifier::spinoff_prover]
proof fn lemma_read_schema_cols_of(s: Seq<u8>, pos: int, c: Seq<SchemaColV>)
    requires
        0 <= pos,
        forall|i: int| 0 <= i < c.len() ==> encode_utf8((#[trigger] c[i]).name).len() <= u64::MAX,
        pos + schema_cols_bytes(c).len() <= s.len(),
        s.subrange(pos, pos + schema_cols_bytes(c).len()) == schema_cols_bytes(c),
    ensures
        spec_read_schema_cols(s, pos, c.len()) == Ok::<(Seq<SchemaColV>, int), ArchiveError>((c, pos + schema_cols_bytes(c).len())),
    decreases c.len(),
{
    if c.len() == 0 {
        assert(c =~= Seq::<SchemaColV>::empty());
    } else {
        let a = schema_cols_bytes(c.drop_last());
        let b = schema_col_bytes(c.last());
        lemma_sub_prefix(s, pos, a, b);
        assert forall|i: int| 0 <= i < c.drop_last().len() implies encode_utf8((#[trigger] c.drop_last()[i]).name).len() <= u64::MAX by {
            assert(c.drop_last()[i] == c[i]);
        }
        lemma_read_schema_cols_of(s, pos, c.drop_last());
        assert(c[c.len() - 1] == c.last());
        lemma_read_schema_col_of(s, pos + a.len(), c.last());
        assert(c.drop_last().push(c.last()) =~= c);
        assert((c.len() - 1) as nat == c.drop_last().len());
    }
}

#[verifier::spinoff_prover]
proof fn lemma_read_plans_of(s: Seq<u8>, pos: int, c: Seq<PlanV>)
    requires
        0 <= pos,
        forall|i: int| 0 <= i < c.len() ==> encode_utf8((#[trigger] c[i]).name).len() <= u64::MAX,
        pos + plans_bytes(c).len() <= s.len(),
        s.subrange(pos, pos + plans_bytes(c).len()) == plans_bytes(c),
    ensures
        spec_read_plans(s, pos, c.len()) == Ok::<(Seq<PlanV>, int), ArchiveError>((c, pos + plans_bytes(c).len())),
    decreases c.len(),
{
    if c.len() == 0 {
        assert(c =~= Seq::<PlanV>::empty());
    } else {
        let a = plans_bytes(c.drop_last());
        let b = plan_bytes(c.last());
        lemma_sub_prefix(s, pos, a, b);
        assert forall|i: int| 0 <= i < c.drop_last().len() implies encode_utf8((#[trigger] c.drop_last()[i]).name).len() <= u64::MAX by {
            assert(c.drop_last()[i] == c[i]);
        }
        lemma_read_plans_of(s, pos, c.drop_last());
        assert(c[c.len() - 1] == c.last());
        lemma_read_plan_of(s, pos + a.len(), c.last());
        assert(c.drop_last().push(c.last()) =~= c);
        assert((c.len() - 1) as nat == c.drop_last().len());
    }
}

/// Reading the bytes written for a header gives the header back.
#[verifier::rlimit(100)]
#[verifier::spinoff_prover]
pub proof fn lemma_header_roundtrip(h: HeaderV)
    requires
        header_writable(h),
    ensures
        spec_decode_header(header_bytes(h)) == Ok::<HeaderV, ArchiveError>(h),
{
    let s = header_bytes(h);
    let v = spec_u32_to_le_bytes(h.version);
    let hv = spec_u32_to_le_bytes(h.header_schema_version);
    let sz = spec_u64_to_le_bytes(h.original_size);
    let hash = h.original_hash;
    let fmt = spec_u32_to_le_bytes(spec_format_index(h.format));
    let flags = seq![bool_byte(h.exact_mode), bool_byte(h.fallback_used)];
    let nsc = spec_u64_to_le_bytes(h.schema.len() as u64);
    let sc = schema_cols_bytes(h.schema);
    let rows = spec_u64_to_le_bytes(h.row_count);
    let npl = spec_u64_to_le_bytes(h.column_plans.len() as u64);
    let pl = plans_bytes(h.column_plans);
    lemma_le_lengths(h.version, h.original_size);
    lemma_le_lengths(h.header_schema_version, h.row_count);
    lemma_le_lengths(spec_format_index(h.format), h.schema.len() as u64);
    lemma_le_lengths(0, h.column_plans.len() as u64);
    let r10 = npl + pl;
    let r9 = rows + r10;
    let r8 = sc + r9;
    let r7 = nsc + r8;
    let r6 = flags + r7;
    let r5 = fmt + r6;
    let r4 = hash + r5;
    let r3 = sz + r4;
    let r2 = hv + r3;
    assert(s =~= v + r2);
    assert(s.subrange(0, s.len() as int) =~= s);
    lemma_sub_prefix(s, 0, v, r2);
    lemma_read_u32_of(s, 0, h.version);
    lemma_sub_prefix(s, 4, hv, r3);
    lemma_read_u32_of(s, 4, h.header_schema_version);
    lemma_sub_prefix(s, 8, sz, r4);
    lemma_read_u64_of(s, 8, h.original_size);
    lemma_sub_prefix(s, 16, hash, r5);
    lemma_sub_prefix(s, 48, fmt, r6);
    lemma_read_u32_of(s, 48, spec_format_index(h.format));
    assert(spec_format_from_index(spec_format_index(h.format)) == Ok::<InputFormat, ArchiveError>(h.format));
    lemma_sub_prefix(s, 52, flags, r7);
    assert(s[52] == flags[0] && s[53] == flags[1]) by {
        assert(s.subrange(52, 54)[0] == flags[0]);
        assert(s.subrange(52, 54)[1] == flags[1]);
    }
    lemma_read_bool_of(s, 52, h.exact_mode);
    lemma_read_bool_of(s, 53, h.fallback_used);
    lemma_sub_prefix(s, 54, nsc, r8);
    lemma_read_u64_of(s, 54, h.schema.len() as u64);
    lemma_sub_prefix(s, 62, sc, r9);
    lemma_read_schema_cols_of(s, 62, h.schema);
    let p8: int = 62 + sc.len() as int;
    lemma_sub_prefix(s, p8, rows, r10);
    lemma_read_u64_of(s, p8, h.row_count);
    lemma_sub_prefix(s, p8 + 8, npl, pl);
    lemma_read_u64_of(s, p8 + 8, h.column_plans.len() as u64);
    lemma_read_plans_of(s, p8 + 16, h.column_plans);
}

} // verus!
