//! The text of an archive's inspection report.
use vstd::prelude::*;
use vstd::string::StringExecFns;
use crate::archive::ArchiveInspection;
use crate::column::ColumnCodec;
use crate::column::payload::CodecStat;
use crate::column::ColumnPlan;
use crate::header::InputFormat;
use crate::schema::ColumnType;
use crate::text::{spec_decimal, u64_to_string, occurs_at, lemma_occurs_extend, lemma_window};

verus! {

/// The name of a format, as `Debug` writes it.
pub open spec fn format_name(f: InputFormat) -> Seq<char> {
    match f {
        InputFormat::Jsonl => "Jsonl"@,
        InputFormat::Csv => "Csv"@,
        InputFormat::Tsv => "Tsv"@,
        InputFormat::Logs => "Logs"@,
        InputFormat::BinaryFallback => "BinaryFallback"@,
    }
}

/// The name of a codec, as `Debug` writes it.
pub open spec fn codec_name(c: ColumnCodec) -> Seq<char> {
    match c {
        ColumnCodec::Raw => "Raw"@,
        ColumnCodec::Dictionary => "Dictionary"@,
        ColumnCodec::Delta => "Delta"@,
        ColumnCodec::DeltaOfDelta => "DeltaOfDelta"@,
        ColumnCodec::Rle => "Rle"@,
        ColumnCodec::BitPack => "BitPack"@,
        ColumnCodec::FrameOfReference => "FrameOfReference"@,
    }
}

/// The name of a column type, as `Debug` writes it.
pub open spec fn column_type_name(t: ColumnType) -> Seq<char> {
    match t {
        ColumnType::Null => "Null"@,
        ColumnType::Bool => "Bool"@,
        ColumnType::Integer => "Integer"@,
        ColumnType::Float => "Float"@,
        ColumnType::String => "String"@,
        ColumnType::Enum => "Enum"@,
        ColumnType::Timestamp => "Timestamp"@,
        ColumnType::JsonRaw => "JsonRaw"@,
    }
}

/// `true` or `false`.
pub open spec fn bool_name(b: bool) -> Seq<char> {
    if b {
        "true"@
    } else {
        "false"@
    }
}

/// The header lines of a report; `ratio` is the compression ratio's text.
pub open spec fn report_head(r: ArchiveInspection, ratio: Seq<char>) -> Seq<char> {
    "version: "@ + spec_decimal(r.version as nat) + "\nheader_schema: "@ + spec_decimal(r.header_schema_version as nat)
        + "\nformat: "@ + format_name(r.format) + "\noriginal_size: "@ + spec_decimal(r.original_size as nat)
        + " bytes\narchive_size: "@ + spec_decimal(r.archive_size as nat) + " bytes\ncompression_ratio: "@ + ratio
        + "\nfallback: "@ + bool_name(r.fallback) + "\nrows: "@ + spec_decimal(r.rows as nat) + "\ncolumns: "@
        + spec_decimal(r.columns as nat) + "\nblocks: "@ + spec_decimal(r.blocks as nat)
        + "\nsize_breakdown:\n  header_compressed: "@ + spec_decimal(r.sizes.header_compressed as nat)
        + " bytes\n  payload_compressed: "@ + spec_decimal(r.sizes.payload_compressed as nat)
        + " bytes\n  payload_decoded: "@ + spec_decimal(r.sizes.payload_decoded as nat)
        + " bytes\n  container_overhead: "@ + spec_decimal(r.sizes.container_overhead as nat) + " bytes"@
}

/// The line of a column plan.
pub open spec fn plan_line(p: ColumnPlan) -> Seq<char> {
    "\n- "@ + p.name@ + ": "@ + column_type_name(p.column_type) + ", "@ + codec_name(p.codec) + ", encoded_estimate="@
        + spec_decimal(p.encoded_len_estimate as nat) + " bytes"@
}

/// The lines of the column plans.
pub open spec fn plan_lines(ps: Seq<ColumnPlan>) -> Seq<char>
    decreases ps.len(),
{
    if ps.len() == 0 {
        Seq::empty()
    } else {
        plan_lines(ps.drop_last()) + plan_line(ps.last())
    }
}

/// The line of a codec statistic.
pub open spec fn stat_line(s: CodecStat) -> Seq<char> {
    "\n  - "@ + s.column_name@ + "#"@ + spec_decimal(s.column_id as nat) + " "@ + codec_name(s.codec) + ": chunks="@
        + spec_decimal(s.chunks as nat) + ", bytes="@ + spec_decimal(s.bytes as nat)
}

/// The lines of the codec statistics.
pub open spec fn stat_lines(ss: Seq<CodecStat>) -> Seq<char>
    decreases ss.len(),
{
    if ss.len() == 0 {
        Seq::empty()
    } else {
        stat_lines(ss.drop_last()) + stat_line(ss.last())
    }
}

/// The text of a report: the header lines, a line per column plan, and for a
/// structural archive with chunks the codec statistics.
pub open spec fn spec_report_text(r: ArchiveInspection, ratio: Seq<char>) -> Seq<char> {
    report_head(r, ratio) + plan_lines(r.plans@) + if !r.fallback && r.codec_stats@.len() > 0 {
        "\nblock_codec_stats:"@ + stat_lines(r.codec_stats@)
    } else {
        Seq::empty()
    }
}

fn push_format(out: &mut String, f: InputFormat)
    ensures
        final(out)@ == old(out)@ + format_name(f),
{
    match f {
        InputFormat::Jsonl => out.append("Jsonl"),
        InputFormat::Csv => out.append("Csv"),
        InputFormat::Tsv => out.append("Tsv"),
        InputFormat::Logs => out.append("Logs"),
        InputFormat::BinaryFallback => out.append("BinaryFallback"),
    }
}

fn push_codec(out: &mut String, c: ColumnCodec)
    ensures
        final(out)@ == old(out)@ + codec_name(c),
{
    match c {
        ColumnCodec::Raw => out.append("Raw"),
        ColumnCodec::Dictionary => out.append("Dictionary"),
        ColumnCodec::Delta => out.append("Delta"),
        ColumnCodec::DeltaOfDelta => out.append("DeltaOfDelta"),
        ColumnCodec::Rle => out.append("Rle"),
        ColumnCodec::BitPack => out.append("BitPack"),
        ColumnCodec::FrameOfReference => out.append("FrameOfReference"),
    }
}

fn push_type(out: &mut String, t: ColumnType)
    ensures
        final(out)@ == old(out)@ + column_type_name(t),
{
    match t {
        ColumnType::Null => out.append("Null"),
        ColumnType::Bool => out.append("Bool"),
        ColumnType::Integer => out.append("Integer"),
        ColumnType::Float => out.append("Float"),
        ColumnType::String => out.append("String"),
        ColumnType::Enum => out.append("Enum"),
        ColumnType::Timestamp => out.append("Timestamp"),
        ColumnType::JsonRaw => out.append("JsonRaw"),
    }
}

fn push_number(out: &mut String, n: u64)
    ensures
        final(out)@ == old(out)@ + spec_decimal(n as nat),
{
    let d = u64_to_string(n);
    out.append(d.as_str());
}

fn push_plan_line(out: &mut String, p: &ColumnPlan)
    ensures
        final(out)@ == old(out)@ + plan_line(*p),
{
    out.append("\n- ");
    out.append(p.name.as_str());
    out.append(": ");
    push_type(out, p.column_type);
    out.append(", ");
    push_codec(out, p.codec);
    out.append(", encoded_estimate=");
    push_number(out, p.encoded_len_estimate);
    out.append(" bytes");
    assert(out@ =~= old(out)@ + plan_line(*p));
}

fn push_stat_line(out: &mut String, st: &CodecStat)
    ensures
        final(out)@ == old(out)@ + stat_line(*st),
{
    out.append("\n  - ");
    out.append(st.column_name.as_str());
    out.append("#");
    push_number(out, st.column_id as u64);
    out.append(" ");
    push_codec(out, st.codec);
    out.append(": chunks=");
    push_number(out, st.chunks);
    out.append(", bytes=");
    push_number(out, st.bytes);
    assert(out@ =~= old(out)@ + stat_line(*st));
}

/// The text of an inspection report, as `inspect` prints it; `ratio` is the
/// compression ratio written with four decimals.
pub fn report_text(r: &ArchiveInspection, ratio: &str) -> (s: String)
    ensures
        s@ == spec_report_text(*r, ratio@),
{
    let mut out = String::new();
    out.append("version: ");
    push_number(&mut out, r.version as u64);
    out.append("\nheader_schema: ");
    push_number(&mut out, r.header_schema_version as u64);
    out.append("\nformat: ");
    push_format(&mut out, r.format);
    out.append("\noriginal_size: ");
    push_number(&mut out, r.original_size);
    out.append(" bytes\narchive_size: ");
    push_number(&mut out, r.archive_size as u64);
    out.append(" bytes\ncompression_ratio: ");
    out.append(ratio);
    out.append("\nfallback: ");
    if r.fallback {
        out.append("true");
    } else {
        out.append("false");
    }
    out.append("\nrows: ");
    push_number(&mut out, r.rows);
    out.append("\ncolumns: ");
    push_number(&mut out, r.columns as u64);
    out.append("\nblocks: ");
    push_number(&mut out, r.blocks as u64);
    out.append("\nsize_breakdown:\n  header_compressed: ");
    push_number(&mut out, r.sizes.header_compressed as u64);
    out.append(" bytes\n  payload_compressed: ");
    push_number(&mut out, r.sizes.payload_compressed as u64);
    out.append(" bytes\n  payload_decoded: ");
    push_number(&mut out, r.sizes.payload_decoded as u64);
    out.append(" bytes\n  container_overhead: ");
    push_number(&mut out, r.sizes.container_overhead as u64);
    out.append(" bytes");
    assert(out@ =~= report_head(*r, ratio@));
    let ghost head = out@;
    let mut i: usize = 0;
    assert(r.plans@.take(0) =~= Seq::<ColumnPlan>::empty());
    while i < r.plans.len()
        invariant
            0 <= i <= r.plans@.len(),
            out@ == head + plan_lines(r.plans@.take(i as int)),
        decreases r.plans@.len() - i,
    {
        push_plan_line(&mut out, &r.plans[i]);
        assert(r.plans@.take(i + 1).drop_last() =~= r.plans@.take(i as int));
        i = i + 1;
    }
    assert(r.plans@.take(r.plans@.len() as int) =~= r.plans@);
    let ghost body = out@;
    if !r.fallback && r.codec_stats.len() > 0 {
        out.append("\nblock_codec_stats:");
        let ghost start = out@;
        let mut k: usize = 0;
        assert(r.codec_stats@.take(0) =~= Seq::<CodecStat>::empty());
        while k < r.codec_stats.len()
            invariant
                0 <= k <= r.codec_stats@.len(),
                out@ == start + stat_lines(r.codec_stats@.take(k as int)),
            decreases r.codec_stats@.len() - k,
        {
            push_stat_line(&mut out, &r.codec_stats[k]);
            assert(r.codec_stats@.take(k + 1).drop_last() =~= r.codec_stats@.take(k as int));
            k = k + 1;
        }
        assert(r.codec_stats@.take(r.codec_stats@.len() as int) =~= r.codec_stats@);
        assert(out@ =~= body + ("\nblock_codec_stats:"@ + stat_lines(r.codec_stats@)));
    } else {
        assert(out@ =~= body + Seq::<char>::empty());
    }
    out
}

/// The report shows each size and count of the inspection on its own line:
/// the input's size, the archive's own size, and the numbers of rows, columns
/// and blocks, each as the decimal of the field it names.
pub proof fn lemma_report_lines(r: ArchiveInspection, ratio: Seq<char>)
    ensures
        exists|i: int| occurs_at(
            spec_report_text(r, ratio),
            "\noriginal_size: "@ + spec_decimal(r.original_size as nat) + " bytes\n"@,
            i,
        ),
        exists|i: int| occurs_at(
            spec_report_text(r, ratio),
            "\narchive_size: "@ + spec_decimal(r.archive_size as nat) + " bytes\n"@,
            i,
        ),
        exists|i: int| occurs_at(
            spec_report_text(r, ratio),
            "\nrows: "@ + spec_decimal(r.rows as nat) + "\n"@,
            i,
        ),
        exists|i: int| occurs_at(
            spec_report_text(r, ratio),
            "\ncolumns: "@ + spec_decimal(r.columns as nat) + "\n"@,
            i,
        ),
        exists|i: int| occurs_at(
            spec_report_text(r, ratio),
            "\nblocks: "@ + spec_decimal(r.blocks as nat) + "\n"@,
            i,
        ),
{
    reveal_strlit("\noriginal_size: ");
    reveal_strlit(" bytes\narchive_size: ");
    reveal_strlit("\narchive_size: ");
    reveal_strlit(" bytes\ncompression_ratio: ");
    reveal_strlit(" bytes\n");
    reveal_strlit("\nrows: ");
    reveal_strlit("\ncolumns: ");
    reveal_strlit("\nblocks: ");
    reveal_strlit("\nsize_breakdown:\n  header_compressed: ");
    reveal_strlit("\n");
    assert forall|s: Seq<char>, t: Seq<char>, i: int, w: Seq<char>|
        #![trigger occurs_at(s, w, i), s + t]
        occurs_at(s, w, i) implies occurs_at(s + t, w, i) by {
        lemma_occurs_extend(s, t, i, w);
    }
    let p0 = "version: "@ + spec_decimal(r.version as nat) + "\nheader_schema: "@ + spec_decimal(
        r.header_schema_version as nat,
    ) + "\nformat: "@ + format_name(r.format);
    let d_orig = spec_decimal(r.original_size as nat);
    assert(("\noriginal_size: "@).subrange(0, ("\noriginal_size: "@).len() as int) =~= "\noriginal_size: "@);
    assert((" bytes\narchive_size: "@).subrange(0, 7) =~= " bytes\n"@);
    lemma_window(p0, "\noriginal_size: "@, d_orig, " bytes\narchive_size: "@, "\noriginal_size: "@, " bytes\n"@);
    let p1 = p0 + "\noriginal_size: "@ + d_orig;
    let d_arch = spec_decimal(r.archive_size as nat);
    assert((" bytes\narchive_size: "@).subrange(6, 21) =~= "\narchive_size: "@);
    assert((" bytes\ncompression_ratio: "@).subrange(0, 7) =~= " bytes\n"@);
    lemma_window(
        p1,
        " bytes\narchive_size: "@,
        d_arch,
        " bytes\ncompression_ratio: "@,
        "\narchive_size: "@,
        " bytes\n"@,
    );
    let p2 = p1 + " bytes\narchive_size: "@ + d_arch + " bytes\ncompression_ratio: "@ + ratio + "\nfallback: "@
        + bool_name(r.fallback);
    let d_rows = spec_decimal(r.rows as nat);
    assert(("\nrows: "@).subrange(0, 7) =~= "\nrows: "@);
    assert(("\ncolumns: "@).subrange(0, 1) =~= "\n"@);
    lemma_window(p2, "\nrows: "@, d_rows, "\ncolumns: "@, "\nrows: "@, "\n"@);
    let p3 = p2 + "\nrows: "@ + d_rows;
    let d_cols = spec_decimal(r.columns as nat);
    assert(("\ncolumns: "@).subrange(0, 10) =~= "\ncolumns: "@);
    assert(("\nblocks: "@).subrange(0, 1) =~= "\n"@);
    lemma_window(p3, "\ncolumns: "@, d_cols, "\nblocks: "@, "\ncolumns: "@, "\n"@);
    let p4 = p3 + "\ncolumns: "@ + d_cols;
    let d_blocks = spec_decimal(r.blocks as nat);
    assert(("\nblocks: "@).subrange(0, 9) =~= "\nblocks: "@);
    assert(("\nsize_breakdown:\n  header_compressed: "@).subrange(0, 1) =~= "\n"@);
    lemma_window(p4, "\nblocks: "@, d_blocks, "\nsize_breakdown:\n  header_compressed: "@, "\nblocks: "@, "\n"@);
    let text = spec_report_text(r, ratio);
    assert(occurs_at(
        text,
        "\noriginal_size: "@ + d_orig + " bytes\n"@,
        p0.len() + ("\noriginal_size: "@).len() - ("\noriginal_size: "@).len(),
    ));
    assert(occurs_at(text, "\narchive_size: "@ + d_arch + " bytes\n"@, p1.len() + 21 - 15));
    assert(occurs_at(text, "\nrows: "@ + d_rows + "\n"@, p2.len() + 7 - 7));
    assert(occurs_at(text, "\ncolumns: "@ + d_cols + "\n"@, p3.len() + 10 - 10));
    assert(occurs_at(text, "\nblocks: "@ + d_blocks + "\n"@, p4.len() + 9 - 9));
}

} // verus!
