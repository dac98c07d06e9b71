//! The comparison of nextzip with zstd and gzip on one input.
use vstd::prelude::*;
use crate::archive::{PackOptions, parse_archive, spec_parse_archive};
use crate::detect::{detect_format, spec_detect_format};
use crate::entropy::zstd::zstd_compressed;
use crate::error::ArchiveError;
use crate::formats::json::JsonV;
use crate::formats::json_write::float_values_view;
use crate::formats::table::{StoredTable, TableV, floats_view};
use crate::header::InputFormat;
use crate::pipeline::{spec_pack, spec_unpack_bytes};
use crate::report::{bool_name, format_name};
use crate::text::{spec_decimal, u64_to_string, occurs_at, lemma_occurs_extend, lemma_window};
use vstd::string::StringExecFns;

verus! {

/// What `flate2::write::GzEncoder` at the default level writes for `data`:
/// the gzip stream, or nothing where the encoder reports an error.
pub uninterp spec fn gzip_compressed(data: Seq<u8>) -> Option<Seq<u8>>;

/// Compresses `data` with `flate2::write::GzEncoder` at
/// `Compression::default()`: `write_all`, then `finish`.
///
/// Trusted: the stream is the named gzip stream of the input, a function of
/// the input alone (the encoder writes no time stamp and a fixed OS byte).
#[verifier::external_body]
fn gzip_encode(data: &[u8]) -> (r: Option<Vec<u8>>)
    ensures
        match r {
            Some(c) => gzip_compressed(data@) == Some(c@),
            None => gzip_compressed(data@) is None,
        },
{
    let mut gz = flate2::write::GzEncoder::new(Vec::new(), flate2::Compression::default());
    std::io::Write::write_all(&mut gz, data).ok()?;
    gz.finish().ok()
}

/// Which compressor made the smallest output.
#[derive(Debug, Clone, Copy, PartialEq, Eq, Structural)]
pub enum Winner {
    Zstd,
    Gzip,
    Nextzip,
}

/// The first of zstd, gzip and nextzip, in that order, whose size is the
/// smallest.
pub open spec fn spec_winner(zstd: nat, gzip: nat, nextzip: nat) -> Winner {
    if zstd <= gzip && zstd <= nextzip {
        Winner::Zstd
    } else if gzip <= nextzip {
        Winner::Gzip
    } else {
        Winner::Nextzip
    }
}

/// The winner among three sizes: the first smallest.
pub fn winner(zstd: usize, gzip: usize, nextzip: usize) -> (w: Winner)
    ensures
        w == spec_winner(zstd as nat, gzip as nat, nextzip as nat),
{
    if zstd <= gzip && zstd <= nextzip {
        Winner::Zstd
    } else if gzip <= nextzip {
        Winner::Gzip
    } else {
        Winner::Nextzip
    }
}

/// The name a winner is shown by.
pub open spec fn winner_name(w: Winner) -> Seq<char> {
    match w {
        Winner::Zstd => "zstd"@,
        Winner::Gzip => "gzip"@,
        Winner::Nextzip => "nextzip"@,
    }
}

/// The figures of a comparison.
#[derive(Debug, Clone, Copy)]
pub struct BenchFigures {
    pub format: InputFormat,
    pub original: usize,
    pub zstd: usize,
    pub gzip: usize,
    pub nextzip: usize,
    pub winner: Winner,
    pub fallback: bool,
}

/// The options nextzip is compared with: structural mode, zstd level 3.
pub open spec fn bench_options() -> PackOptions {
    PackOptions { exact: false, level: 3 }
}

/// The figures of comparing the three compressors on `input`, where `t` is
/// the input's table in its detected format (when it has one).
pub open spec fn bench_holds(
    f: BenchFigures,
    input: Seq<u8>,
    t: Option<TableV>,
    ft: Seq<(u64, Seq<char>)>,
    fv: Seq<(u64, JsonV)>,
) -> bool {
    match (zstd_compressed(input, 3), gzip_compressed(input), spec_pack(input, spec_detect_format(input), bench_options(), t, ft, fv)) {
        (Some(z), Some(g), Some(a)) => {
            &&& f.format == spec_detect_format(input)
            &&& f.original == input.len()
            &&& f.zstd == z.len()
            &&& f.gzip == g.len()
            &&& f.nextzip == a.len()
            &&& f.winner == spec_winner(z.len(), g.len(), a.len())
            &&& spec_parse_archive(a) is Ok
            &&& f.fallback == spec_parse_archive(a)->Ok_0.header.fallback_used
        },
        _ => false,
    }
}

/// The error of a comparison: zstd first, then gzip, then packing.
pub open spec fn bench_error(input: Seq<u8>, t: Option<TableV>, ft: Seq<(u64, Seq<char>)>, fv: Seq<(u64, JsonV)>) -> Option<ArchiveError> {
    if zstd_compressed(input, 3) is None {
        Some(ArchiveError::Compression)
    } else if gzip_compressed(input) is None {
        Some(ArchiveError::Gzip)
    } else if spec_pack(input, spec_detect_format(input), bench_options(), t, ft, fv) is None {
        Some(ArchiveError::Compression)
    } else {
        None
    }
}

/// Compresses `input` with zstd at level 3, with gzip at the default level
/// and with nextzip (the archive `pipeline::pack` keeps for the detected
/// format and `table`), and reports the sizes, the winner and whether the
/// archive is a fallback one.
pub fn bench_figures(
    input: &[u8],
    table: Option<StoredTable>,
    texts: &[(u64, String)],
    values: &[(u64, serde_json::Value)],
) -> (r: Result<BenchFigures, ArchiveError>)
    ensures
        ({
            let tv = match table {
                Some(t) => Some(t@),
                None => None,
            };
            match r {
                Ok(f) => bench_holds(f, input@, tv, floats_view(texts@), float_values_view(values@)),
                Err(e) => bench_error(input@, tv, floats_view(texts@), float_values_view(values@)) == Some(e),
            }
        }),
{
    let format = detect_format(input);
    let z = match crate::entropy::zstd::encode(input, 3) {
        Ok(c) => c,
        Err(e) => return Err(e),
    };
    let g = match gzip_encode(input) {
        Some(c) => c,
        None => return Err(ArchiveError::Gzip),
    };
    let options = PackOptions { exact: false, level: 3 };
    let a = match crate::pipeline::pack(input, format, options, table, texts, values) {
        Ok(a) => a,
        Err(e) => return Err(e),
    };
    let fallback = match parse_archive(a.as_slice()) {
        Ok(arch) => arch.header.fallback_used,
        Err(e) => {
            assert(spec_parse_archive(a@) is Ok);
            return Err(e);
        },
    };
    let w = winner(z.len(), g.len(), a.len());
    Ok(BenchFigures {
        format,
        original: input.len(),
        zstd: z.len(),
        gzip: g.len(),
        nextzip: a.len(),
        winner: w,
        fallback,
    })
}

/// The report of a comparison; the ratio of the zstd size to the nextzip size
/// comes as text.
pub open spec fn spec_bench_text(f: BenchFigures, file: Seq<char>, ratio: Seq<char>) -> Seq<char> {
    "file: "@ + file + "\nformat: "@ + format_name(f.format) + "\noriginal: "@ + spec_decimal(f.original as nat)
        + " bytes\n\nzstd:     "@ + spec_decimal(f.zstd as nat) + " bytes\ngzip:     "@ + spec_decimal(f.gzip as nat)
        + " bytes\nnextzip:  "@ + spec_decimal(f.nextzip as nat) + " bytes\n\nwinner: "@ + winner_name(f.winner)
        + "\nratio_vs_zstd: "@ + ratio + "x\nfallback: "@ + bool_name(f.fallback)
}

fn push_count(out: &mut String, n: usize)
    ensures
        final(out)@ == old(out)@ + spec_decimal(n as nat),
{
    let d = u64_to_string(n as u64);
    out.append(d.as_str());
}

/// Writes the report of a comparison.
pub fn bench_text(f: &BenchFigures, file: &str, ratio: &str) -> (s: String)
    ensures
        s@ == spec_bench_text(*f, file@, ratio@),
{
    let mut out = String::new();
    out.append("file: ");
    out.append(file);
    out.append("\nformat: ");
    match f.format {
        InputFormat::Jsonl => out.append("Jsonl"),
        InputFormat::Csv => out.append("Csv"),
        InputFormat::Tsv => out.append("Tsv"),
        InputFormat::Logs => out.append("Logs"),
        InputFormat::BinaryFallback => out.append("BinaryFallback"),
    }
    out.append("\noriginal: ");
    push_count(&mut out, f.original);
    out.append(" bytes\n\nzstd:     ");
    push_count(&mut out, f.zstd);
    out.append(" bytes\ngzip:     ");
    push_count(&mut out, f.gzip);
    out.append(" bytes\nnextzip:  ");
    push_count(&mut out, f.nextzip);
    out.append(" bytes\n\nwinner: ");
    match f.winner {
        Winner::Zstd => out.append("zstd"),
        Winner::Gzip => out.append("gzip"),
        Winner::Nextzip => out.append("nextzip"),
    }
    out.append("\nratio_vs_zstd: ");
    out.append(ratio);
    out.append("x\nfallback: ");
    if f.fallback {
        out.append("true");
    } else {
        out.append("false");
    }
    out
}

/// The report of a comparison shows each size on its own line, as the
/// decimal of the figure it names: the input's size, the zstd stream's, the
/// gzip stream's and the archive's.
pub proof fn lemma_bench_text_lines(f: BenchFigures, file: Seq<char>, ratio: Seq<char>)
    ensures
        exists|i: int| occurs_at(
            spec_bench_text(f, file, ratio),
            "\noriginal: "@ + spec_decimal(f.original as nat) + " bytes\n"@,
            i,
        ),
        exists|i: int| occurs_at(
            spec_bench_text(f, file, ratio),
            "\nzstd:     "@ + spec_decimal(f.zstd as nat) + " bytes\n"@,
            i,
        ),
        exists|i: int| occurs_at(
            spec_bench_text(f, file, ratio),
            "\ngzip:     "@ + spec_decimal(f.gzip as nat) + " bytes\n"@,
            i,
        ),
        exists|i: int| occurs_at(
            spec_bench_text(f, file, ratio),
            "\nnextzip:  "@ + spec_decimal(f.nextzip as nat) + " bytes\n"@,
            i,
        ),
{
    reveal_strlit("\noriginal: ");
    reveal_strlit(" bytes\n\nzstd:     ");
    reveal_strlit(" bytes\ngzip:     ");
    reveal_strlit(" bytes\nnextzip:  ");
    reveal_strlit(" bytes\n\nwinner: ");
    reveal_strlit("\nzstd:     ");
    reveal_strlit("\ngzip:     ");
    reveal_strlit("\nnextzip:  ");
    reveal_strlit(" bytes\n");
    assert forall|s: Seq<char>, t: Seq<char>, i: int, w: Seq<char>|
        #![trigger occurs_at(s, w, i), s + t]
        occurs_at(s, w, i) implies occurs_at(s + t, w, i) by {
        lemma_occurs_extend(s, t, i, w);
    }
    let p0 = "file: "@ + file + "\nformat: "@ + format_name(f.format);
    let d0 = spec_decimal(f.original as nat);
    assert(("\noriginal: "@).subrange(0, 11) =~= "\noriginal: "@);
    assert((" bytes\n\nzstd:     "@).subrange(0, 7) =~= " bytes\n"@);
    lemma_window(p0, "\noriginal: "@, d0, " bytes\n\nzstd:     "@, "\noriginal: "@, " bytes\n"@);
    let p1 = p0 + "\noriginal: "@ + d0;
    let d1 = spec_decimal(f.zstd as nat);
    assert((" bytes\n\nzstd:     "@).subrange(7, 18) =~= "\nzstd:     "@);
    assert((" bytes\ngzip:     "@).subrange(0, 7) =~= " bytes\n"@);
    lemma_window(p1, " bytes\n\nzstd:     "@, d1, " bytes\ngzip:     "@, "\nzstd:     "@, " bytes\n"@);
    let p2 = p1 + " bytes\n\nzstd:     "@ + d1;
    let d2 = spec_decimal(f.gzip as nat);
    assert((" bytes\ngzip:     "@).subrange(6, 17) =~= "\ngzip:     "@);
    assert((" bytes\nnextzip:  "@).subrange(0, 7) =~= " bytes\n"@);
    lemma_window(p2, " bytes\ngzip:     "@, d2, " bytes\nnextzip:  "@, "\ngzip:     "@, " bytes\n"@);
    let p3 = p2 + " bytes\ngzip:     "@ + d2;
    let d3 = spec_decimal(f.nextzip as nat);
    assert((" bytes\nnextzip:  "@).subrange(6, 17) =~= "\nnextzip:  "@);
    assert((" bytes\n\nwinner: "@).subrange(0, 7) =~= " bytes\n"@);
    lemma_window(p3, " bytes\nnextzip:  "@, d3, " bytes\n\nwinner: "@, "\nnextzip:  "@, " bytes\n"@);
    let text = spec_bench_text(f, file, ratio);
    assert(occurs_at(
        text,
        "\noriginal: "@ + d0 + " bytes\n"@,
        p0.len() + ("\noriginal: "@).len() - ("\noriginal: "@).len(),
    ));
    assert(occurs_at(
        text,
        "\nzstd:     "@ + d1 + " bytes\n"@,
        p1.len() + (" bytes\n\nzstd:     "@).len() - ("\nzstd:     "@).len(),
    ));
    assert(occurs_at(
        text,
        "\ngzip:     "@ + d2 + " bytes\n"@,
        p2.len() + (" bytes\ngzip:     "@).len() - ("\ngzip:     "@).len(),
    ));
    assert(occurs_at(
        text,
        "\nnextzip:  "@ + d3 + " bytes\n"@,
        p3.len() + (" bytes\nnextzip:  "@).len() - ("\nnextzip:  "@).len(),
    ));
}

} // verus!
