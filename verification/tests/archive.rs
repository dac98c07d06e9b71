use nextzip::archive::{
    build_structural, check_restored, choose_archive, pack_fallback, parse_archive, unpack_archive,
    Unpacked,
};
use nextzip::error::ArchiveError;
use nextzip::formats::jsonl::{parse_exact, reconstruct_raw_lines};
use nextzip::formats::logs::parse;
use nextzip::formats::logs_text::reconstruct;
use nextzip::formats::table::{Cell, StoredTable};
use nextzip::bench::{winner, Winner};
use nextzip::pipeline;
use nextzip::report::report_text;
use nextzip::{detect_format, inspect_archive_report, InputFormat, PackOptions};

const OPTIONS: PackOptions = PackOptions { exact: false, level: 1 };

fn float_texts_of(table: &StoredTable) -> Vec<(u64, String)> {
    let mut bits: Vec<u64> = table
        .columns
        .iter()
        .flat_map(|c| c.values.iter().flatten())
        .filter_map(|v| match v {
            Cell::Float(b) => Some(*b),
            _ => None,
        })
        .collect();
    bits.sort_unstable();
    bits.dedup();
    bits.into_iter().map(|b| (b, f64::from_bits(b).to_string())).collect()
}

fn archive_for(input: &[u8]) -> Vec<u8> {
    let format = detect_format(input);
    let table = pipeline::parse_table(input, format, OPTIONS.exact, &[]).ok();
    let texts = table.as_ref().map(float_texts_of).unwrap_or_default();
    pipeline::pack(input, format, OPTIONS, table, &texts, &[]).unwrap()
}

fn unpack(archive: &[u8]) -> Result<Vec<u8>, ArchiveError> {
    pipeline::unpack(archive, &[], &[])
}

fn log_input(rows: usize) -> Vec<u8> {
    let levels = ["INFO", "WARN", "ERROR"];
    let actions = ["view", "buy", "search"];
    let mut out = String::new();
    for i in 0..rows {
        out.push_str(&format!(
            "2026-01-01T12:{:02}:{:02}Z {} user={} action={} item={} latency={}\n",
            (i / 60) % 60,
            i % 60,
            levels[i % 3],
            i % 128,
            actions[i % 3],
            i % 256,
            i % 700
        ));
    }
    out.into_bytes()
}

#[test]
fn fallback_archive_restores_input() {
    let input = b"\x00\x01binary\xffdata".to_vec();
    let archive = pack_fallback(&input, InputFormat::BinaryFallback, OPTIONS).unwrap();
    assert_eq!(&archive[0..4], b"NXZ1");
    match unpack_archive(&archive).unwrap() {
        Unpacked::Restored(bytes) => assert_eq!(bytes, input),
        Unpacked::Decoded(..) => panic!("a fallback archive decodes to its bytes"),
    }
}

#[test]
fn structural_logs_archive_roundtrips() {
    let input = log_input(500);
    let table = parse(&input).unwrap();
    let u = float_texts_of(&table);
    let archive = build_structural(&input, InputFormat::Logs, OPTIONS, table, &u).unwrap();
    let (format, table, hash) = match unpack_archive(&archive).unwrap() {
        Unpacked::Decoded(format, table, hash) => (format, table, hash),
        Unpacked::Restored(_) => panic!("a structural archive decodes to a table"),
    };
    assert_eq!(format, InputFormat::Logs);
    let restored = check_restored(reconstruct(&table, &[]), &hash).unwrap();
    assert_eq!(restored, input);
    let fallback = pack_fallback(&input, InputFormat::Logs, OPTIONS).unwrap();
    let chosen = choose_archive(&input, fallback.clone(), Some(archive.clone()), Some(restored));
    assert_eq!(chosen, if archive.len() < fallback.len() { archive } else { fallback });
}

#[test]
fn exact_jsonl_archive_roundtrips() {
    let input = b"{ \"z\" : 1 , \"a\" : \"view\" }\r\n{ \"z\" : 2 , \"a\" : \"buy\" }\r\n".to_vec();
    let table = parse_exact(&input).unwrap();
    let u = float_texts_of(&table);
    let options = PackOptions { exact: true, level: 3 };
    let archive = build_structural(&input, InputFormat::Jsonl, options, table, &u).unwrap();
    match unpack_archive(&archive).unwrap() {
        Unpacked::Decoded(InputFormat::Jsonl, table, hash) => {
            let text = reconstruct_raw_lines(&table).unwrap();
            assert_eq!(check_restored(text, &hash).unwrap(), input);
        },
        _ => panic!("expected a JSON lines table"),
    }
}

#[test]
fn binary_format_has_no_structural_plan() {
    let input = b"abc".to_vec();
    let table = parse(&input).unwrap();
    let u = float_texts_of(&table);
    assert_eq!(
        build_structural(&input, InputFormat::BinaryFallback, OPTIONS, table, &u),
        Err(ArchiveError::NoStructuralPlan)
    );
}

#[test]
fn rejects_bad_magic() {
    let mut archive = archive_for(b"not,enough\n1,2\n");
    archive[0..4].copy_from_slice(b"BAD!");
    assert!(unpack(&archive).is_err());
    assert!(matches!(unpack_archive(&archive), Err(ArchiveError::BadMagic)));
}

#[test]
fn rejects_truncated_archive() {
    let archive = archive_for(b"a,b\n1,2\n3,4\n");
    for len in 0..archive.len().min(32) {
        assert!(unpack(&archive[..len]).is_err());
    }
    assert!(unpack(&archive[..archive.len() - 1]).is_err());
}

#[test]
fn rejects_checksum_mismatch() {
    let input = (0..100)
        .map(|i| format!(r#"{{"ts":{},"user":{}}}"#, 1_710_000_000 + i, i % 4))
        .collect::<Vec<_>>()
        .join("\n");
    let mut archive = archive_for(input.as_bytes());
    let last = archive.len() - 1;
    archive[last] ^= 0xff;
    assert!(unpack(&archive).is_err());
    assert!(inspect_archive_report(&archive).is_err());
}

#[test]
fn restored_bytes_must_match_the_hash() {
    let archive = pack_fallback(b"hello", InputFormat::BinaryFallback, OPTIONS).unwrap();
    let header = parse_archive(&archive).unwrap().header;
    assert_eq!(header.original_size, 5);
    assert!(header.fallback_used);
    assert_eq!(check_restored(b"hello".to_vec(), &header.original_hash), Ok(b"hello".to_vec()));
    assert_eq!(
        check_restored(b"hellO".to_vec(), &header.original_hash),
        Err(ArchiveError::ChecksumMismatch)
    );
}

#[test]
fn choose_archive_keeps_fallback_unless_exact_and_smaller() {
    let input = b"abc";
    let fallback = vec![1u8; 10];
    let small = vec![2u8; 5];
    assert_eq!(choose_archive(input, fallback.clone(), Some(small.clone()), Some(b"abc".to_vec())), small);
    assert_eq!(choose_archive(input, fallback.clone(), Some(small.clone()), Some(b"abd".to_vec())), fallback);
    assert_eq!(choose_archive(input, fallback.clone(), Some(vec![3u8; 10]), Some(b"abc".to_vec())), fallback);
    assert_eq!(choose_archive(input, fallback.clone(), None, None), fallback);
}

#[test]
fn inspect_shows_column_plan() {
    let input = (0..20_000)
        .map(|i| format!(r#"{{"action":"view","item":{},"ts":{},"user":{}}}"#, i % 100, 1710000000 + i, i % 7))
        .collect::<Vec<_>>()
        .join("\n")
        + "\n";
    let options = PackOptions { exact: false, level: 3 };
    let table = pipeline::parse_table(input.as_bytes(), InputFormat::Jsonl, false, &[]).ok();
    let archive = pipeline::pack(input.as_bytes(), InputFormat::Jsonl, options, table, &[], &[]).unwrap();
    let report = report_text(&inspect_archive_report(&archive).unwrap(), "0");
    assert!(report.contains("format: Jsonl"));
    assert!(report.contains("- action:"));
    assert_eq!(unpack(&archive).unwrap(), input.as_bytes());
}

#[test]
fn inspect_shows_log_column_plan() {
    let input = log_input(300);
    let table = parse(&input).unwrap();
    let u = float_texts_of(&table);
    let archive = build_structural(&input, InputFormat::Logs, OPTIONS, table, &u).unwrap();
    let report = inspect_archive_report(&archive).unwrap();
    assert_eq!(report.format, InputFormat::Logs);
    assert!(!report.fallback);
    assert_eq!(report.rows, 300);
    assert_eq!(report.blocks, 1);
    assert_eq!(report.archive_size, archive.len());
    assert_eq!(report.sizes.container_overhead, 60);
    let names: Vec<&str> = report.plans.iter().map(|p| p.name.as_str()).collect();
    assert_eq!(
        names,
        vec!["timestamp", "level", "__nxz_field_order", "user", "action", "item", "latency"]
    );
    assert!(!report.codec_stats.is_empty());
}

#[test]
fn inspect_text_lists_plans() {
    let input = log_input(50);
    let table = parse(&input).unwrap();
    let u = float_texts_of(&table);
    let archive = build_structural(&input, InputFormat::Logs, OPTIONS, table, &u).unwrap();
    let report = inspect_archive_report(&archive).unwrap();
    let text = nextzip::report::report_text(&report, "0.1234");
    assert!(text.starts_with("version: 1\nheader_schema: 1\nformat: Logs\n"));
    assert!(text.contains(&format!("original_size: {} bytes\n", input.len())));
    assert!(text.contains("compression_ratio: 0.1234\nfallback: false\nrows: 50\ncolumns: 7\nblocks: 1\n"));
    assert!(text.contains("\n- timestamp: String, "));
    assert!(text.contains("\n- latency: Integer, "));
    assert!(text.contains("\nblock_codec_stats:\n  - timestamp#0 "));
    let fallback = pack_fallback(b"abc", InputFormat::BinaryFallback, OPTIONS).unwrap();
    let text = nextzip::report::report_text(&inspect_archive_report(&fallback).unwrap(), "1.0000");
    assert!(text.contains("format: BinaryFallback\n"));
    assert!(text.ends_with("container_overhead: 60 bytes"));
}

#[test]
fn bench_outputs_report() {
    let input = (0..50)
        .map(|i| format!(r#"{{"action":"view","ts":{},"user":{}}}"#, i, i % 3))
        .collect::<Vec<_>>()
        .join("\n");
    let table = pipeline::parse_table(input.as_bytes(), InputFormat::Jsonl, false, &[]).ok();
    let f = nextzip::bench::bench_figures(input.as_bytes(), table, &[], &[]).unwrap();
    assert_eq!(f.format, InputFormat::Jsonl);
    assert_eq!(f.original, input.len());
    let text = nextzip::bench::bench_text(&f, "data.jsonl", "1.00");
    assert!(text.starts_with("file: data.jsonl\nformat: Jsonl\n"));
    assert!(text.contains("zstd:"));
    assert!(text.contains("gzip:"));
    assert!(text.contains("nextzip:"));
    assert!(text.contains(&format!("\nzstd:     {} bytes\n", f.zstd)));
    assert!(text.ends_with(&format!("ratio_vs_zstd: 1.00x\nfallback: {}", f.fallback)));
}

#[test]
fn bench_winner_is_the_first_smallest() {
    assert_eq!(winner(3, 3, 3), Winner::Zstd);
    assert_eq!(winner(4, 3, 3), Winner::Gzip);
    assert_eq!(winner(4, 5, 3), Winner::Nextzip);
    assert_eq!(winner(2, 5, 3), Winner::Zstd);
}

#[test]
fn bench_gzip_size_is_a_gzip_stream() {
    let input = vec![b'a'; 1000];
    let f = nextzip::bench::bench_figures(&input, None, &[], &[]).unwrap();
    assert!(f.gzip > 18);
    assert!(f.gzip < input.len());
    assert!(f.fallback);
}
