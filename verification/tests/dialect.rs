use std::collections::BTreeMap;

use nextzip::archive::{
    build_structural, check_restored, choose_archive, pack_fallback, unpack_archive, Unpacked,
};
use nextzip::error::ArchiveError;
use nextzip::formats::table::{Cell, StoredTable};
use nextzip::formats::{csv, json, json_write, jsonl, logs, logs_text, tsv};
use nextzip::report::report_text;
use nextzip::{detect_format, inspect_archive_report, InputFormat, PackOptions};

fn float_texts(table: &StoredTable) -> Vec<(u64, String)> {
    let mut out = BTreeMap::new();
    for c in &table.columns {
        for v in c.values.iter().flatten() {
            if let Cell::Float(b) = v {
                out.insert(*b, f64::from_bits(*b).to_string());
            }
        }
    }
    out.into_iter().collect()
}

fn float_fields(input: &[u8], delimiter: u8) -> Vec<(String, u64)> {
    let mut out = BTreeMap::new();
    if let Some((_, records)) = csv::read_records(input, delimiter) {
        for f in records.iter().flatten() {
            if f.parse::<i64>().is_err() {
                if let Ok(v) = f.parse::<f64>() {
                    out.insert(f.clone(), v.to_bits());
                }
            }
        }
    }
    out.into_iter().collect()
}


fn collect_numbers(value: &serde_json::Value, out: &mut BTreeMap<String, u64>) {
    match value {
        serde_json::Value::Number(n) if n.as_i64().is_none() => {
            out.insert(n.to_string(), n.as_f64().unwrap().to_bits());
        }
        serde_json::Value::Object(m) => m.values().for_each(|v| collect_numbers(v, out)),
        serde_json::Value::Array(a) => a.iter().for_each(|v| collect_numbers(v, out)),
        _ => {}
    }
}

fn json_floats(input: &[u8]) -> Vec<(String, u64)> {
    let mut out = BTreeMap::new();
    for line in std::str::from_utf8(input).unwrap_or("").lines() {
        if let Ok(v) = serde_json::from_str::<serde_json::Value>(line) {
            collect_numbers(&v, &mut out);
        }
    }
    out.into_iter().collect()
}

fn json_float_values(table: &StoredTable) -> Vec<(u64, serde_json::Value)> {
    float_texts(table)
        .into_iter()
        .map(|(b, _)| {
            let v = serde_json::Number::from_f64(f64::from_bits(b))
                .map(serde_json::Value::Number)
                .unwrap_or(serde_json::Value::Null);
            (b, v)
        })
        .collect()
}

fn inspect_text(archive: &[u8]) -> String {
    report_text(&inspect_archive_report(archive).unwrap(), "0")
}

fn structural(input: &[u8], format: InputFormat, options: PackOptions) -> Option<Vec<u8>> {
    let table = match format {
        InputFormat::Csv => csv::parse(input, &float_fields(input, b',')).ok()?,
        InputFormat::Tsv => tsv::parse(input, &float_fields(input, b'\t')).ok()?,
        InputFormat::Logs => logs::parse(input).ok()?,
        InputFormat::Jsonl if options.exact => jsonl::parse_exact(input).ok()?,
        InputFormat::Jsonl => json::parse(input, &json_floats(input)).ok()?,
        _ => return None,
    };
    let u = float_texts(&table);
    build_structural(input, format, options, table, &u).ok()
}

fn unpack(bytes: &[u8]) -> Result<Vec<u8>, ArchiveError> {
    match unpack_archive(bytes)? {
        Unpacked::Restored(b) => Ok(b),
        Unpacked::Decoded(format, table, hash) => {
            let out = match format {
                InputFormat::Csv | InputFormat::Tsv => csv::reconstruct(&table, &float_texts(&table))?,
                InputFormat::Logs => logs_text::reconstruct(&table, &float_texts(&table)),
                InputFormat::Jsonl => json_write::reconstruct(&table, &json_float_values(&table)),
                _ => jsonl::reconstruct_raw_lines(&table).ok_or(ArchiveError::NoStructuralPlan)?,
            };
            check_restored(out, &hash)
        }
    }
}

fn pack(input: &[u8], options: PackOptions) -> Vec<u8> {
    let format = detect_format(input);
    let fallback = pack_fallback(input, format, options).unwrap();
    if format == InputFormat::BinaryFallback {
        return fallback;
    }
    let candidate = structural(input, format, options);
    let restored = candidate.as_ref().and_then(|a| unpack(a).ok());
    choose_archive(input, fallback, candidate, restored)
}

fn assert_roundtrip(input: &[u8]) {
    let archive = pack(input, PackOptions { exact: false, level: 3 });
    assert_eq!(unpack(&archive).unwrap(), input);
}

#[test]
fn csv_quotes_and_commas_roundtrip() {
    assert_roundtrip(b"id,name,note\n1,Alice,\"hello, world\"\n2,Bob,\"x,y,z\"\n");
}

#[test]
fn csv_escaped_quotes_roundtrip() {
    assert_roundtrip(b"id,note\n1,\"he said \"\"hi\"\"\"\n2,\"plain\"\n");
}

#[test]
fn csv_empty_fields_roundtrip() {
    assert_roundtrip(b"id,name,note\n1,,empty-name\n2,Alice,\n3,,\n");
}

#[test]
fn csv_crlf_quotes_roundtrip() {
    assert_roundtrip(b"id,name,note\r\n1,Alice,\"hello, world\"\r\n2,Bob,\"he said \"\"hi\"\"\"\r\n");
}

#[test]
fn pack_unpack_csv() {
    assert_roundtrip(b"ts,user,action\n1,42,view\n2,43,buy\n");
}

#[test]
fn pack_unpack_csv_crlf_structural() {
    assert_roundtrip(b"ts,user,action\r\n1,42,view\r\n2,43,buy\r\n3,44,view\r\n");
}

#[test]
fn pack_unpack_logs() {
    assert_roundtrip(b"2026-01-01 INFO user=42 action=view item=991\n2026-01-01 INFO user=43 action=buy item=992\n2026-01-01 ERROR user=42 action=view item=993\n2026-01-01 WARN user=44 action=view item=994\n2026-01-01 INFO user=45 action=view item=995\n");
}

#[test]
fn logs_use_template_columns() {
    let input = (0..20_000)
        .map(|i| {
            format!(
                "2026-01-01T12:{:02}:{:02}Z {} user={} action={} item={} latency={}",
                (i / 60) % 60,
                i % 60,
                ["INFO", "WARN", "ERROR"][i % 3],
                1000 + (i % 128),
                ["view", "buy", "search"][i % 3],
                9000 + (i % 256),
                25 + (i % 700)
            )
        })
        .collect::<Vec<_>>()
        .join("\n")
        + "\n";
    let archive = pack(input.as_bytes(), PackOptions { exact: false, level: 3 });
    let report = inspect_archive_report(&archive).unwrap();
    let names: Vec<&str> = report.plans.iter().map(|p| p.name.as_str()).collect();
    assert!(names.contains(&"timestamp"));
    assert!(names.contains(&"level"));
    assert!(names.contains(&"latency"));
    assert!(!report.fallback);
    assert_eq!(unpack(&archive).unwrap(), input.as_bytes());
}

#[test]
fn exact_mode_uses_fallback_and_roundtrips() {
    let input = b"{\"b\":2,\"a\":1}\n{\"b\":3,\"a\":2}\n";
    let archive = pack(input, PackOptions { exact: true, level: 3 });
    let report = inspect_archive_report(&archive).unwrap();
    assert!(report.fallback);
    assert_eq!(unpack(&archive).unwrap(), input);
}

#[test]
fn csv_table_reads_fields() {
    let input = b"a,b,c,d\n1,2.5,true,x\n-3,nan,false,\n";
    let table = csv::parse(input, &float_fields(input, b',')).unwrap();
    assert_eq!(table.delimiter, Some(b','));
    assert_eq!(table.row_count, 2);
    assert!(matches!(table.columns[0].values[1], Some(Cell::Integer(-3))));
    assert!(matches!(table.columns[1].values[0], Some(Cell::Float(b)) if b == 2.5f64.to_bits()));
    assert!(matches!(table.columns[1].values[1], Some(Cell::Float(b)) if f64::from_bits(b).is_nan()));
    assert!(matches!(table.columns[2].values[1], Some(Cell::Bool(false))));
    assert!(matches!(&table.columns[3].values[1], Some(Cell::String(s)) if s.is_empty()));
    assert_eq!(csv::reconstruct(&table, &float_texts(&table)), Ok(b"a,b,c,d\n1,2.5,true,x\n-3,NaN,false,\n".to_vec()));
}

#[test]
fn csv_without_final_newline_and_tsv() {
    let input = b"x\ty\n1\t\"q\"\n";
    let table = tsv::parse(input, &[]).unwrap();
    assert_eq!(table.delimiter, Some(b'\t'));
    assert_eq!(csv::reconstruct(&table, &[]), Ok(b"x\ty\n1\tq\n".to_vec()));
    let table = csv::parse(b"a\r\n1\r\n2", &[]).unwrap();
    assert!(!table.trailing_newline);
    assert_eq!(csv::reconstruct(&table, &[]), Ok(b"a\r\n1\r\n2".to_vec()));
}

#[test]
fn csv_errors() {
    assert_eq!(csv::parse(b"a,b\n1,2,3\n", &[]).err(), Some(ArchiveError::Csv));
    let mut table = csv::parse(b"a\n1\n", &[]).unwrap();
    table.delimiter = None;
    assert_eq!(csv::reconstruct(&table, &[]), Err(ArchiveError::MissingDelimiter));
}

fn jsonl_lines(n: usize, line: impl Fn(usize) -> String, sep: &str) -> String {
    (0..n).map(line).collect::<Vec<_>>().join(sep) + sep
}

#[test]
fn pack_unpack_jsonl() {
    let input = jsonl_lines(100, |i| format!(r#"{{"action":"view","ts":{},"user":{}}}"#, 1710000000 + i, i % 7), "\n");
    let archive = pack(input.as_bytes(), PackOptions { exact: false, level: 3 });
    assert_eq!(unpack(&archive).unwrap(), input.as_bytes());
}

#[test]
fn structural_jsonl_selects_multiple_codecs() {
    let input = jsonl_lines(
        20_000,
        |i| {
            format!(
                r#"{{"action":"{}","item":{},"price":{},"ts":{},"user":{}}}"#,
                if i % 4 == 0 { "buy" } else { "view" },
                9000 + (i % 100),
                99 + (i % 20),
                1710000000 + i,
                101 + (i % 8)
            )
        },
        "\n",
    );
    let archive = pack(input.as_bytes(), PackOptions { exact: false, level: 3 });
    let report = inspect_text(&archive);
    assert!(report.contains("fallback: false"));
    assert!(report.contains("Dictionary"));
    assert!(report.contains("Delta") || report.contains("FrameOfReference"));
}

#[test]
fn multi_block_jsonl_roundtrips() {
    let input = jsonl_lines(
        40_000,
        |i| {
            format!(
                r#"{{"action":"{}","region":"r{}","ts":{},"user":{}}}"#,
                if i % 5 == 0 { "buy" } else { "view" },
                i % 12,
                1710000000 + i,
                1000 + (i % 32)
            )
        },
        "\n",
    );
    let archive = pack(input.as_bytes(), PackOptions { exact: false, level: 3 });
    assert_eq!(unpack(&archive).unwrap(), input.as_bytes());
}

#[test]
fn repeated_string_columns_use_dictionary() {
    let input = jsonl_lines(
        20_000,
        |i| {
            format!(
                r#"{{"action":"{}","country":"{}","ts":{}}}"#,
                ["view", "buy", "cart"][i % 3],
                ["US", "DE", "FR", "JP"][i % 4],
                1710000000 + i
            )
        },
        "\n",
    );
    let archive = pack(input.as_bytes(), PackOptions { exact: false, level: 3 });
    let report = inspect_text(&archive);
    assert!(report.contains("Dictionary"));
    assert_eq!(unpack(&archive).unwrap(), input.as_bytes());
}

#[test]
fn linear_integer_columns_use_delta_of_delta() {
    let input = jsonl_lines(
        20_000,
        |i| format!(r#"{{"action":"view","seq":{},"ts":{}}}"#, 1_000_000 + i * 10, 1_710_000_000 + i),
        "\n",
    );
    let archive = pack(input.as_bytes(), PackOptions { exact: false, level: 3 });
    let report = inspect_text(&archive);
    assert!(report.contains("DeltaOfDelta"));
    assert_eq!(unpack(&archive).unwrap(), input.as_bytes());
}

#[test]
fn exact_jsonl_can_use_structural_raw_line_residual() {
    let input = jsonl_lines(
        20_000,
        |i| format!(r#"{{ "z" : {} , "a" : "{}" }}"#, i % 8, ["view", "buy", "search"][i % 3]),
        "\r\n",
    );
    let archive = pack(input.as_bytes(), PackOptions { exact: true, level: 3 });
    let report = inspect_text(&archive);
    assert!(report.contains("fallback: false"));
    assert!(report.contains("__nxz_raw_line"));
    assert_eq!(unpack(&archive).unwrap(), input.as_bytes());
}

#[test]
fn fallback_roundtrip_random() {
    let input: Vec<u8> = (0..2048).map(|i| ((i * 73 + 19) % 251) as u8).collect();
    let archive = pack(&input, PackOptions { exact: false, level: 3 });
    assert_eq!(unpack(&archive).unwrap(), input);
}
