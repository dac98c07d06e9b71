use nextzip::error::ArchiveError;
use nextzip::formats::json::parse;
use nextzip::formats::table::value_to_cell;
use nextzip::schema::flatten::flatten_json;
use nextzip::formats::json_write::reconstruct;
use nextzip::column::stats::unique_count;
use nextzip::formats::table::{Cell, StoredTable};
use nextzip::pipeline::{pack, unpack};
use nextzip::{InputFormat, PackOptions};

fn col<'a>(t: &'a StoredTable, name: &str) -> &'a Vec<Option<Cell>> {
    &t.columns.iter().find(|c| c.name == name).unwrap().values
}

#[test]
fn json_lines_flatten_to_dotted_columns() {
    let input = b"{\"b\":1,\"a\":{\"x\":\"s\",\"y\":[1,2]}}\n\n  \n{\"a\":{\"x\":\"t\"},\"c\":null,\"d\":true}\n";
    let t = parse(input, &[]).unwrap();
    let names: Vec<&str> = t.columns.iter().map(|c| c.name.as_str()).collect();
    assert_eq!(names, vec!["a.x", "a.y", "b", "c", "d"]);
    assert_eq!(t.row_count, 2);
    assert!(t.trailing_newline);
    assert!(matches!(&col(&t, "a.x")[1], Some(Cell::String(s)) if s == "t"));
    assert!(matches!(&col(&t, "a.y")[0], Some(Cell::String(s)) if s == "[1,2]"));
    assert!(col(&t, "a.y")[1].is_none());
    assert!(matches!(col(&t, "b")[0], Some(Cell::Integer(1))));
    assert!(matches!(col(&t, "c")[1], Some(Cell::Null)));
    assert!(matches!(col(&t, "d")[1], Some(Cell::Bool(true))));
}

#[test]
fn json_numbers_use_the_given_float_readings() {
    let floats = vec![("2.5".to_string(), 2.5f64.to_bits())];
    let t = parse(b"{\"v\":2.5}\n{\"v\":-7}\n{\"v\":1.25}", &floats).unwrap();
    let v = col(&t, "v");
    assert!(matches!(v[0], Some(Cell::Float(b)) if b == 2.5f64.to_bits()));
    assert!(matches!(v[1], Some(Cell::Integer(-7))));
    assert!(matches!(v[2], Some(Cell::Null)));
    assert!(!t.trailing_newline);
}

#[test]
fn json_line_errors() {
    assert_eq!(parse(b"{\"a\":1}\n{oops}\n", &[]).err(), Some(ArchiveError::InvalidJsonLine));
    assert_eq!(parse(b"{\"a\":1}\n[1,2]\n", &[]).err(), Some(ArchiveError::JsonRowNotObject));
    assert_eq!(parse(&[0xff, 0xfe], &[]).err(), Some(ArchiveError::InvalidUtf8));
}

#[test]
fn flatten_joins_keys_with_dots() {
    let v: serde_json::Value = serde_json::from_str(r#"{"a":{"b":{"c":3}},"d":"x"}"#).unwrap();
    let row = flatten_json(&v, &[]);
    let keys: Vec<&str> = row.iter().map(|(k, _)| k.as_str()).collect();
    assert_eq!(keys, vec!["a.b.c", "d"]);
    assert!(matches!(row[0].1, Cell::Integer(3)));
}

#[test]
fn json_rows_are_rebuilt_from_paths() {
    let input = b"{\"b\":1,\"a\":{\"x\":\"s\"}}\n{\"a\":{\"x\":\"t\"},\"c\":null}\n";
    let t = parse(input, &[]).unwrap();
    let out = reconstruct(&t, &[]);
    assert_eq!(
        String::from_utf8(out).unwrap(),
        "{\"a\":{\"x\":\"s\"},\"b\":1}\n{\"a\":{\"x\":\"t\"},\"c\":null}\n"
    );
}

#[test]
fn json_rebuild_writes_given_float_values() {
    let floats = vec![("0.5".to_string(), 0.5f64.to_bits())];
    let t = parse(b"{\"v\":0.5}", &floats).unwrap();
    let half = serde_json::Value::Number(serde_json::Number::from_f64(0.5).unwrap());
    let out = reconstruct(&t, &[(0.5f64.to_bits(), half)]);
    assert_eq!(out, b"{\"v\":0.5}".to_vec());
    assert_eq!(reconstruct(&t, &[]), b"{\"v\":null}".to_vec());
}

#[test]
fn unique_count_counts_distinct_texts() {
    let values = vec![
        Some(Cell::Integer(1)),
        None,
        Some(Cell::String("1".to_string())),
        Some(Cell::Float(2.0f64.to_bits())),
        Some(Cell::Bool(true)),
    ];
    assert_eq!(unique_count(&values, &[(2.0f64.to_bits(), "2".to_string())]), 3);
}

#[test]
fn pipeline_pack_unpacks_to_the_input() {
    let input = (0..300)
        .map(|i| format!(r#"{{"action":"{}","ts":{},"user":{}}}"#, ["view", "buy"][i % 2], 1710000000 + i, i % 7))
        .collect::<Vec<_>>()
        .join("\n")
        + "\n";
    let table = parse(input.as_bytes(), &[]).unwrap();
    let options = PackOptions { exact: false, level: 3 };
    let archive = pack(input.as_bytes(), InputFormat::Jsonl, options, Some(table), &[], &[]).unwrap();
    assert_eq!(unpack(&archive, &[], &[]).unwrap(), input.as_bytes());
    let report = nextzip::inspect_archive_report(&archive).unwrap();
    assert!(!report.fallback);
    let fallback = pack(b"\x00\x01binary", InputFormat::BinaryFallback, options, None, &[], &[]).unwrap();
    assert_eq!(unpack(&fallback, &[], &[]).unwrap(), b"\x00\x01binary");
}

#[test]
fn value_to_cell_reads_json_values() {
    let v: serde_json::Value = serde_json::from_str(r#"{"a":[1,"x"],"b":{"c":2}}"#).unwrap();
    assert!(matches!(value_to_cell(&v, &[]), Cell::String(s) if s == r#"{"a":[1,"x"],"b":{"c":2}}"#));
    assert!(matches!(value_to_cell(&v["a"], &[]), Cell::String(s) if s == r#"[1,"x"]"#));
    assert!(matches!(value_to_cell(&v["b"]["c"], &[]), Cell::Integer(2)));
    let big: serde_json::Value = serde_json::from_str("18446744073709551615").unwrap();
    let bits = 18446744073709551615u64 as f64;
    let floats = vec![("18446744073709551615".to_string(), bits.to_bits())];
    assert!(matches!(value_to_cell(&big, &floats), Cell::Float(b) if b == bits.to_bits()));
    assert!(matches!(value_to_cell(&serde_json::Value::Null, &[]), Cell::Null));
}

#[test]
fn cell_to_json_gives_json_values() {
    let half = serde_json::Value::Number(serde_json::Number::from_f64(0.5).unwrap());
    let floats = vec![(0.5f64.to_bits(), half.clone())];
    assert_eq!(Cell::Integer(-3).to_json(&floats), serde_json::Value::from(-3));
    assert_eq!(Cell::Float(0.5f64.to_bits()).to_json(&floats), half);
    assert_eq!(Cell::String("s".to_string()).to_json(&floats), serde_json::Value::String("s".to_string()));
    assert_eq!(Cell::Bool(false).to_json(&[]), serde_json::Value::Bool(false));
}
