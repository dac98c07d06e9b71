use nextzip::formats::jsonl::{parse_exact, reconstruct_raw_lines};
use nextzip::formats::table::{Cell, LineEnding, StoredColumn, StoredTable};
use nextzip::InputFormat;

#[test]
fn exact_lines_roundtrip() {
    let input = b"{\"b\":2,\"a\":1}\n{\"b\":3,\"a\":2}\n";
    let table = parse_exact(input).unwrap();
    assert_eq!(table.columns.len(), 1);
    assert_eq!(table.columns[0].name, "__nxz_raw_line");
    assert_eq!(table.row_count, 2);
    assert!(matches!(&table.columns[0].values[0], Some(Cell::String(s)) if s == "{\"b\":2,\"a\":1}"));
    assert_eq!(reconstruct_raw_lines(&table), Some(input.to_vec()));
}

#[test]
fn exact_lines_with_crlf_and_no_final_newline_roundtrip() {
    let input = b"{ \"z\" : 1 , \"a\" : \"view\" }\r\n{}\r\n\r\n[1]";
    let table = parse_exact(input).unwrap();
    assert_eq!(table.line_ending, LineEnding::CrLf);
    assert_eq!(table.row_count, 4);
    assert_eq!(reconstruct_raw_lines(&table), Some(input.to_vec()));
}

#[test]
fn mixed_line_endings_do_not_roundtrip() {
    let input = b"a\r\nb\nc\n";
    let table = parse_exact(input).unwrap();
    assert_eq!(reconstruct_raw_lines(&table), Some(b"a\r\nb\r\nc\r\n".to_vec()));
}

#[test]
fn a_table_without_raw_lines_has_no_exact_text() {
    let table = StoredTable {
        format: InputFormat::Jsonl,
        delimiter: None,
        line_ending: LineEnding::Lf,
        columns: vec![StoredColumn { name: "a".to_string(), values: vec![Some(Cell::Integer(1))] }],
        row_count: 1,
        trailing_newline: true,
    };
    assert_eq!(reconstruct_raw_lines(&table), None);
}

#[test]
fn non_utf8_is_refused() {
    assert!(parse_exact(&[0xc3]).is_err());
}
