use nextzip::error::ArchiveError;
use nextzip::formats::logs::parse;
use nextzip::formats::logs_text::reconstruct;
use nextzip::formats::table::{rows_to_table, Cell, LineEnding, StoredColumn, StoredTable};
use nextzip::InputFormat;

fn names(table: &StoredTable) -> Vec<String> {
    table.columns.iter().map(|c| c.name.clone()).collect()
}

#[test]
fn template_lines_become_key_columns() {
    let input = b"2026-01-01T12:00:00Z INFO user=1 action=view\n2026-01-01T12:00:01Z WARN action=buy item=7\n";
    let table = parse(input).unwrap();
    assert_eq!(
        names(&table),
        vec!["timestamp", "level", "__nxz_field_order", "user", "action", "item"]
    );
    assert_eq!(table.row_count, 2);
    assert!(table.trailing_newline);
    assert_eq!(table.line_ending, LineEnding::Lf);
    assert!(matches!(&table.columns[2].values[1], Some(Cell::String(s)) if s == "action,item"));
    assert!(matches!(table.columns[3].values[0], Some(Cell::Integer(1))));
    assert!(table.columns[3].values[1].is_none());
    assert!(matches!(&table.columns[4].values[1], Some(Cell::String(s)) if s == "buy"));
    assert_eq!(reconstruct(&table, &[]), input.to_vec());
}

#[test]
fn template_logs_with_crlf_roundtrip() {
    let input = b"t1 ERROR code=500 path=/a\r\nt2 DEBUG code=200 path=/b";
    let table = parse(input).unwrap();
    assert_eq!(table.line_ending, LineEnding::CrLf);
    assert!(!table.trailing_newline);
    assert_eq!(reconstruct(&table, &[]), input.to_vec());
}

#[test]
fn other_logs_become_word_columns() {
    let input = b"alpha beta 12\ngamma\n";
    let table = parse(input).unwrap();
    assert_eq!(names(&table), vec!["f0", "f1", "f2"]);
    assert!(matches!(table.columns[2].values[0], Some(Cell::Integer(12))));
    assert!(table.columns[1].values[1].is_none());
    assert_eq!(reconstruct(&table, &[]), b"alpha beta 12\ngamma  \n".to_vec());
}

#[test]
fn word_columns_are_named_in_string_order() {
    let input = b"a b c d e f g h i j k l\n";
    let table = parse(input).unwrap();
    assert_eq!(
        names(&table),
        vec!["f0", "f1", "f10", "f11", "f2", "f3", "f4", "f5", "f6", "f7", "f8", "f9"]
    );
    assert!(matches!(&table.columns[2].values[0], Some(Cell::String(s)) if s == "k"));
}

#[test]
fn integers_parse_as_rust_does() {
    let input = b"+5 -9223372036854775808 9223372036854775808 - 007\n";
    let table = parse(input).unwrap();
    assert!(matches!(table.columns[0].values[0], Some(Cell::Integer(5))));
    assert!(matches!(table.columns[1].values[0], Some(Cell::Integer(i64::MIN))));
    assert!(matches!(&table.columns[2].values[0], Some(Cell::String(s)) if s == "9223372036854775808"));
    assert!(matches!(&table.columns[3].values[0], Some(Cell::String(s)) if s == "-"));
    assert!(matches!(table.columns[4].values[0], Some(Cell::Integer(7))));
    assert_eq!(
        reconstruct(&table, &[]),
        b"5 -9223372036854775808 9223372036854775808 - 7\n".to_vec()
    );
}

#[test]
fn a_line_off_the_template_makes_word_columns() {
    let input = b"t1 INFO a=1\nt2 NOTICE a=2\n";
    let table = parse(input).unwrap();
    assert_eq!(names(&table), vec!["f0", "f1", "f2"]);
}

#[test]
fn invalid_utf8_is_refused() {
    assert!(matches!(parse(&[0x66, 0xff]), Err(ArchiveError::InvalidUtf8)));
}

#[test]
fn floats_take_the_given_text() {
    let table = StoredTable {
        format: InputFormat::Logs,
        delimiter: None,
        line_ending: LineEnding::Lf,
        columns: vec![
            StoredColumn { name: "f0".to_string(), values: vec![Some(Cell::Float(1.5f64.to_bits()))] },
            StoredColumn { name: "f1".to_string(), values: vec![Some(Cell::Bool(true)), Some(Cell::Null)] },
        ],
        row_count: 2,
        trailing_newline: false,
    };
    let floats = vec![(1.5f64.to_bits(), "1.5".to_string())];
    assert_eq!(reconstruct(&table, &floats), b"1.5 true\n null".to_vec());
}

#[test]
fn rows_become_sorted_columns() {
    let rows = vec![
        vec![("b".to_string(), Cell::Integer(1)), ("a".to_string(), Cell::Bool(true))],
        vec![("c".to_string(), Cell::Null), ("b".to_string(), Cell::Integer(2)), ("b".to_string(), Cell::Integer(3))],
        vec![],
    ];
    let table = rows_to_table(InputFormat::Jsonl, rows, true);
    assert_eq!(names(&table), vec!["a", "b", "c"]);
    assert_eq!(table.row_count, 3);
    assert_eq!(table.line_ending, LineEnding::Lf);
    assert!(matches!(table.columns[0].values[0], Some(Cell::Bool(true))));
    assert!(table.columns[0].values[1].is_none());
    assert!(matches!(table.columns[1].values[1], Some(Cell::Integer(3))));
    assert!(table.columns[2].values[2].is_none());
    let table = rows_to_table(InputFormat::Jsonl, vec![vec![("x10".to_string(), Cell::Null), ("x2".to_string(), Cell::Null), ("X".to_string(), Cell::Null)]], false);
    assert_eq!(names(&table), vec!["X", "x10", "x2"]);
}

#[test]
fn word_logs_with_equal_word_counts_roundtrip() {
    let input = b"GET /a 200 12\nPOST /b 404 7\nGET /c 200 -3";
    let table = parse(input).unwrap();
    assert_eq!(names(&table), vec!["f0", "f1", "f2", "f3"]);
    assert_eq!(reconstruct(&table, &[]), input.to_vec());
}

#[test]
fn template_logs_with_repeated_key_do_not_roundtrip() {
    let input = b"t1 INFO a=1 a=2\n";
    let table = parse(input).unwrap();
    assert!(matches!(table.columns[3].values[0], Some(Cell::Integer(2))));
    assert_eq!(reconstruct(&table, &[]), b"t1 INFO a=2 a=2\n".to_vec());
}
