use nextzip::{detect_format, InputFormat};

#[test]
fn detect_jsonl() {
    let input = (0..25)
        .map(|i| {
            format!(
                r#"{{"action":"view","ts":{},"user":{}}}"#,
                1710000000 + i,
                i % 5
            )
        })
        .collect::<Vec<_>>()
        .join("\n");
    assert_eq!(detect_format(input.as_bytes()), InputFormat::Jsonl);
}

#[test]
fn detect_csv() {
    assert_eq!(detect_format(b"a,b,c\n1,2,3\n4,5,6\n"), InputFormat::Csv);
}

#[test]
fn detect_semicolon_csv() {
    assert_eq!(detect_format(b"a;b\n1;2\n3;4\n"), InputFormat::Csv);
}

#[test]
fn detect_tsv() {
    assert_eq!(detect_format(b"a\tb\n1\t2\n3\t4\n"), InputFormat::Tsv);
}

#[test]
fn detect_logs() {
    let input = (0..6)
        .map(|i| format!("2026-01-01T12:00:0{}Z INFO user={} action=view", i, i))
        .collect::<Vec<_>>()
        .join("\n");
    assert_eq!(detect_format(input.as_bytes()), InputFormat::Logs);
}

#[test]
fn few_json_lines_are_not_jsonl() {
    let input = (0..5)
        .map(|i| format!(r#"{{"ts":{}}}"#, i))
        .collect::<Vec<_>>()
        .join("\n");
    assert_eq!(detect_format(input.as_bytes()), InputFormat::BinaryFallback);
}

#[test]
fn nul_bytes_and_bad_utf8_are_binary() {
    assert_eq!(detect_format(b"a,b\n1,\x002\n"), InputFormat::BinaryFallback);
    assert_eq!(detect_format(b"a,b\n\xff,2\n3,4\n"), InputFormat::BinaryFallback);
    assert_eq!(detect_format(b""), InputFormat::BinaryFallback);
    assert_eq!(detect_format(b"\n  \n\t\n"), InputFormat::BinaryFallback);
}
