use nextzip::checksum::blake3_bytes;
use nextzip::column::chunk::{choose_best_codec, decode_column_chunk, encode_column_chunk};
use nextzip::column::payload::{block_count, codec_stats, decode_table, encode_table};
use nextzip::column::{ColumnCodec, ColumnPlan};
use nextzip::entropy::zstd;
use nextzip::error::ArchiveError;
use nextzip::formats::table::{Cell, LineEnding, StoredColumn, StoredTable};
use nextzip::header::{decode_header, encode_header, ArchiveHeader};
use nextzip::schema::infer::infer_type;
use nextzip::schema::{ColumnSchema, ColumnType, Schema};
use nextzip::InputFormat;

fn sample_table(rows: usize) -> StoredTable {
    let ts: Vec<Option<Cell>> = (0..rows).map(|i| Some(Cell::Integer(1_710_000_000 + 10 * i as i64))).collect();
    let action: Vec<Option<Cell>> = (0..rows)
        .map(|i| Some(Cell::String(["view", "buy"][i % 2].to_string())))
        .collect();
    let mixed: Vec<Option<Cell>> = (0..rows)
        .map(|i| match i % 5 {
            0 => None,
            1 => Some(Cell::Null),
            2 => Some(Cell::Bool(i % 2 == 0)),
            3 => Some(Cell::Float((i as f64 / 4.0).to_bits())),
            _ => Some(Cell::String(format!("s{}", i))),
        })
        .collect();
    StoredTable {
        format: InputFormat::Jsonl,
        delimiter: None,
        line_ending: LineEnding::CrLf,
        columns: vec![
            StoredColumn { name: "ts".to_string(), values: ts },
            StoredColumn { name: "action".to_string(), values: action },
            StoredColumn { name: "mixed".to_string(), values: mixed },
        ],
        row_count: rows,
        trailing_newline: true,
    }
}

fn same_cells(a: &[Option<Cell>], b: &[Option<Cell>]) -> bool {
    format!("{:?}", a) == format!("{:?}", b)
}

#[test]
fn table_payload_roundtrips_across_blocks() {
    let table = sample_table(40_000);
    let bytes = encode_table(&table, &[]).unwrap();
    assert_eq!(block_count(&bytes), Ok(3));
    let back = decode_table(&bytes).unwrap();
    assert_eq!(back.row_count, table.row_count);
    assert_eq!(back.format, InputFormat::Jsonl);
    assert_eq!(back.line_ending, LineEnding::CrLf);
    assert!(back.trailing_newline);
    assert_eq!(back.columns.len(), 3);
    for (a, b) in table.columns.iter().zip(back.columns.iter()) {
        assert_eq!(a.name, b.name);
        assert!(same_cells(&a.values, &b.values));
    }
}

#[test]
fn empty_table_has_one_block() {
    let table = sample_table(0);
    let bytes = encode_table(&table, &[]).unwrap();
    assert_eq!(block_count(&bytes), Ok(1));
    assert_eq!(decode_table(&bytes).unwrap().row_count, 0);
}

#[test]
fn codecs_follow_the_data() {
    let linear: Vec<Option<Cell>> = (0..100).map(|i| Some(Cell::Integer(1000 + 10 * i))).collect();
    assert_eq!(choose_best_codec(&linear), ColumnCodec::DeltaOfDelta);
    let repeated: Vec<Option<Cell>> = (0..100)
        .map(|i| Some(Cell::String(["view", "buy", "cart"][i % 3].to_string())))
        .collect();
    let chunk = encode_column_chunk(&repeated, ColumnCodec::Dictionary).unwrap();
    assert!(same_cells(&decode_column_chunk(&chunk, ColumnCodec::Dictionary, 100).unwrap(), &repeated));
}

#[test]
fn codec_stats_count_chunks() {
    let table = sample_table(20_000);
    let bytes = encode_table(&table, &[]).unwrap();
    let stats = codec_stats(&bytes).unwrap();
    let chunks: u64 = stats.iter().map(|s| s.chunks).sum();
    assert_eq!(chunks, 6);
    assert_eq!(stats[0].column_id, 0);
    assert_eq!(stats[0].column_name, "ts");
}

#[test]
fn truncated_payload_is_refused() {
    let table = sample_table(10);
    let bytes = encode_table(&table, &[]).unwrap();
    assert_eq!(decode_table(&bytes[..bytes.len() - 1]).err(), Some(ArchiveError::UnexpectedEnd));
    assert!(decode_table(&[]).is_err());
}

#[test]
fn header_roundtrips() {
    let table = sample_table(50);
    let uniques = vec![50, 2, 41];
    let (schema, plans) = table.schema_and_plans(&uniques);
    let header = ArchiveHeader {
        version: 1,
        header_schema_version: 1,
        original_size: 1234,
        original_hash: blake3_bytes(b"abc"),
        format: InputFormat::Csv,
        exact_mode: true,
        fallback_used: false,
        schema,
        row_count: 50,
        column_plans: plans,
    };
    let back = decode_header(&encode_header(&header)).unwrap();
    assert_eq!(back.original_size, 1234);
    assert_eq!(back.original_hash, header.original_hash);
    assert_eq!(back.format, InputFormat::Csv);
    assert!(back.exact_mode);
    assert_eq!(back.schema.columns.len(), 3);
    assert_eq!(back.schema.columns[0].column_type, ColumnType::Integer);
    assert_eq!(back.schema.columns[1].column_type, ColumnType::Enum);
    assert_eq!(back.schema.columns[2].column_type, ColumnType::String);
    assert_eq!(back.column_plans[1].name, "action");
    assert_eq!(back.column_plans[1].codec, header.column_plans[1].codec);
    assert!(decode_header(&[1, 2, 3]).is_err());
    let empty = ArchiveHeader {
        version: 1,
        header_schema_version: 1,
        original_size: 0,
        original_hash: [0; 32],
        format: InputFormat::BinaryFallback,
        exact_mode: false,
        fallback_used: true,
        schema: Schema::default(),
        row_count: 0,
        column_plans: vec![],
    };
    assert!(decode_header(&encode_header(&empty)).unwrap().fallback_used);
}

#[test]
fn header_bytes_follow_bincode() {
    let header = ArchiveHeader {
        version: 1,
        header_schema_version: 1,
        original_size: 7,
        original_hash: [9; 32],
        format: InputFormat::Tsv,
        exact_mode: false,
        fallback_used: true,
        schema: Schema {
            columns: vec![ColumnSchema { name: "id".to_string(), column_type: ColumnType::Integer, nullable: true }],
        },
        row_count: 3,
        column_plans: vec![ColumnPlan {
            name: "id".to_string(),
            column_type: ColumnType::Integer,
            codec: ColumnCodec::Delta,
            original_len: 5,
            encoded_len_estimate: 4,
        }],
    };
    let mut want: Vec<u8> = Vec::new();
    want.extend(1u32.to_le_bytes());
    want.extend(1u32.to_le_bytes());
    want.extend(7u64.to_le_bytes());
    want.extend([9u8; 32]);
    want.extend(2u32.to_le_bytes());
    want.extend([0u8, 1u8]);
    want.extend(1u64.to_le_bytes());
    want.extend(2u64.to_le_bytes());
    want.extend(b"id");
    want.extend(2u32.to_le_bytes());
    want.push(1);
    want.extend(3u64.to_le_bytes());
    want.extend(1u64.to_le_bytes());
    want.extend(2u64.to_le_bytes());
    want.extend(b"id");
    want.extend(2u32.to_le_bytes());
    want.extend(2u32.to_le_bytes());
    want.extend(5u64.to_le_bytes());
    want.extend(4u64.to_le_bytes());
    assert_eq!(encode_header(&header), want);
    let back = decode_header(&want).unwrap();
    assert_eq!(back.column_plans[0].codec, ColumnCodec::Delta);
    assert!(back.schema.columns[0].nullable);
}

#[test]
fn infer_type_reads_the_values() {
    let ints: Vec<Option<Cell>> = (0..10).map(|i| Some(Cell::Integer(i))).collect();
    assert_eq!(infer_type(&ints, 10, 10), ColumnType::Integer);
    let numbers = vec![Some(Cell::Integer(1)), Some(Cell::Float(2.5f64.to_bits())), None];
    assert_eq!(infer_type(&numbers, 3, 2), ColumnType::Float);
    let flags = vec![Some(Cell::Bool(true)), None];
    assert_eq!(infer_type(&flags, 2, 1), ColumnType::Bool);
    let words: Vec<Option<Cell>> = (0..10).map(|_| Some(Cell::String("a".to_string()))).collect();
    assert_eq!(infer_type(&words, 10, 1), ColumnType::Enum);
    assert_eq!(infer_type(&[None, None], 2, 0), ColumnType::Null);
}

#[test]
fn zstd_sections_roundtrip() {
    let data = b"aaaaaaaaaaaaaaaaaaaaaaaaaaaaaaaaaaaaaaaaaaaaaaaabbbbbbbbbbbbbbbbbb".to_vec();
    let packed = zstd::encode(&data, 3).unwrap();
    assert_ne!(packed, data);
    assert_eq!(zstd::decode(&packed).unwrap(), data);
    assert_eq!(zstd::decode(b"not zstd"), Err(ArchiveError::Decompression));
}

#[test]
fn blake3_of_empty_input() {
    let h = blake3_bytes(b"");
    assert_eq!(h[0], 0xaf);
    assert_eq!(h[1], 0x13);
    assert_eq!(h[31], 0x62);
}

#[test]
fn presence_bits_roundtrip() {
    let values = vec![true, false, true, true, false, false, false, false, true];
    let bytes = nextzip::column::presence::pack_presence(&values);
    assert_eq!(bytes, vec![0b0000_1101, 0b0000_0001]);
    assert_eq!(nextzip::column::presence::unpack_presence(&bytes, values.len()), values);
}
