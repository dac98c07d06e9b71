use nextzip::archive::{pack_fallback, unpack_archive};
use nextzip::column::chunk::{codec_from_id, decode_column_chunk, encode_column_chunk};
use nextzip::column::payload::{decode_table, encode_table, format_from_id};
use nextzip::column::ColumnCodec;
use nextzip::error::ArchiveError;
use nextzip::formats::table::{Cell, LineEnding, StoredColumn, StoredTable};
use nextzip::header::decode_header;
use nextzip::wire::read_varint;
use nextzip::{InputFormat, PackOptions};

const OPTIONS: PackOptions = PackOptions { exact: false, level: 1 };

fn small_payload() -> Vec<u8> {
    let table = StoredTable {
        format: InputFormat::Csv,
        delimiter: None,
        line_ending: LineEnding::Lf,
        columns: vec![StoredColumn {
            name: "a".to_string(),
            values: vec![Some(Cell::Integer(1)), Some(Cell::Integer(2)), Some(Cell::Integer(3))],
        }],
        row_count: 3,
        trailing_newline: true,
    };
    encode_table(&table, &[]).unwrap()
}

fn le32(x: u32) -> Vec<u8> {
    x.to_le_bytes().to_vec()
}

fn le64(x: u64) -> Vec<u8> {
    x.to_le_bytes().to_vec()
}

#[test]
fn payload_metadata_errors() {
    let good = small_payload();
    assert!(decode_table(&good).is_ok());
    let mut b = good.clone();
    b[0] = 9;
    assert_eq!(decode_table(&b).err(), Some(ArchiveError::UnknownFormat(9)));
    assert_eq!(format_from_id(9), Err(ArchiveError::UnknownFormat(9)));
    let mut b = good.clone();
    b[1] = 2;
    assert_eq!(decode_table(&b).err(), Some(ArchiveError::BadDelimiterMarker(2)));
    let mut b = good.clone();
    b[3] = 7;
    assert_eq!(decode_table(&b).err(), Some(ArchiveError::BadLineEnding(7)));
}

#[test]
fn payload_record_errors() {
    let good = small_payload();
    let record = 1 + 1 + 1 + 1 + 8 + 4 + 8 + 1 + 4 + 4;
    let mut b = good.clone();
    b[record] = 5;
    assert_eq!(decode_table(&b).err(), Some(ArchiveError::BadColumnId(5)));
    let mut b = good.clone();
    b[record + 4] = 9;
    assert_eq!(decode_table(&b).err(), Some(ArchiveError::UnknownCodec(9)));
    assert_eq!(codec_from_id(9), Err(ArchiveError::UnknownCodec(9)));
}

#[test]
fn chunk_errors() {
    assert_eq!(decode_column_chunk(&[1, 9], ColumnCodec::Raw, 1).err(), Some(ArchiveError::BadCellTag(9)));
    assert_eq!(decode_column_chunk(&[2], ColumnCodec::Raw, 1).err(), Some(ArchiveError::BadRawMarker(2)));
    let mut rle = le64(1);
    rle.extend(le64(1));
    rle.push(3);
    assert_eq!(decode_column_chunk(&rle, ColumnCodec::Rle, 1).err(), Some(ArchiveError::BadRleMarker(3)));
    let mut rle = le64(1);
    rle.extend(le64(2));
    rle.push(0);
    assert_eq!(decode_column_chunk(&rle, ColumnCodec::Rle, 1).err(), Some(ArchiveError::RleRowCount));
    let mut packed = le64(0);
    packed.push(128);
    packed.extend(le64(0));
    packed.extend(le64(0));
    assert_eq!(decode_column_chunk(&packed, ColumnCodec::BitPack, 0).err(), Some(ArchiveError::BadBitWidth(128)));
    assert_eq!(decode_column_chunk(&[1, 2], ColumnCodec::Delta, 1).err(), Some(ArchiveError::UnexpectedEnd));
}

#[test]
fn encoder_errors() {
    let text = vec![Some(Cell::String("x".to_string()))];
    assert_eq!(encode_column_chunk(&text, ColumnCodec::Delta).err(), Some(ArchiveError::NonIntegerValue));
    let wide = vec![Some(Cell::Integer(i64::MIN)), Some(Cell::Integer(i64::MAX))];
    assert_eq!(encode_column_chunk(&wide, ColumnCodec::FrameOfReference).err(), Some(ArchiveError::OffsetOverflow));
    assert!(encode_column_chunk(&wide, ColumnCodec::Delta).is_ok());
}

#[test]
fn varint_errors() {
    assert_eq!(read_varint(&[0x80; 11], 0), Err(ArchiveError::VarintTooLong));
    assert_eq!(read_varint(&[0x80, 0x80], 0), Err(ArchiveError::UnexpectedEnd));
    assert_eq!(read_varint(&[0x96, 0x01], 0), Ok((150, 2)));
}

#[test]
fn header_errors() {
    let mut h = le32(1);
    h.extend(le32(1));
    h.extend(le64(0));
    h.extend([0u8; 32]);
    h.extend(le32(0));
    h.extend([0, 0]);
    h.extend(le64(1));
    h.extend(le64(1));
    h.push(b'a');
    let mut bad_type = h.clone();
    bad_type.extend(le32(9));
    bad_type.push(0);
    assert_eq!(decode_header(&bad_type).err(), Some(ArchiveError::UnknownVariant(9)));
    let mut bad_bool = h.clone();
    bad_bool.extend(le32(2));
    bad_bool.push(2);
    assert_eq!(decode_header(&bad_bool).err(), Some(ArchiveError::InvalidBool(2)));
    let mut h2 = h.clone();
    let n = h2.len();
    h2[n - 1] = 0xff;
    h2.extend(le32(0));
    h2.push(0);
    assert_eq!(decode_header(&h2).err(), Some(ArchiveError::InvalidUtf8));
    let mut bad_format = le32(1);
    bad_format.extend(le32(1));
    bad_format.extend(le64(0));
    bad_format.extend([0u8; 32]);
    bad_format.extend(le32(5));
    assert_eq!(decode_header(&bad_format).err(), Some(ArchiveError::UnknownVariant(5)));
}

#[test]
fn container_errors() {
    let good = pack_fallback(b"some bytes", InputFormat::BinaryFallback, OPTIONS).unwrap();
    let mut b = good.clone();
    b[4] = 2;
    assert_eq!(unpack_archive(&b).err(), Some(ArchiveError::UnsupportedVersion(2)));
    let mut b = good.clone();
    b[12..20].copy_from_slice(&(good.len() as u64).to_le_bytes());
    assert_eq!(unpack_archive(&b).err(), Some(ArchiveError::TruncatedHeader));
    let mut b = good.clone();
    b[12..20].copy_from_slice(&u64::MAX.to_le_bytes());
    assert_eq!(unpack_archive(&b).err(), Some(ArchiveError::LengthOverflow));
    let hl = u64::from_le_bytes(good[12..20].try_into().unwrap()) as usize;
    let mut b = good.clone();
    b[20 + hl..28 + hl].copy_from_slice(&(good.len() as u64).to_le_bytes());
    assert_eq!(unpack_archive(&b).err(), Some(ArchiveError::TruncatedPayload));
    let mut b = good.clone();
    b[20] ^= 0xff;
    assert_eq!(unpack_archive(&b).err(), Some(ArchiveError::Decompression));
}
