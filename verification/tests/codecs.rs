use nextzip::codecs::{bitpack, delta, delta2, dict, frame_of_reference, rle, zigzag};

#[test]
fn dict_roundtrip() {
    let values = vec!["a".to_string(), "b".to_string(), "a".to_string()];
    let (dict, indexes) = dict::encode(&values);
    assert_eq!(dict::decode(&dict, &indexes), values);
}

#[test]
fn delta_roundtrip() {
    let values = vec![1000, 1001, 1004, 1007];
    assert_eq!(delta::decode(&delta::encode(&values)), values);
}

#[test]
fn delta2_roundtrip() {
    let values = vec![1000, 1010, 1020, 1031];
    assert_eq!(delta2::decode(&delta2::encode(&values)), values);
}

#[test]
fn rle_roundtrip() {
    let values = vec!["a", "a", "a", "b", "b", "c"];
    assert_eq!(rle::decode(&rle::encode(&values)), values);
}

#[test]
fn bitpack_roundtrip() {
    let values = vec![0, 1, 3, 7, 2, 5, 6];
    let bits = bitpack::bits_required(*values.iter().max().unwrap());
    assert_eq!(
        bitpack::decode(&bitpack::encode(&values, bits), bits, values.len()),
        values
    );
}

#[test]
fn dict_keeps_first_occurrence_order() {
    let values = vec!["x".to_string(), "y".to_string(), "x".to_string(), "z".to_string()];
    let (dict, indexes) = dict::encode(&values);
    assert_eq!(dict, vec!["x".to_string(), "y".to_string(), "z".to_string()]);
    assert_eq!(indexes, vec![0, 1, 0, 2]);
}

#[test]
fn delta_encodes_differences() {
    assert_eq!(delta::encode(&[1000, 1001, 1004, 1007]), vec![1000, 1, 3, 3]);
    assert_eq!(delta::encode(&[]), Vec::<i64>::new());
}

#[test]
fn delta2_encodes_second_differences() {
    assert_eq!(delta2::encode(&[1000, 1010, 1020, 1031]), vec![1000, -990, 0, 1]);
}

#[test]
fn delta_wraps_at_the_ends_of_i64() {
    let values = vec![i64::MAX, i64::MIN, 0];
    assert_eq!(delta::decode(&delta::encode(&values)), values);
}

#[test]
fn rle_counts_runs() {
    assert_eq!(rle::encode(&["a", "a", "b"]), vec![("a", 2), ("b", 1)]);
    assert_eq!(rle::encode::<u8>(&[]), vec![]);
}

#[test]
fn bitpack_packs_low_bits_first() {
    assert_eq!(bitpack::bits_required(0), 1);
    assert_eq!(bitpack::bits_required(7), 3);
    assert_eq!(bitpack::bits_required(8), 4);
    assert_eq!(bitpack::bits_required(u64::MAX), 64);
    assert_eq!(bitpack::encode(&[1, 2, 3], 2), vec![0b0011_1001]);
}

#[test]
fn frame_of_reference_roundtrip() {
    let values = vec![-5, 10, 3, -5];
    let (base, offsets) = frame_of_reference::encode(&values).unwrap();
    assert_eq!(base, -5);
    assert_eq!(offsets, vec![0, 15, 8, 0]);
    assert_eq!(frame_of_reference::decode(base, &offsets), values);
    assert!(frame_of_reference::encode(&[]).is_none());
}

#[test]
fn zigzag_interleaves_signs() {
    assert_eq!(zigzag::zigzag_i64(0), 0);
    assert_eq!(zigzag::zigzag_i64(-1), 1);
    assert_eq!(zigzag::zigzag_i64(1), 2);
    assert_eq!(zigzag::zigzag_i64(i64::MIN), u64::MAX);
    assert_eq!(zigzag::unzigzag_u64(3), -2);
}

#[test]
fn bitpack_decodes_wide_fields_to_their_low_bits() {
    assert_eq!(bitpack::decode(&[0xff; 9], 72, 1), vec![u64::MAX]);
    let mut bytes = vec![0u8; 18];
    bytes[9] = 5;
    assert_eq!(bitpack::decode(&bytes, 72, 2), vec![0, 5]);
    assert_eq!(bitpack::decode(&[], 8, 2), vec![0, 0]);
}

#[test]
fn bitpack_wide_widths_read_through_a_128_bit_buffer() {
    let bytes: Vec<u8> = (0..40u32).map(|i| ((i * 37 + 11) % 256) as u8).collect();
    assert_eq!(
        bitpack::decode(&bytes, 126, 3),
        vec![1074606175335821323, 8711179659759714668, 16759657768614169264]
    );
    assert_eq!(
        bitpack::decode(&bytes, 127, 3),
        vec![1074606175335821323, 13578961866734633142, 13413286479008318124]
    );
    assert_eq!(
        bitpack::decode(&bytes, 123, 3),
        vec![1074606175335821323, 14349205056949062502, 2706940916152839705]
    );
}
