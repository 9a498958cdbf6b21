use logkv::format::{
    decode_header, decode_kv, encode_header, encode_kv, DecodeError, KeyEntry, DEFAULT_WHENCE,
    HEADER_SIZE,
};

#[test]
fn test_encode_header() {
    let tests = vec![(10, 10, 10), (0, 0, 0), (10000, 10000, 10000)];

    for (timestamp, key_size, value_size) in tests {
        let data = encode_header(timestamp, key_size, value_size);
        let (decoded_timestamp, decoded_key_size, decoded_value_size) = decode_header(&data);

        assert_eq!(decoded_timestamp, timestamp, "timestamp mismatch");
        assert_eq!(decoded_key_size, key_size, "key_size mismatch");
        assert_eq!(decoded_value_size, value_size, "value_size mismatch");
    }
}

#[test]
fn test_encode_kv() {
    let tests = vec![
        (10, "hello", "world", HEADER_SIZE + 10),
        (0, "", "", HEADER_SIZE),
        (100, "\u{1f511}", "", HEADER_SIZE + 4),
        (100, "ðŸ”‘", "", HEADER_SIZE + 10),
    ];

    for (timestamp, key, value, expected_size) in tests {
        let (size, data) = encode_kv(timestamp, key.into(), value.into());
        let (decoded_timestamp, decoded_key, decoded_value) = decode_kv(&data).unwrap();

        assert_eq!(decoded_timestamp, timestamp, "timestamp mismatch");
        assert_eq!(decoded_key, key, "key mismatch");
        assert_eq!(decoded_value, value, "value mismatch");
        assert_eq!(size, expected_size, "size mismatch");
    }
}

#[test]
fn offsets_count_from_the_start_of_the_log() {
    assert_eq!(DEFAULT_WHENCE, 0);
}

#[test]
fn header_is_twelve_bytes() {
    assert_eq!(HEADER_SIZE, 12);
    assert_eq!(encode_header(7, 8, 9).len(), 12);
}

#[test]
fn header_bytes_are_little_endian() {
    let header = encode_header(0x0403_0201, 0x0000_0100, 0xffff_ffff);
    assert_eq!(header, [1, 2, 3, 4, 0, 1, 0, 0, 255, 255, 255, 255]);
}

#[test]
fn header_decodes_little_endian() {
    let fields = decode_header(&[0x78, 0x56, 0x34, 0x12, 5, 0, 0, 0, 0, 0, 1, 0]);
    assert_eq!(fields, (0x1234_5678, 5, 0x0001_0000));
}

#[test]
fn header_round_trips_at_the_bounds() {
    let header = encode_header(u32::MAX, 0, u32::MAX);
    assert_eq!(decode_header(&header), (u32::MAX, 0, u32::MAX));
}

#[test]
fn decode_header_reads_only_the_first_twelve_bytes() {
    let mut bytes = encode_header(1, 2, 3).to_vec();
    bytes.extend_from_slice(b"trailing");
    assert_eq!(decode_header(&bytes), (1, 2, 3));
}

#[test]
fn record_layout_is_header_key_value() {
    let (size, data) = encode_kv(1, String::from("ab"), String::from("xyz"));
    assert_eq!(size, 17);
    assert_eq!(
        data,
        vec![1, 0, 0, 0, 2, 0, 0, 0, 3, 0, 0, 0, b'a', b'b', b'x', b'y', b'z']
    );
}

#[test]
fn record_size_counts_bytes_not_characters() {
    let (size, data) = encode_kv(3, String::from("é"), String::from("日本"));
    assert_eq!(size, HEADER_SIZE + 2 + 6);
    assert_eq!(data.len(), size);
    assert_eq!(&data[4..8], &[2, 0, 0, 0]);
    assert_eq!(&data[8..12], &[6, 0, 0, 0]);
}

#[test]
fn round_trip_of_text_with_delimiters() {
    let key = String::from("a key\nwith\0odd bytes,");
    let value = String::from("value = \"quoted\"\r\n");
    let (size, data) = encode_kv(4_000_000_000, key.clone(), value.clone());
    assert_eq!(size, HEADER_SIZE + key.len() + value.len());
    assert_eq!(decode_kv(&data), Ok((4_000_000_000, key, value)));
}

#[test]
fn decode_ignores_bytes_behind_the_record() {
    let (_, mut data) = encode_kv(9, String::from("k"), String::from("v"));
    data.extend_from_slice(&[0xff, 0xfe, 0xfd]);
    assert_eq!(
        decode_kv(&data),
        Ok((9, String::from("k"), String::from("v")))
    );
}

#[test]
fn decode_of_an_empty_buffer_is_truncated() {
    assert_eq!(decode_kv(&[]), Err(DecodeError::Truncated));
}

#[test]
fn decode_of_a_short_header_is_truncated() {
    let (_, data) = encode_kv(9, String::from("key"), String::from("value"));
    assert_eq!(decode_kv(&data[..11]), Err(DecodeError::Truncated));
}

#[test]
fn decode_of_a_short_body_is_truncated() {
    let (size, data) = encode_kv(9, String::from("key"), String::from("value"));
    assert_eq!(decode_kv(&data[..12]), Err(DecodeError::Truncated));
    assert_eq!(decode_kv(&data[..size - 1]), Err(DecodeError::Truncated));
    assert!(decode_kv(&data[..size]).is_ok());
}

#[test]
fn decode_with_huge_announced_lengths_is_truncated() {
    let mut data = encode_header(0, u32::MAX, u32::MAX).to_vec();
    data.extend_from_slice(b"short");
    assert_eq!(decode_kv(&data), Err(DecodeError::Truncated));
}

#[test]
fn decode_rejects_a_key_that_is_not_text() {
    let mut data = encode_header(1, 2, 1).to_vec();
    data.extend_from_slice(&[0xc3, 0x28, b'v']);
    assert_eq!(decode_kv(&data), Err(DecodeError::InvalidKey));
}

#[test]
fn decode_rejects_a_value_that_is_not_text() {
    let mut data = encode_header(1, 1, 2).to_vec();
    data.extend_from_slice(&[b'k', 0xff, 0xfe]);
    assert_eq!(decode_kv(&data), Err(DecodeError::InvalidValue));
}

#[test]
fn decode_reports_the_key_before_the_value() {
    let mut data = encode_header(1, 1, 1).to_vec();
    data.extend_from_slice(&[0x80, 0x80]);
    assert_eq!(decode_kv(&data), Err(DecodeError::InvalidKey));
}

#[test]
fn decode_rejects_text_cut_inside_a_character() {
    let mut data = encode_header(1, 3, 0).to_vec();
    data.extend_from_slice(&"\u{1f511}".as_bytes()[..3]);
    assert_eq!(decode_kv(&data), Err(DecodeError::InvalidKey));
}

#[test]
fn decode_returns_the_text_that_the_bytes_encode() {
    let mut data = encode_header(5, 2, 4).to_vec();
    data.extend_from_slice(&[0xc3, 0xa9, 0xf0, 0x9f, 0x94, 0x91]);
    assert_eq!(
        decode_kv(&data),
        Ok((5, String::from("é"), String::from("\u{1f511}")))
    );
}

#[test]
fn key_entry_keeps_its_fields() {
    let entry = KeyEntry::new(3, 1 << 40, 99);
    assert_eq!(entry.timestamp, 3);
    assert_eq!(entry.pos, 1 << 40);
    assert_eq!(entry.total_size, 99);
    assert_eq!(entry, KeyEntry { timestamp: 3, pos: 1 << 40, total_size: 99 });
}
