use rinha::data::{
    check_labels_len, parse_vectors_header, read_dim, read_i32_le, read_i64_le, read_u32_le,
    FormatError, VEC_BYTES,
};

#[test]
fn read_dim_decodes_positive_values() {
    let bytes = [0x01, 0x02, 0x03];
    assert_eq!(read_dim(&bytes, 0), 0x030201);
}

#[test]
fn read_dim_sign_extends_negative_values() {
    let bytes = [0x00, 0xff, 0xff, 0xff, 0x00, 0x00, 0x80];
    assert_eq!(read_dim(&bytes, 1), -1);
    assert_eq!(read_dim(&bytes, 4), -0x80_0000);
}

#[test]
fn read_dim_reaches_the_scale_bounds() {
    let max = [0xff, 0xff, 0x7f];
    assert_eq!(read_dim(&max, 0), 8388607);
    let min_plus_one = [0x01, 0x00, 0x80];
    assert_eq!(read_dim(&min_plus_one, 0), -8388607);
}

#[test]
fn little_endian_readers() {
    let bytes = [0x78, 0x56, 0x34, 0x12, 0xff, 0xff, 0xff, 0xff, 0xfe, 0xff, 0xff, 0xff];
    assert_eq!(read_u32_le(&bytes, 0), 0x12345678);
    assert_eq!(read_i32_le(&bytes, 4), -1);
    assert_eq!(read_i32_le(&bytes, 8), -2);
    assert_eq!(read_i64_le(&bytes, 4), -4294967297);
    let eight = [1, 0, 0, 0, 0, 0, 0, 0x80];
    assert_eq!(read_i64_le(&eight, 0), i64::MIN + 1);
}

fn header(magic: &[u8; 4], a: u32, b: u32, c: u32) -> Vec<u8> {
    let mut h = magic.to_vec();
    h.extend_from_slice(&a.to_le_bytes());
    h.extend_from_slice(&b.to_le_bytes());
    h.extend_from_slice(&c.to_le_bytes());
    h
}

#[test]
fn vectors_header_accepted() {
    let h = header(b"VEC3", 1, 1234, 14);
    let parsed = parse_vectors_header(&h).unwrap();
    assert_eq!(parsed.count, 1234);
    assert_eq!(parsed.payload_offset, 16);
    assert_eq!(VEC_BYTES, 42);
}

#[test]
fn vectors_header_bad_magic() {
    let h = header(b"VEC2", 1, 1234, 14);
    assert_eq!(parse_vectors_header(&h).err(), Some(FormatError::BadMagic));
}

#[test]
fn vectors_header_bad_version_or_dims() {
    let h = header(b"VEC3", 2, 1234, 14);
    assert_eq!(parse_vectors_header(&h).err(), Some(FormatError::VersionOrDims));
    let h = header(b"VEC3", 1, 1234, 16);
    assert_eq!(parse_vectors_header(&h).err(), Some(FormatError::VersionOrDims));
}

#[test]
fn labels_length_must_match_count() {
    assert!(check_labels_len(10, 10).is_ok());
    assert_eq!(check_labels_len(9, 10).err(), Some(FormatError::LabelsSize));
    assert_eq!(check_labels_len(11, 10).err(), Some(FormatError::LabelsSize));
}
