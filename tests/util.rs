use diffuse::{as_u32_be, as_u32_le, ascii_hex_to_bytes};

#[test]
fn big_and_little_endian() {
    assert_eq!(as_u32_be(&[0x01, 0x02, 0x03, 0x04]), 0x0102_0304);
    assert_eq!(as_u32_le(&[0x01, 0x02, 0x03, 0x04]), 0x0403_0201);
    assert_eq!(as_u32_be(&[0xff, 0xff, 0xff, 0xff]), 0xffff_ffff);
}

#[test]
fn hex_header_keeps_leading_zeros() {
    assert_eq!(ascii_hex_to_bytes(&b"01ff".to_vec()), Some(vec![0, 0, 0x01, 0xff]));
    assert_eq!(ascii_hex_to_bytes(&b"0009".to_vec()), Some(vec![0, 0, 0, 9]));
    assert_eq!(ascii_hex_to_bytes(&b"DEADbeef".to_vec()), Some(vec![0xde, 0xad, 0xbe, 0xef]));
}

#[test]
fn hex_header_rejects_bad_input() {
    assert_eq!(ascii_hex_to_bytes(&b"zz00".to_vec()), None);
    assert_eq!(ascii_hex_to_bytes(&b"123".to_vec()), None);
    assert_eq!(ascii_hex_to_bytes(&b"0102030405".to_vec()), None);
}
