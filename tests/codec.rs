use diffuse::{read_packed_int_56le, read_variable_length_int};

#[test]
fn read_variable_length_int_test() {
    let raw_data: [u8; 2] = [210, 35];
    let mut pos: usize = 0;
    let (byte, value) = read_variable_length_int(&raw_data[..], &mut pos, 7).unwrap();
    assert_eq!(byte, 210);
    assert_eq!(value, 4562);
}

#[test]
fn varint_with_type_nibble_decodes_and_consumes_two_bytes() {
    let data: [u8; 3] = [0x9D, 0x0B, 0xFF];
    let mut pos: usize = 0;
    let r = read_variable_length_int(&data[..], &mut pos, 4);
    assert_eq!(r, Some((157, 189)));
    assert_eq!(pos, 2);
}

#[test]
fn varint_single_byte_keeps_low_bits_only() {
    let data: [u8; 1] = [0x35];
    let mut pos: usize = 0;
    assert_eq!(read_variable_length_int(&data[..], &mut pos, 4), Some((0x35, 5)));
    assert_eq!(pos, 1);
}

#[test]
fn varint_starting_mid_buffer() {
    let data: [u8; 4] = [0xAA, 0x81, 0x01, 0x00];
    let mut pos: usize = 1;
    assert_eq!(read_variable_length_int(&data[..], &mut pos, 7), Some((0x81, 129)));
    assert_eq!(pos, 3);
}

#[test]
fn varint_cut_short_is_none_and_keeps_position() {
    let data: [u8; 2] = [0x80, 0x80];
    let mut pos: usize = 0;
    assert_eq!(read_variable_length_int(&data[..], &mut pos, 7), None);
    assert_eq!(pos, 0);
    let empty: [u8; 0] = [];
    assert_eq!(read_variable_length_int(&empty[..], &mut pos, 4), None);
}

#[test]
fn varint_values_past_32_bits_are_exact() {
    let max32: [u8; 5] = [0x8F, 0xFF, 0xFF, 0xFF, 0x7F];
    let mut pos: usize = 0;
    assert_eq!(read_variable_length_int(&max32[..], &mut pos, 4), Some((0x8F, 0xffff_ffff)));
    assert_eq!(pos, 5);
    let two_pow_32: [u8; 6] = [0x80, 0x80, 0x80, 0x80, 0x80, 0x01];
    let mut pos2: usize = 0;
    assert_eq!(
        read_variable_length_int(&two_pow_32[..], &mut pos2, 4),
        Some((0x80, 0x1_0000_0000))
    );
    assert_eq!(pos2, 6);
    let five: [u8; 6] = [0xFF, 0xFF, 0xFF, 0xFF, 0x7F, 0x55];
    let mut pos3: usize = 0;
    assert_eq!(
        read_variable_length_int(&five[..], &mut pos3, 7),
        Some((0xFF, (1u64 << 35) - 1))
    );
    assert_eq!(pos3, 5);
}

#[test]
fn varint_beyond_64_bits_saturates_and_consumes_all() {
    let mut data: Vec<u8> = vec![0xFF; 10];
    data.push(0x01);
    data.push(0x33);
    let mut pos: usize = 0;
    assert_eq!(read_variable_length_int(&data[..], &mut pos, 7), Some((0xFF, u64::MAX)));
    assert_eq!(pos, 11);
}

#[test]
fn varint_zero_groups_past_32_bits_are_accepted() {
    let data: [u8; 7] = [0x81, 0x80, 0x80, 0x80, 0x80, 0x80, 0x00];
    let mut pos: usize = 0;
    assert_eq!(read_variable_length_int(&data[..], &mut pos, 4), Some((0x81, 1)));
    assert_eq!(pos, 7);
}

#[test]
fn packed_int_reads_flagged_bytes() {
    let data: [u8; 2] = [0x02, 0x04];
    let mut pos: usize = 0;
    let v = read_packed_int_56le(&data[..], &mut pos, 0x91).unwrap();
    assert_eq!(v & 0xffff_ffff, 2);
    assert_eq!(v >> 32, 4);
    assert_eq!(pos, 2);
}

#[test]
fn packed_int_all_flags() {
    let data: [u8; 7] = [1, 2, 3, 4, 5, 6, 7];
    let mut pos: usize = 0;
    let v = read_packed_int_56le(&data[..], &mut pos, 0xFF).unwrap();
    assert_eq!(v, 0x0007_0605_0403_0201);
    assert_eq!(pos, 7);
}

#[test]
fn packed_int_cut_short() {
    let data: [u8; 1] = [9];
    let mut pos: usize = 0;
    assert_eq!(read_packed_int_56le(&data[..], &mut pos, 0x03), None);
    assert_eq!(pos, 0);
    assert_eq!(read_packed_int_56le(&data[..], &mut pos, 0x80), Some(0));
    assert_eq!(pos, 0);
}
