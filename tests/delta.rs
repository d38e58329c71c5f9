use diffuse::apply_delta;

#[test]
fn copy_then_insert() {
    let base = b"abcdefgh".to_vec();
    // sizes 8 and 7, copy offset 2 size 4, insert "XYZ"
    let delta: Vec<u8> = vec![8, 7, 0x91, 2, 4, 3, b'X', b'Y', b'Z'];
    let out = apply_delta(Some(&base[..]), &delta[..]).unwrap();
    assert_eq!(out, b"cdefXYZ".to_vec());
}

#[test]
fn missing_base_keeps_only_inserted_bytes() {
    let delta: Vec<u8> = vec![8, 7, 0x91, 2, 4, 3, b'X', b'Y', b'Z'];
    assert_eq!(apply_delta(None, &delta[..]), Some(b"XYZ".to_vec()));
}

#[test]
fn copy_without_size_bytes_takes_0x10000() {
    let base: Vec<u8> = (0..0x10010u32).map(|i| (i % 251) as u8).collect();
    let delta: Vec<u8> = vec![0x90, 0x80, 0x04, 0x80, 0x80, 0x04, 0x81, 0x10];
    let out = apply_delta(Some(&base[..]), &delta[..]).unwrap();
    assert_eq!(out.len(), 0x10000);
    assert_eq!(out[..], base[0x10..0x10010]);
}

#[test]
fn copy_outside_base_or_cut_short_is_rejected() {
    let base = b"abc".to_vec();
    assert_eq!(apply_delta(Some(&base[..]), &[3, 3, 0x91, 2, 4][..]), None);
    assert_eq!(apply_delta(Some(&base[..]), &[3, 3, 5, b'a'][..]), None);
    assert_eq!(apply_delta(Some(&base[..]), &[3, 3, 0x91, 2][..]), None);
    assert_eq!(apply_delta(Some(&base[..]), &[3][..]), None);
}

#[test]
fn empty_instruction_list_gives_empty_output() {
    let base = b"abc".to_vec();
    assert_eq!(apply_delta(Some(&base[..]), &[3, 0][..]), Some(Vec::new()));
}

#[test]
fn advisory_sizes_past_32_bits_do_not_matter() {
    let base = b"abcdefgh".to_vec();
    let delta: Vec<u8> = vec![
        0xFF, 0xFF, 0xFF, 0xFF, 0x7F, 0xFF, 0xFF, 0xFF, 0xFF, 0xFF, 0xFF, 0xFF, 0xFF, 0xFF, 0x01,
        0x91, 2, 4, 3, b'X', b'Y', b'Z',
    ];
    assert_eq!(apply_delta(Some(&base[..]), &delta[..]), Some(b"cdefXYZ".to_vec()));
}
