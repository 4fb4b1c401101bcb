use main_index::radix::{push_le, read_le, u64_from_be_bytes, u64_to_be_bytes};

#[test]
fn big_endian_bytes_of_a_number() {
    assert_eq!(u64_to_be_bytes(0x0102_0304_0506_0708), vec![1, 2, 3, 4, 5, 6, 7, 8]);
    assert_eq!(u64_to_be_bytes(0), vec![0; 8]);
    assert_eq!(u64_to_be_bytes(5), vec![0, 0, 0, 0, 0, 0, 0, 5]);
    assert_eq!(u64_to_be_bytes(u64::MAX), vec![255; 8]);
}

#[test]
fn big_endian_bytes_agree_with_std() {
    for n in [0u64, 1, 255, 256, 65_535, 1 << 32, (1 << 63) + 17, u64::MAX - 1, u64::MAX] {
        assert_eq!(u64_to_be_bytes(n), n.to_be_bytes().to_vec());
        assert_eq!(u64_from_be_bytes(&n.to_be_bytes()), n);
    }
}

#[test]
fn big_endian_number_of_bytes() {
    assert_eq!(u64_from_be_bytes(&[1, 2, 3, 4, 5, 6, 7, 8]), 0x0102_0304_0506_0708);
    assert_eq!(u64_from_be_bytes(&[0, 0, 0, 0, 0, 0, 1, 0]), 256);
    assert_eq!(u64_from_be_bytes(&[255; 8]), u64::MAX);
}

#[test]
fn little_endian_digits_are_appended() {
    let mut out = vec![9u8];
    push_le(&mut out, 0x0102, 2);
    assert_eq!(out, vec![9, 2, 1]);
    push_le(&mut out, 0x0A0B_0C0D, 4);
    assert_eq!(out, vec![9, 2, 1, 0x0D, 0x0C, 0x0B, 0x0A]);
    push_le(&mut out, 7, 0);
    assert_eq!(out.len(), 7);
}

#[test]
fn little_endian_keeps_the_low_digits_only() {
    let mut out = Vec::new();
    push_le(&mut out, 0x0102_0304, 2);
    assert_eq!(out, vec![4, 3]);
}

#[test]
fn little_endian_pads_with_zeros() {
    let mut out = Vec::new();
    push_le(&mut out, 1, 8);
    assert_eq!(out, vec![1, 0, 0, 0, 0, 0, 0, 0]);
    let mut wide = Vec::new();
    push_le(&mut wide, u64::MAX, 10);
    assert_eq!(wide, vec![255, 255, 255, 255, 255, 255, 255, 255, 0, 0]);
}

#[test]
fn little_endian_number_is_read_at_an_offset() {
    let bytes = [7u8, 1, 2, 0, 0, 0, 0, 0, 0, 9];
    assert_eq!(read_le(&bytes, 1, 2), 0x0201);
    assert_eq!(read_le(&bytes, 1, 8), 0x0201);
    assert_eq!(read_le(&bytes, 0, 1), 7);
    assert_eq!(read_le(&bytes, 9, 1), 9);
    assert_eq!(read_le(&bytes, 3, 0), 0);
}

#[test]
fn little_endian_agrees_with_std() {
    for n in [0u64, 1, 255, 256, 1 << 40, u64::MAX] {
        let mut out = Vec::new();
        push_le(&mut out, n, 8);
        assert_eq!(out, n.to_le_bytes().to_vec());
        assert_eq!(read_le(&out, 0, 8), n);
    }
}
