use kronos::codec::{checksum, push_bytes, push_u64, read_u64};

#[test]
fn u64_fields_roundtrip_in_little_endian() {
    let mut out: Vec<u8> = Vec::new();
    push_u64(&mut out, 0x0102030405060708);
    assert_eq!(out, vec![8, 7, 6, 5, 4, 3, 2, 1]);
    assert_eq!(read_u64(&out, 0), 0x0102030405060708);
    push_u64(&mut out, u64::MAX);
    assert_eq!(read_u64(&out, 8), u64::MAX);
}

#[test]
fn push_bytes_appends_verbatim() {
    let mut out: Vec<u8> = vec![1, 2];
    push_bytes(&mut out, &[3, 4, 5]);
    assert_eq!(out, vec![1, 2, 3, 4, 5]);
}

#[test]
fn checksum_is_the_wrapping_byte_sum() {
    assert_eq!(checksum(&vec![]), 0);
    assert_eq!(checksum(&vec![1, 2, 3]), 6);
    assert_eq!(checksum(&vec![255, 255]), 510);
}
