use rustii::codec::{
    align_up_u64, checked_align_up, contains_bytes, is_all_zero, pad_to, put_bytes,
    put_u16, put_u24, put_u32, put_u64, read_array, read_le_u24_at, read_u16_at, read_u24_at,
    read_u32_at, read_u64_at, read_vec, trimmed_length,
};

#[test]
fn reads_big_endian_integers() {
    let data = [0x00u8, 0x12, 0x34, 0x56, 0x78, 0x9A, 0xBC, 0xDE, 0xF0, 0x01];
    assert_eq!(read_u16_at(&data, 1), 0x1234);
    assert_eq!(read_u24_at(&data, 1), 0x123456);
    assert_eq!(read_u32_at(&data, 1), 0x12345678);
    assert_eq!(read_u64_at(&data, 1), 0x123456789ABCDEF0);
    assert_eq!(read_u16_at(&data, 8), 0xF001);
}

#[test]
fn reads_little_endian_24_bits() {
    let data = [0xFFu8, 0x40, 0x42, 0x0F];
    assert_eq!(read_le_u24_at(&data, 1), 1_000_000);
    assert_eq!(read_u24_at(&data, 1), 0x40420F);
}

#[test]
fn reads_arrays_and_vectors() {
    let data = [1u8, 2, 3, 4, 5, 6];
    let a: [u8; 3] = read_array::<3>(&data, 2);
    assert_eq!(a, [3, 4, 5]);
    assert_eq!(read_vec(&data, 4, 2), vec![5, 6]);
    assert_eq!(read_vec(&data, 6, 0), Vec::<u8>::new());
}

#[test]
fn writes_big_endian_integers() {
    let mut buf = vec![0xEEu8];
    put_u16(&mut buf, 0x0102);
    put_u24(&mut buf, 0x030405);
    put_u32(&mut buf, 0x06070809);
    put_u64(&mut buf, 0x0A0B0C0D0E0F1011);
    put_bytes(&mut buf, &[0x12, 0x13]);
    assert_eq!(
        buf,
        vec![
            0xEE, 0x01, 0x02, 0x03, 0x04, 0x05, 0x06, 0x07, 0x08, 0x09, 0x0A, 0x0B, 0x0C, 0x0D,
            0x0E, 0x0F, 0x10, 0x11, 0x12, 0x13
        ]
    );
}

#[test]
fn written_integers_read_back() {
    let mut buf = Vec::new();
    put_u16(&mut buf, 0xBEEF);
    put_u32(&mut buf, 0xDEADBEEF);
    put_u64(&mut buf, 0x0123456789ABCDEF);
    put_u24(&mut buf, 0xABCDEF);
    assert_eq!(read_u16_at(&buf, 0), 0xBEEF);
    assert_eq!(read_u32_at(&buf, 2), 0xDEADBEEF);
    assert_eq!(read_u64_at(&buf, 6), 0x0123456789ABCDEF);
    assert_eq!(read_u24_at(&buf, 14), 0xABCDEF);
}

#[test]
fn rounds_up_to_boundaries() {
    assert_eq!(align_up_u64(0, 64), 0);
    assert_eq!(align_up_u64(1, 64), 64);
    assert_eq!(align_up_u64(64, 64), 64);
    assert_eq!(align_up_u64(65, 64), 128);
    assert_eq!(align_up_u64(100, 16), 112);
    assert_eq!(align_up_u64(31, 32), 32);
    assert_eq!(checked_align_up(u64::MAX, 16), None);
    assert_eq!(checked_align_up(u64::MAX - 15, 16), Some(u64::MAX - 15));
    assert_eq!(checked_align_up(17, 16), Some(32));
}

#[test]
fn pads_with_zero_bytes() {
    let mut buf = vec![7u8; 5];
    pad_to(&mut buf, 8);
    assert_eq!(buf, vec![7, 7, 7, 7, 7, 0, 0, 0]);
    pad_to(&mut buf, 8);
    assert_eq!(buf.len(), 8);
    let mut empty: Vec<u8> = Vec::new();
    pad_to(&mut empty, 64);
    assert!(empty.is_empty());
}

#[test]
fn finds_byte_runs() {
    assert!(contains_bytes(b"Root-CA00000001-XS00000003", b"XS00000003"));
    assert!(contains_bytes(b"abc", b""));
    assert!(contains_bytes(b"abc", b"abc"));
    assert!(!contains_bytes(b"abc", b"abcd"));
    assert!(!contains_bytes(b"aab", b"aba"));
    assert!(contains_bytes(b"aaab", b"aab"));
}

#[test]
fn trims_trailing_zero_bytes() {
    assert_eq!(trimmed_length(&[1, 2, 0, 3, 0, 0]), 4);
    assert_eq!(trimmed_length(&[0, 0, 0]), 0);
    assert_eq!(trimmed_length(&[]), 0);
    assert_eq!(trimmed_length(&[5]), 1);
}

#[test]
fn tells_zero_runs() {
    assert!(is_all_zero(&[0u8; 256]));
    assert!(is_all_zero(&[]));
    let mut sig = [0u8; 256];
    sig[255] = 1;
    assert!(!is_all_zero(&sig));
}
