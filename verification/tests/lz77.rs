use rustii::archive::lz77::{decompress_lz77, LZ77Error};

/// A decoder written byte by byte, to hold the library's result against.
fn lz77_reference(data: &[u8], start: usize) -> Vec<u8> {
    let size = data[start + 1] as usize
        | (data[start + 2] as usize) << 8
        | (data[start + 3] as usize) << 16;
    let mut out = Vec::new();
    let mut ip = start + 4;
    while out.len() < size {
        let flag = data[ip];
        ip += 1;
        for bit in (0..8).rev() {
            if out.len() >= size {
                break;
            }
            if flag & (1 << bit) != 0 {
                let reference = (data[ip] as usize) << 8 | data[ip + 1] as usize;
                ip += 2;
                let length = 3 + (reference >> 12);
                let dist = (reference & 0xFFF) + 1;
                for _ in 0..length {
                    if out.len() >= size {
                        break;
                    }
                    let byte = out[out.len() - dist];
                    out.push(byte);
                }
            } else {
                out.push(data[ip]);
                ip += 1;
            }
        }
    }
    out
}

#[test]
fn decompresses_literals() {
    let data = [0x10, 0x03, 0x00, 0x00, 0x00, b'a', b'b', b'c'];
    assert_eq!(decompress_lz77(&data), Ok(b"abc".to_vec()));
}

#[test]
fn skips_the_magic() {
    let data = [b'L', b'Z', b'7', b'7', 0x10, 0x02, 0x00, 0x00, 0x00, 0x01, 0x02];
    assert_eq!(decompress_lz77(&data), Ok(vec![1, 2]));
}

#[test]
fn overlapping_reference_copies_byte_by_byte() {
    // One literal 'a', then a reference of length 6 to one byte back.
    let data = [0x10, 0x07, 0x00, 0x00, 0x40, b'a', 0x30, 0x00];
    let out = decompress_lz77(&data).unwrap();
    assert_eq!(out, b"aaaaaaa".to_vec());
    assert_eq!(out, lz77_reference(&data, 0));
    // Two literals, then a reference of length 5 to two bytes back.
    let data = [0x10, 0x07, 0x00, 0x00, 0x20, b'x', b'y', 0x20, 0x01];
    let out = decompress_lz77(&data).unwrap();
    assert_eq!(out, b"xyxyxyx".to_vec());
    assert_eq!(out, lz77_reference(&data, 0));
}

#[test]
fn stops_at_the_declared_size() {
    // The reference could give 18 bytes; the size allows 4 in all.
    let data = [0x10, 0x04, 0x00, 0x00, 0x40, b'z', 0xF0, 0x00];
    assert_eq!(decompress_lz77(&data), Ok(b"zzzz".to_vec()));
    // The flag byte announces eight tokens; two are there and two are needed.
    let data = [0x10, 0x02, 0x00, 0x00, 0x00, 0x05, 0x06];
    assert_eq!(decompress_lz77(&data), Ok(vec![5, 6]));
    // Bytes after the last token that is needed are not looked at.
    let data = [0x10, 0x01, 0x00, 0x00, 0x7F, 0x09, 0xFF, 0xFF, 0xFF];
    assert_eq!(decompress_lz77(&data), Ok(vec![9]));
}

#[test]
fn empty_output_needs_no_tokens() {
    let data = [0x10, 0x00, 0x00, 0x00];
    assert_eq!(decompress_lz77(&data), Ok(Vec::new()));
}

#[test]
fn size_is_little_endian() {
    let mut data = vec![0x10, 0x00, 0x01, 0x00];
    for _ in 0..32 {
        data.push(0x00);
        data.extend_from_slice(&[0xAB; 8]);
    }
    let out = decompress_lz77(&data).unwrap();
    assert_eq!(out.len(), 256);
    assert!(out.iter().all(|b| *b == 0xAB));
}

#[test]
fn refuses_other_compression_types() {
    let data = [0x11, 0x01, 0x00, 0x00, 0x00, 0x01];
    assert_eq!(decompress_lz77(&data), Err(LZ77Error::InvalidCompressionType(0x11)));
    let data = [b'L', b'Z', b'7', b'7', 0x40, 0x01, 0x00, 0x00, 0x00, 0x01];
    assert_eq!(decompress_lz77(&data), Err(LZ77Error::InvalidCompressionType(0x40)));
}

#[test]
fn refuses_truncated_data() {
    assert_eq!(decompress_lz77(&[]), Err(LZ77Error::IO));
    assert_eq!(decompress_lz77(&[0x10, 0x01, 0x00]), Err(LZ77Error::IO));
    assert_eq!(decompress_lz77(b"LZ77"), Err(LZ77Error::IO));
    assert_eq!(decompress_lz77(&[0x10, 0x01, 0x00, 0x00]), Err(LZ77Error::IO));
    assert_eq!(decompress_lz77(&[0x10, 0x02, 0x00, 0x00, 0x00, 0x01]), Err(LZ77Error::IO));
    assert_eq!(decompress_lz77(&[0x10, 0x05, 0x00, 0x00, 0x40, 0x01, 0x10]), Err(LZ77Error::IO));
}

#[test]
fn refuses_a_reference_before_the_beginning() {
    let data = [0x10, 0x05, 0x00, 0x00, 0x80, 0x00, 0x00];
    assert_eq!(decompress_lz77(&data), Err(LZ77Error::IO));
    let data = [0x10, 0x05, 0x00, 0x00, 0x40, b'a', 0x00, 0x01];
    assert_eq!(decompress_lz77(&data), Err(LZ77Error::IO));
}
