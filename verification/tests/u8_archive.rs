use rustii::archive::u8::{U8Archive, U8Error, U8Node};

fn u8_node(kind: u8, name: u32, data: u32, size: u32) -> Vec<u8> {
    let mut b = vec![kind];
    b.extend_from_slice(&name.to_be_bytes()[1..]);
    b.extend_from_slice(&data.to_be_bytes());
    b.extend_from_slice(&size.to_be_bytes());
    b
}

/// An archive laid out as one is written: a root, a directory `dir` with the
/// file `a.bin` in it, and the file `b` beside it.
fn u8_sample() -> Vec<u8> {
    let names = b"\0dir\0a.bin\0b\0";
    let header_size = 4 * 12 + names.len() as u32;
    let data_offset = (32 + header_size + 63) & !63;
    let mut b = vec![0x55, 0xAA, 0x38, 0x2D];
    b.extend_from_slice(&0x20u32.to_be_bytes());
    b.extend_from_slice(&header_size.to_be_bytes());
    b.extend_from_slice(&data_offset.to_be_bytes());
    b.extend_from_slice(&[0; 16]);
    b.extend_from_slice(&u8_node(1, 0, 0, 4));
    b.extend_from_slice(&u8_node(1, 1, 0, 3));
    b.extend_from_slice(&u8_node(0, 5, data_offset, 40));
    b.extend_from_slice(&u8_node(0, 11, data_offset + 64, 3));
    b.extend_from_slice(names);
    while b.len() % 64 != 0 {
        b.push(0);
    }
    assert_eq!(b.len() as u32, data_offset);
    b.extend((0..40u8).map(|i| i + 100));
    while b.len() % 32 != 0 {
        b.push(0);
    }
    b.extend_from_slice(&[7, 8, 9]);
    while b.len() % 32 != 0 {
        b.push(0);
    }
    b
}

#[test]
fn u8_nodes_names_and_data_are_read() {
    let archive = U8Archive::from_bytes(&u8_sample()).unwrap();
    assert_eq!(archive.root_node_offset, 0x20);
    assert_eq!(archive.header_size, 48 + 13);
    assert_eq!(archive.data_offset, 128);
    assert_eq!(archive.padding, [0; 16]);
    assert_eq!(archive.u8_nodes.len(), 4);
    assert_eq!(archive.u8_nodes[0], U8Node { node_type: 1, name_offset: 0, data_offset: 0, size: 4 });
    assert_eq!(archive.u8_nodes[2], U8Node { node_type: 0, name_offset: 5, data_offset: 128, size: 40 });
    assert_eq!(archive.file_names, vec![b"".to_vec(), b"dir".to_vec(), b"a.bin".to_vec(), b"b".to_vec()]);
    assert_eq!(archive.file_data[0], Vec::<u8>::new());
    assert_eq!(archive.file_data[1], Vec::<u8>::new());
    assert_eq!(archive.file_data[2], (100..140u8).collect::<Vec<u8>>());
    assert_eq!(archive.file_data[3], vec![7, 8, 9]);
}

#[test]
fn u8_round_trip_is_byte_exact() {
    let bytes = u8_sample();
    let archive = U8Archive::from_bytes(&bytes).unwrap();
    assert_eq!(archive.to_bytes(), Ok(bytes));
}

#[test]
fn u8_is_laid_out_anew_when_written() {
    // The same archive with its file data in the other order and a gap.
    let mut bytes = u8_sample();
    bytes.truncate(128);
    bytes.extend_from_slice(&[0xEE; 32]);
    bytes.extend_from_slice(&[7, 8, 9]);
    bytes.extend_from_slice(&[0xEE; 29]);
    bytes.extend((0..40u8).map(|i| i + 100));
    bytes[32 + 24 + 4..32 + 24 + 8].copy_from_slice(&192u32.to_be_bytes());
    bytes[32 + 36 + 4..32 + 36 + 8].copy_from_slice(&160u32.to_be_bytes());
    bytes[4..8].copy_from_slice(&0x1234u32.to_be_bytes());
    let archive = U8Archive::from_bytes(&bytes).unwrap();
    assert_eq!(archive.file_data[2], (100..140u8).collect::<Vec<u8>>());
    assert_eq!(archive.file_data[3], vec![7, 8, 9]);
    assert_eq!(archive.to_bytes(), Ok(u8_sample()));
}

#[test]
fn u8_behind_an_imet_header() {
    let inner = u8_sample();
    for at in [0x40usize, 0x80] {
        let mut bytes = vec![0u8; 0x600];
        bytes[at..at + 4].copy_from_slice(b"IMET");
        // The file data is addressed from the beginning of the whole data.
        let mut shifted = inner.clone();
        shifted[32 + 24 + 4..32 + 24 + 8].copy_from_slice(&(0x600u32 + 128).to_be_bytes());
        shifted[32 + 36 + 4..32 + 36 + 8].copy_from_slice(&(0x600u32 + 192).to_be_bytes());
        bytes.extend_from_slice(&shifted);
        let archive = U8Archive::from_bytes(&bytes).unwrap();
        assert_eq!(archive.file_names[2], b"a.bin".to_vec());
        assert_eq!(archive.file_data[3], vec![7, 8, 9]);
        assert_eq!(archive.to_bytes(), Ok(inner.clone()));
    }
}

#[test]
fn u8_refuses_what_is_no_archive() {
    assert_eq!(U8Archive::from_bytes(&[0u8; 0x700]).err(), Some(U8Error::NotU8Data));
    assert_eq!(U8Archive::from_bytes(&[0u8; 0x84]).err(), Some(U8Error::NotU8Data));
    let mut bytes = vec![0u8; 0x700];
    bytes[0x40..0x44].copy_from_slice(b"IMET");
    assert_eq!(U8Archive::from_bytes(&bytes).err(), Some(U8Error::NotU8Data));
    let mut bytes = vec![0u8; 0x700];
    bytes[0x80..0x84].copy_from_slice(b"IMET");
    assert_eq!(U8Archive::from_bytes(&bytes).err(), Some(U8Error::NotU8Data));
    let mut bytes = u8_sample();
    bytes[3] = 0x2E;
    bytes.resize(0x700, 0);
    assert_eq!(U8Archive::from_bytes(&bytes).err(), Some(U8Error::NotU8Data));
}

#[test]
fn u8_refuses_truncated_data() {
    let bytes = u8_sample();
    assert_eq!(U8Archive::from_bytes(&[]).err(), Some(U8Error::IO));
    assert_eq!(U8Archive::from_bytes(&bytes[..3]).err(), Some(U8Error::IO));
    assert_eq!(U8Archive::from_bytes(&bytes[..4]).err(), Some(U8Error::IO));
    assert_eq!(U8Archive::from_bytes(&bytes[..43]).err(), Some(U8Error::IO));
    assert_eq!(U8Archive::from_bytes(&bytes[..79]).err(), Some(U8Error::IO));
    // The table of names ends before the last name does.
    assert_eq!(U8Archive::from_bytes(&bytes[..92]).err(), Some(U8Error::IO));
    // The data of the last file is not all there.
    assert_eq!(U8Archive::from_bytes(&bytes[..194]).err(), Some(U8Error::IO));
    assert!(U8Archive::from_bytes(&bytes[..195]).is_ok());
    assert_eq!(U8Archive::from_bytes(&[1u8; 0x43]).err(), Some(U8Error::IO));
    assert_eq!(U8Archive::from_bytes(&[1u8; 0x83]).err(), Some(U8Error::IO));
    let mut imet = vec![0u8; 0x603];
    imet[0x40..0x44].copy_from_slice(b"IMET");
    assert_eq!(U8Archive::from_bytes(&imet).err(), Some(U8Error::IO));
}

#[test]
fn u8_refuses_names_that_are_no_text() {
    let mut bytes = u8_sample();
    bytes[32 + 48 + 6] = 0xFF;
    assert_eq!(U8Archive::from_bytes(&bytes).err(), Some(U8Error::InvalidFileName(32 + 48 + 5)));
}

#[test]
fn u8_root_without_a_size_stands_alone() {
    let mut b = vec![0x55, 0xAA, 0x38, 0x2D];
    b.extend_from_slice(&[0; 28]);
    b.extend_from_slice(&u8_node(1, 0, 0, 0));
    b.push(0);
    let archive = U8Archive::from_bytes(&b).unwrap();
    assert_eq!(archive.u8_nodes.len(), 1);
    assert_eq!(archive.file_names, vec![Vec::<u8>::new()]);
    let out = archive.to_bytes().unwrap();
    assert_eq!(out.len(), 64);
    assert_eq!(&out[4..8], &[0, 0, 0, 0x20]);
    assert_eq!(&out[8..12], &[0, 0, 0, 13]);
    assert_eq!(&out[12..16], &[0, 0, 0, 64]);
}

#[test]
fn u8_names_must_begin_within_24_bits() {
    let mut archive = U8Archive::from_bytes(&u8_sample()).unwrap();
    // The last name may be as long as it likes.
    archive.file_names[3] = vec![b'n'; 0x100_0000];
    let out = archive.to_bytes().unwrap();
    assert_eq!(&out[8..12], &(48u32 + 11 + 0x100_0001).to_be_bytes());
    // A name before it may not push it beyond what 24 bits address.
    archive.file_names[3] = b"b".to_vec();
    archive.file_names[0] = vec![b'n'; 0x100_0000];
    assert_eq!(archive.to_bytes(), Err(U8Error::IO));
    archive.file_names[0] = vec![b'n'; 0x100_0000 - 12];
    assert!(archive.to_bytes().is_ok());
    archive.file_names[0] = vec![b'n'; 0x100_0000 - 11];
    assert_eq!(archive.to_bytes(), Err(U8Error::IO));
}

/// root { a { x, b { y } , z }, c { }, w }
fn u8_tree() -> U8Archive {
    let names: [&[u8]; 9] = [b"", b"a", b"x", b"b", b"y", b"z", b"c", b"w", b"\xFF"];
    let kinds_sizes: [(u8, u32); 9] =
        [(1, 9), (1, 6), (0, 0), (1, 5), (0, 0), (0, 0), (1, 7), (0, 0), (0, 0)];
    let parents: [u32; 9] = [0, 0, 0, 1, 0, 0, 0, 0, 0];
    U8Archive {
        u8_nodes: (0..9)
            .map(|i| U8Node {
                node_type: kinds_sizes[i].0,
                name_offset: 0,
                data_offset: parents[i],
                size: kinds_sizes[i].1,
            })
            .collect(),
        file_names: names.iter().map(|n| n.to_vec()).collect(),
        file_data: vec![Vec::new(); 9],
        root_node_offset: 0x20,
        header_size: 0,
        data_offset: 0,
        padding: [0; 16],
    }
}

#[test]
fn u8_directories_hold_the_nodes_up_to_their_size() {
    let archive = u8_tree();
    assert_eq!(archive.node_count(), 9);
    let parents: Vec<usize> = (0..9).map(|i| archive.parent_index(i)).collect();
    assert_eq!(parents, vec![0, 0, 1, 1, 3, 1, 0, 0, 0]);
    assert!(archive.is_directory(0));
    assert!(archive.is_directory(3));
    assert!(!archive.is_directory(4));
}

#[test]
fn u8_paths_run_from_the_root_down() {
    let archive = u8_tree();
    assert_eq!(archive.path_indices(0), Vec::<usize>::new());
    assert_eq!(archive.path_indices(1), vec![1]);
    assert_eq!(archive.path_indices(4), vec![1, 3, 4]);
    assert_eq!(archive.path_indices(5), vec![1, 5]);
    assert_eq!(archive.path_indices(6), vec![6]);
    assert_eq!(archive.path_indices(7), vec![7]);
    let names: Vec<String> = archive.path_indices(4).iter().map(|i| archive.name(*i)).collect();
    assert_eq!(names.join("/"), "a/b/y");
    assert_eq!(archive.name(0), "");
    assert_eq!(archive.name(8), "\u{FFFD}");
}
