use rustii::title::content::ContentRegion;
use rustii::title::ticket::Ticket;
use rustii::title::tmd::{ContentRecord, ContentType, TMDError, TMD};
use rustii::title::wad::{WADBody, WADError, WADHeader, WADType, WAD};

fn wad_pad64(b: &mut Vec<u8>) {
    while b.len() % 64 != 0 {
        b.push(0);
    }
}

fn wad_tmd_bytes(title_id: [u8; 8], records: &[ContentRecord]) -> Vec<u8> {
    let mut b = vec![0u8; 484];
    b[3] = 1;
    for i in 4..260 {
        b[i] = (i % 200) as u8 + 1;
    }
    b[320..346].copy_from_slice(b"Root-CA00000001-CP00000004");
    b[396..404].copy_from_slice(&title_id);
    b[478..480].copy_from_slice(&(records.len() as u16).to_be_bytes());
    for r in records {
        b.extend_from_slice(&r.content_id.to_be_bytes());
        b.extend_from_slice(&r.index.to_be_bytes());
        b.extend_from_slice(&r.content_type.code().to_be_bytes());
        b.extend_from_slice(&r.content_size.to_be_bytes());
        b.extend_from_slice(&r.content_hash);
    }
    b
}

fn wad_ticket_bytes() -> Vec<u8> {
    let mut b = vec![0u8; 676];
    b[3] = 1;
    for i in 4..260 {
        b[i] = 0x80;
    }
    b[320..346].copy_from_slice(b"Root-CA00000001-XS00000003");
    for i in 447..463 {
        b[i] = i as u8;
    }
    b[476..484].copy_from_slice(&[0, 1, 0, 1, b'T', b'E', b'S', b'T']);
    b
}

fn wad_records() -> Vec<ContentRecord> {
    vec![
        ContentRecord { content_id: 1, index: 0, content_type: ContentType::Normal, content_size: 30, content_hash: [1; 20] },
        ContentRecord { content_id: 2, index: 1, content_type: ContentType::Shared, content_size: 16, content_hash: [2; 20] },
    ]
}

/// A WAD laid out by hand: header, then the six regions at 64-byte offsets.
fn wad_sample(tag: &[u8; 2]) -> (Vec<u8>, [Vec<u8>; 6]) {
    let cert = vec![0xC1u8; 100];
    let crl = Vec::new();
    let ticket = wad_ticket_bytes();
    let tmd = wad_tmd_bytes([0, 1, 0, 1, b'T', b'E', b'S', b'T'], &wad_records());
    let mut content = vec![0xD1u8; 32];
    content.extend_from_slice(&[0; 32]);
    content.extend_from_slice(&[0xD2; 16]);
    let meta = vec![0xE1u8; 10];
    let mut b = Vec::new();
    b.extend_from_slice(&32u32.to_be_bytes());
    b.extend_from_slice(tag);
    b.extend_from_slice(&0u16.to_be_bytes());
    for part in [&cert, &crl, &ticket, &tmd, &content, &meta] {
        b.extend_from_slice(&(part.len() as u32).to_be_bytes());
    }
    b.extend_from_slice(&[0u8; 32]);
    for part in [&cert, &crl, &ticket, &tmd, &content, &meta] {
        b.extend_from_slice(part);
        wad_pad64(&mut b);
    }
    (b, [cert, crl, ticket, tmd, content, meta])
}

#[test]
fn wad_regions_are_read_at_64_byte_offsets() {
    let (bytes, parts) = wad_sample(b"Is");
    let wad = WAD::from_bytes(&bytes).unwrap();
    assert_eq!(wad.header.header_size, 32);
    assert_eq!(wad.header.wad_type, WADType::Installable);
    assert_eq!(wad.header.wad_version, 0);
    assert_eq!(wad.header.padding, [0; 32]);
    assert_eq!(wad.cert_chain(), parts[0]);
    assert_eq!(wad.crl(), parts[1]);
    assert_eq!(wad.ticket(), parts[2]);
    assert_eq!(wad.tmd(), parts[3]);
    assert_eq!(wad.content(), parts[4]);
    assert_eq!(wad.meta(), parts[5]);
    assert_eq!(wad.cert_chain_size(), 100);
    assert_eq!(wad.crl_size(), 0);
    assert_eq!(wad.ticket_size(), 676);
    assert_eq!(wad.tmd_size(), 484 + 72);
    assert_eq!(wad.content_size(), 80);
    assert_eq!(wad.meta_size(), 10);
}

#[test]
fn wad_round_trip_is_byte_exact() {
    let (bytes, _) = wad_sample(b"Is");
    assert_eq!(bytes.len() % 64, 0);
    let wad = WAD::from_bytes(&bytes).unwrap();
    assert_eq!(wad.to_bytes(), bytes);
    let (bytes, _) = wad_sample(b"ib");
    let wad = WAD::from_bytes(&bytes).unwrap();
    assert_eq!(wad.header.wad_type, WADType::ImportBoot);
    assert_eq!(wad.to_bytes(), bytes);
}

#[test]
fn wad_content_size_counts_whole_blocks() {
    let (mut bytes, parts) = wad_sample(b"Is");
    // 75 bytes of content are read as 80.
    bytes[24..28].copy_from_slice(&75u32.to_be_bytes());
    let wad = WAD::from_bytes(&bytes).unwrap();
    assert_eq!(wad.content_size(), 80);
    assert_eq!(wad.content(), parts[4]);
    assert_eq!(wad.meta(), parts[5]);
}

#[test]
fn wad_refuses_unknown_types() {
    let (bytes, _) = wad_sample(b"Ib");
    assert_eq!(WAD::from_bytes(&bytes).err(), Some(WADError::BadType));
    let (bytes, _) = wad_sample(b"is");
    assert_eq!(WAD::from_bytes(&bytes).err(), Some(WADError::BadType));
    let (bytes, _) = wad_sample(&[0xFF, 0xFE]);
    assert_eq!(WAD::from_bytes(&bytes).err(), Some(WADError::BadType));
    // The type is looked at as soon as it is there.
    assert_eq!(WAD::from_bytes(&bytes[..6]).err(), Some(WADError::BadType));
}

#[test]
fn wad_refuses_truncated_data() {
    let (bytes, _) = wad_sample(b"Is");
    assert_eq!(WAD::from_bytes(&[]).err(), Some(WADError::IOError));
    assert_eq!(WAD::from_bytes(&bytes[..5]).err(), Some(WADError::IOError));
    assert_eq!(WAD::from_bytes(&bytes[..6]).err(), Some(WADError::IOError));
    assert_eq!(WAD::from_bytes(&bytes[..63]).err(), Some(WADError::IOError));
    assert_eq!(WAD::from_bytes(&bytes[..64]).err(), Some(WADError::IOError));
    assert_eq!(WAD::from_bytes(&bytes[..200]).err(), Some(WADError::IOError));
    // The padding after the last region need not be there.
    let end = bytes.len() - 54;
    assert_eq!(WAD::from_bytes(&bytes[..end - 1]).err(), Some(WADError::IOError));
    let wad = WAD::from_bytes(&bytes[..end]).unwrap();
    assert_eq!(wad.to_bytes(), bytes);
    // A content size that 32 bits do not hold once counted up.
    let mut huge = bytes.clone();
    huge[24..28].copy_from_slice(&0xFFFF_FFF1u32.to_be_bytes());
    assert_eq!(WAD::from_bytes(&huge).err(), Some(WADError::IOError));
}

#[test]
fn wad_without_regions() {
    let mut bytes = vec![0u8; 64];
    bytes[3] = 0x20;
    bytes[4] = b'I';
    bytes[5] = b's';
    let wad = WAD::from_bytes(&bytes).unwrap();
    assert_eq!(wad.cert_chain(), Vec::<u8>::new());
    assert_eq!(wad.meta(), Vec::<u8>::new());
    assert_eq!(wad.to_bytes(), bytes);
}

#[test]
fn wad_setters_keep_header_and_regions_together() {
    let (bytes, parts) = wad_sample(b"Is");
    let mut wad = WAD::from_bytes(&bytes).unwrap();
    wad.set_cert_chain(&[1, 2, 3]);
    wad.set_crl(&[4; 7]);
    wad.set_ticket(&[5; 9]);
    wad.set_tmd(&[6; 11]);
    wad.set_content(&[7; 13]);
    wad.set_meta(&[]);
    assert_eq!((wad.cert_chain_size(), wad.cert_chain()), (3, vec![1, 2, 3]));
    assert_eq!((wad.crl_size(), wad.crl()), (7, vec![4; 7]));
    assert_eq!((wad.ticket_size(), wad.ticket()), (9, vec![5; 9]));
    assert_eq!((wad.tmd_size(), wad.tmd()), (11, vec![6; 11]));
    assert_eq!((wad.content_size(), wad.content()), (13, vec![7; 13]));
    assert_eq!((wad.meta_size(), wad.meta()), (0, vec![]));
    let out = wad.to_bytes();
    assert_eq!(out.len(), 64 * 6);
    assert_eq!(&out[8..12], &[0, 0, 0, 3]);
    assert_eq!(&out[28..32], &[0, 0, 0, 0]);
    assert_eq!(&out[64..67], &[1, 2, 3]);
    assert_eq!(&out[320..333], &[7; 13]);
    wad.set_meta(&parts[5]);
    assert_eq!(wad.meta_size(), 10);
}

#[test]
fn wad_from_parts_measures_the_parts() {
    let records = wad_records();
    let ticket = Ticket::from_bytes(&wad_ticket_bytes()).unwrap();
    let tmd = TMD::from_bytes(&wad_tmd_bytes([0, 1, 0, 1, b'T', b'E', b'S', b'T'], &records)).unwrap();
    let mut content = ContentRegion::new(records.clone()).unwrap();
    content.load_enc_content(&[0xD1; 32], 0).unwrap();
    content.load_enc_content(&[0xD2; 16], 1).unwrap();
    let wad = WAD::from_parts(&[0xC1; 100], &[], &ticket, &tmd, &content, &[0xE1; 10]).unwrap();
    assert_eq!(wad.header.header_size, 32);
    assert_eq!(wad.header.wad_type, WADType::Installable);
    assert_eq!(wad.header.wad_version, 0);
    assert_eq!(wad.cert_chain_size(), 100);
    assert_eq!(wad.crl_size(), 0);
    assert_eq!(wad.ticket_size(), 676);
    assert_eq!(wad.tmd_size(), 556);
    assert_eq!(wad.content_size(), 128);
    assert_eq!(wad.meta_size(), 10);
    assert_eq!(wad.ticket(), wad_ticket_bytes());
    assert_eq!(wad.content(), content.to_bytes());
    // Written and read again it is the same WAD.
    let bytes = wad.to_bytes();
    let again = WAD::from_bytes(&bytes).unwrap();
    assert_eq!(again.to_bytes(), bytes);
    assert_eq!(again.tmd(), tmd.to_bytes());
    let body = WADBody::from_parts(&[1], &[2], &ticket, &tmd, &content, &[3]).unwrap();
    assert_eq!(body.cert_chain, vec![1]);
    assert_eq!(body.crl, vec![2]);
    assert_eq!(body.meta, vec![3]);
    assert_eq!(body.tmd, tmd.to_bytes());
}

#[test]
fn wad_of_the_boot_loader_is_tagged_ib() {
    let ticket = Ticket::from_bytes(&wad_ticket_bytes()).unwrap();
    let tmd = TMD::from_bytes(&wad_tmd_bytes([0, 0, 0, 1, 0, 0, 0, 1], &[])).unwrap();
    let content = ContentRegion::new(Vec::new()).unwrap();
    let wad = WAD::from_parts(&[], &[], &ticket, &tmd, &content, &[]).unwrap();
    assert_eq!(wad.header.wad_type, WADType::ImportBoot);
    assert_eq!(&wad.to_bytes()[4..6], b"ib");
    let tmd = TMD::from_bytes(&wad_tmd_bytes([0, 0, 0, 1, 0, 0, 0, 2], &[])).unwrap();
    let wad = WAD::from_parts(&[], &[], &ticket, &tmd, &content, &[]).unwrap();
    assert_eq!(wad.header.wad_type, WADType::Installable);
}

#[test]
fn wad_header_needs_a_tmd_in_the_body() {
    let body = WADBody { cert_chain: vec![], crl: vec![], ticket: vec![], tmd: vec![1, 2, 3], content: vec![], meta: vec![] };
    assert_eq!(WADHeader::from_body(&body).err(), Some(WADError::TMDError(TMDError::IO)));
    let mut bad = wad_tmd_bytes([0; 8], &wad_records());
    bad[484 + 7] = 9;
    let body = WADBody { cert_chain: vec![], crl: vec![], ticket: vec![], tmd: bad, content: vec![], meta: vec![] };
    assert_eq!(WADHeader::from_body(&body).err(), Some(WADError::TMDError(TMDError::InvalidContentType(9))));
}
