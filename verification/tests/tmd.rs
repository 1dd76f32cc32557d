use rustii::title::tmd::{AccessRight, ContentRecord, ContentType, TMDError, TitleType, TMD};
use sha1::{Digest, Sha1};

/// The bytes of a TMD, every field with a value of its own.
fn tmd_bytes(records: &[(u32, u16, u16, u64, [u8; 20])]) -> Vec<u8> {
    let mut b = Vec::new();
    b.extend_from_slice(&0x00010001u32.to_be_bytes());
    b.extend((0..256).map(|i| (i % 251 + 1) as u8));
    b.extend_from_slice(&[0xAA; 60]);
    let mut issuer = [0u8; 64];
    issuer[..26].copy_from_slice(b"Root-CA00000001-CP00000004");
    b.extend_from_slice(&issuer);
    b.extend_from_slice(&[1, 2, 3, 0]);
    b.extend_from_slice(&[0, 0, 0, 1, 0, 0, 0, 58]);
    b.extend_from_slice(&[0, 1, 0, 1, b'H', b'A', b'D', b'E']);
    b.extend_from_slice(&[0, 0, 0, 1]);
    b.extend_from_slice(&0x3031u16.to_be_bytes());
    b.extend_from_slice(&[0xBB; 2]);
    b.extend_from_slice(&1u16.to_be_bytes());
    b.extend_from_slice(&[0xCC; 16]);
    b.extend_from_slice(&[0xDD; 12]);
    b.extend_from_slice(&[0xEE; 12]);
    b.extend_from_slice(&[0xFF; 18]);
    b.extend_from_slice(&2u32.to_be_bytes());
    b.extend_from_slice(&0x0201u16.to_be_bytes());
    b.extend_from_slice(&(records.len() as u16).to_be_bytes());
    b.extend_from_slice(&0u16.to_be_bytes());
    b.extend_from_slice(&0x1234u16.to_be_bytes());
    assert_eq!(b.len(), 484);
    for (cid, index, kind, size, hash) in records {
        b.extend_from_slice(&cid.to_be_bytes());
        b.extend_from_slice(&index.to_be_bytes());
        b.extend_from_slice(&kind.to_be_bytes());
        b.extend_from_slice(&size.to_be_bytes());
        b.extend_from_slice(hash);
    }
    b
}

fn tmd_sample() -> Vec<u8> {
    tmd_bytes(&[
        (0x10, 0, 1, 0x40, [0x11; 20]),
        (0x11, 1, 32769, 0x1_0000_0001, [0x22; 20]),
        (0x12, 2, 16385, 7, [0x33; 20]),
    ])
}

fn tmd_body_digest_leads_with_zero(tmd: &TMD) -> bool {
    let bytes = tmd.to_bytes();
    Sha1::digest(&bytes[320..])[0] == 0
}

#[test]
fn tmd_fields_are_read_at_their_places() {
    let tmd = TMD::from_bytes(&tmd_sample()).unwrap();
    assert_eq!(tmd.signature_type, 0x00010001);
    assert_eq!(tmd.signature[0], 1);
    assert_eq!(tmd.signature[255], (255 % 251 + 1) as u8);
    assert_eq!(tmd.padding1, [0xAA; 60]);
    assert_eq!(&tmd.signature_issuer[..26], b"Root-CA00000001-CP00000004");
    assert_eq!(tmd.tmd_version, 1);
    assert_eq!(tmd.ca_crl_version, 2);
    assert_eq!(tmd.signer_crl_version, 3);
    assert_eq!(tmd.is_vwii, 0);
    assert_eq!(tmd.ios_tid, [0, 0, 0, 1, 0, 0, 0, 58]);
    assert_eq!(tmd.title_id, [0, 1, 0, 1, b'H', b'A', b'D', b'E']);
    assert_eq!(tmd.title_type, [0, 0, 0, 1]);
    assert_eq!(tmd.group_id, 0x3031);
    assert_eq!(tmd.padding2, [0xBB; 2]);
    assert_eq!(tmd.region, 1);
    assert_eq!(tmd.ratings, [0xCC; 16]);
    assert_eq!(tmd.reserved1, [0xDD; 12]);
    assert_eq!(tmd.ipc_mask, [0xEE; 12]);
    assert_eq!(tmd.reserved2, [0xFF; 18]);
    assert_eq!(tmd.access_rights, 2);
    assert_eq!(tmd.title_version, 0x0201);
    assert_eq!(tmd.num_contents, 3);
    assert_eq!(tmd.boot_index, 0);
    assert_eq!(tmd.minor_version, 0x1234);
    assert_eq!(tmd.content_records.len(), 3);
    let r = &tmd.content_records[1];
    assert_eq!(r.content_id, 0x11);
    assert_eq!(r.index, 1);
    assert_eq!(r.content_type, ContentType::Shared);
    assert_eq!(r.content_size, 0x1_0000_0001);
    assert_eq!(r.content_hash, [0x22; 20]);
    assert_eq!(tmd.content_records[0].content_type, ContentType::Normal);
    assert_eq!(tmd.content_records[2].content_type, ContentType::DLC);
}

#[test]
fn tmd_round_trip_is_byte_exact() {
    let bytes = tmd_sample();
    let tmd = TMD::from_bytes(&bytes).unwrap();
    assert_eq!(tmd.to_bytes(), bytes);
    let empty = tmd_bytes(&[]);
    assert_eq!(TMD::from_bytes(&empty).unwrap().to_bytes(), empty);
}

#[test]
fn tmd_ignores_bytes_after_the_last_record() {
    let bytes = tmd_sample();
    let mut longer = bytes.clone();
    longer.extend_from_slice(&[0x77; 9]);
    let tmd = TMD::from_bytes(&longer).unwrap();
    assert_eq!(tmd.to_bytes(), bytes);
}

#[test]
fn tmd_writes_the_number_of_records_it_holds() {
    let mut tmd = TMD::from_bytes(&tmd_sample()).unwrap();
    tmd.content_records.pop();
    tmd.num_contents = 99;
    let bytes = tmd.to_bytes();
    assert_eq!(bytes.len(), 484 + 2 * 36);
    assert_eq!(&bytes[478..480], &[0, 2]);
    let again = TMD::from_bytes(&bytes).unwrap();
    assert_eq!(again.num_contents, 2);
    assert_eq!(again.content_records.len(), 2);
}

#[test]
fn tmd_refuses_truncated_data() {
    let bytes = tmd_sample();
    assert_eq!(TMD::from_bytes(&[]).err(), Some(TMDError::IO));
    assert_eq!(TMD::from_bytes(&bytes[..483]).err(), Some(TMDError::IO));
    assert_eq!(TMD::from_bytes(&bytes[..484]).err(), Some(TMDError::IO));
    assert_eq!(TMD::from_bytes(&bytes[..484 + 36 + 7]).err(), Some(TMDError::IO));
    assert_eq!(TMD::from_bytes(&bytes[..bytes.len() - 1]).err(), Some(TMDError::IO));
    assert!(TMD::from_bytes(&bytes[..]).is_ok());
}

#[test]
fn tmd_refuses_unknown_content_types() {
    let bytes = tmd_bytes(&[(1, 0, 1, 0, [0; 20]), (2, 1, 4, 0, [0; 20])]);
    assert_eq!(TMD::from_bytes(&bytes).err(), Some(TMDError::InvalidContentType(4)));
    let bytes = tmd_bytes(&[(1, 0, 0, 0, [0; 20])]);
    assert_eq!(TMD::from_bytes(&bytes).err(), Some(TMDError::InvalidContentType(0)));
    // The type is looked at before the end of the record is.
    let bytes = tmd_bytes(&[(1, 0, 0x4002, 0, [0; 20])]);
    assert_eq!(
        TMD::from_bytes(&bytes[..484 + 8]).err(),
        Some(TMDError::InvalidContentType(0x4002))
    );
    for code in [1u16, 2, 3, 16385, 32769] {
        let bytes = tmd_bytes(&[(1, 0, code, 0, [0; 20])]);
        let tmd = TMD::from_bytes(&bytes).unwrap();
        assert_eq!(tmd.content_records[0].content_type.code(), code);
        assert_eq!(ContentType::from_code(code), Some(tmd.content_records[0].content_type));
    }
    assert_eq!(ContentType::from_code(5), None);
}

#[test]
fn tmd_fakesign_clears_the_signature_and_passes() {
    let mut tmd = TMD::from_bytes(&tmd_sample()).unwrap();
    assert!(tmd.signature.iter().any(|b| *b != 0));
    assert!(!tmd.is_fakesigned());
    assert_eq!(tmd.fakesign(), Ok(()));
    assert_eq!(tmd.signature, [0u8; 256]);
    assert!(tmd.is_fakesigned());
    assert!(tmd_body_digest_leads_with_zero(&tmd));
    assert!(tmd.minor_version >= 1);
    // No smaller minor version passes.
    let found = tmd.minor_version;
    for n in 1..found {
        tmd.minor_version = n;
        assert!(!tmd.is_fakesigned());
    }
    tmd.minor_version = found;
    assert!(tmd.is_fakesigned());
}

#[test]
fn tmd_fakesign_twice_changes_nothing() {
    let mut tmd = TMD::from_bytes(&tmd_sample()).unwrap();
    tmd.fakesign().unwrap();
    let once = tmd.to_bytes();
    assert_eq!(tmd.fakesign(), Ok(()));
    assert!(tmd.is_fakesigned());
    assert_eq!(tmd.to_bytes(), once);
}

#[test]
fn tmd_with_a_signature_is_not_fakesigned() {
    let mut tmd = TMD::from_bytes(&tmd_sample()).unwrap();
    tmd.fakesign().unwrap();
    tmd.signature[200] = 1;
    assert!(tmd_body_digest_leads_with_zero(&tmd));
    assert!(!tmd.is_fakesigned());
}

#[test]
fn tmd_region_names() {
    let mut tmd = TMD::from_bytes(&tmd_sample()).unwrap();
    assert_eq!(tmd.region(), "USA");
    for (n, name) in [(0u16, "JPN"), (2, "EUR"), (3, "None"), (4, "KOR"), (5, "Unknown"), (0xFFFF, "Unknown")] {
        tmd.region = n;
        assert_eq!(tmd.region(), name);
    }
}

#[test]
fn tmd_title_types() {
    let mut tmd = TMD::from_bytes(&tmd_sample()).unwrap();
    assert_eq!(tmd.title_type(), TitleType::Channel);
    let cases = [
        ([0u8, 0, 0, 1], TitleType::System),
        ([0, 1, 0, 0], TitleType::Game),
        ([0, 1, 0, 1], TitleType::Channel),
        ([0, 1, 0, 2], TitleType::SystemChannel),
        ([0, 1, 0, 4], TitleType::GameChannel),
        ([0, 1, 0, 5], TitleType::DLC),
        ([0, 1, 0, 8], TitleType::HiddenChannel),
        ([0, 1, 0, 3], TitleType::Unknown),
        ([0, 0, 0, 0], TitleType::Unknown),
        ([0, 0, 0, 2], TitleType::Unknown),
        ([1, 1, 0, 1], TitleType::Unknown),
        ([0, 1, 1, 1], TitleType::Unknown),
        ([0, 2, 0, 1], TitleType::Unknown),
    ];
    for (prefix, kind) in cases {
        tmd.title_id[..4].copy_from_slice(&prefix);
        assert_eq!(tmd.title_type(), kind);
    }
}

#[test]
fn tmd_content_type_goes_by_the_index_on_record() {
    let bytes = tmd_bytes(&[
        (0x10, 2, 1, 0, [0; 20]),
        (0x11, 0, 32769, 0, [0; 20]),
        (0x12, 1, 16385, 0, [0; 20]),
    ]);
    let tmd = TMD::from_bytes(&bytes).unwrap();
    assert_eq!(tmd.content_type(0), ContentType::DLC);
    assert_eq!(tmd.content_type(1), ContentType::Normal);
    assert_eq!(tmd.content_type(2), ContentType::Shared);
}

#[test]
fn tmd_access_rights() {
    let mut tmd = TMD::from_bytes(&tmd_sample()).unwrap();
    assert!(tmd.check_access_right(AccessRight::DVDVideo));
    assert!(!tmd.check_access_right(AccessRight::AHB));
    tmd.access_rights = 1;
    assert!(tmd.check_access_right(AccessRight::AHB));
    assert!(!tmd.check_access_right(AccessRight::DVDVideo));
    tmd.access_rights = 0xFFFF_FFFC;
    assert!(!tmd.check_access_right(AccessRight::AHB));
    assert!(!tmd.check_access_right(AccessRight::DVDVideo));
    assert_eq!(AccessRight::AHB.bit(), 0);
    assert_eq!(AccessRight::DVDVideo.bit(), 1);
}

#[test]
fn tmd_signature_issuer_as_text() {
    let mut tmd = TMD::from_bytes(&tmd_sample()).unwrap();
    assert_eq!(tmd.signature_issuer(), "Root-CA00000001-CP00000004");
    tmd.signature_issuer = [0; 64];
    assert_eq!(tmd.signature_issuer(), "");
    tmd.signature_issuer = [b'x'; 64];
    assert_eq!(tmd.signature_issuer().len(), 64);
    tmd.signature_issuer = [0; 64];
    tmd.signature_issuer[0] = b'a';
    tmd.signature_issuer[2] = b'b';
    assert_eq!(tmd.signature_issuer(), "a\0b");
    tmd.signature_issuer = [0; 64];
    tmd.signature_issuer[0] = 0xFF;
    assert_eq!(tmd.signature_issuer(), "\u{FFFD}");
}

#[test]
fn tmd_set_signature_issuer() {
    let mut tmd = TMD::from_bytes(&tmd_sample()).unwrap();
    assert_eq!(tmd.set_signature_issuer(String::from("Root-CA00000002-CP00000007")), Ok(()));
    assert_eq!(&tmd.signature_issuer[..26], b"Root-CA00000002-CP00000007");
    assert!(tmd.signature_issuer[26..].iter().all(|b| *b == 0));
    assert_eq!(tmd.signature_issuer(), "Root-CA00000002-CP00000007");
    assert_eq!(tmd.set_signature_issuer("y".repeat(64)), Ok(()));
    assert_eq!(tmd.signature_issuer, [b'y'; 64]);
    let before = tmd.to_bytes();
    assert_eq!(tmd.set_signature_issuer("z".repeat(65)), Err(TMDError::IssuerTooLong(65)));
    assert_eq!(tmd.to_bytes(), before);
    // The length is that of the bytes, not of the characters.
    assert_eq!(tmd.set_signature_issuer("\u{00E9}".repeat(33)), Err(TMDError::IssuerTooLong(66)));
    assert_eq!(tmd.set_signature_issuer("\u{00E9}".repeat(32)), Ok(()));
}

#[test]
fn tmd_vwii_flag() {
    let mut tmd = TMD::from_bytes(&tmd_sample()).unwrap();
    assert!(!tmd.is_vwii());
    tmd.is_vwii = 1;
    assert!(tmd.is_vwii());
    tmd.is_vwii = 2;
    assert!(!tmd.is_vwii());
}

#[test]
fn tmd_record_is_plain_data() {
    let r = ContentRecord {
        content_id: 1,
        index: 2,
        content_type: ContentType::HashTree,
        content_size: 3,
        content_hash: [4; 20],
    };
    let copy = r;
    assert_eq!(copy.content_id, r.content_id);
    assert_eq!(r.content_type.code(), 3);
}
