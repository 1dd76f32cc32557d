use rustii::title::commonkeys::CommonKeys;
use rustii::title::content::{ContentError, ContentRegion};
use rustii::title::crypto::{encrypt_content, encrypt_title_key};
use rustii::title::ticket::Ticket;
use rustii::title::tmd::{ContentRecord, ContentType, TMD};
use rustii::title::wad::{WADType, WAD};
use rustii::title::{copy_records, Title, TitleError};
use sha1::{Digest, Sha1};

const TITLE_ID: [u8; 8] = [0, 1, 0, 1, b'R', b'U', b'S', b'T'];
const TITLE_KEY: [u8; 16] = [0x6B; 16];

fn title_keys() -> CommonKeys {
    CommonKeys { common: [0x0C; 16], korean: [0x0D; 16], vwii: [0x0E; 16], development: [0x0F; 16] }
}

fn title_plains() -> Vec<Vec<u8>> {
    vec![(0..200u8).collect(), vec![0x33; 64], vec![1, 2, 3]]
}

fn title_records() -> Vec<ContentRecord> {
    let kinds = [ContentType::Normal, ContentType::Shared, ContentType::Normal];
    title_plains()
        .iter()
        .enumerate()
        .map(|(i, p)| ContentRecord {
            content_id: 0x20 + i as u32,
            index: i as u16,
            content_type: kinds[i],
            content_size: p.len() as u64,
            content_hash: Sha1::digest(p).into(),
        })
        .collect()
}

fn title_tmd_bytes(records: &[ContentRecord]) -> Vec<u8> {
    let mut b = vec![0u8; 484];
    b[3] = 1;
    for i in 4..260 {
        b[i] = 0x41;
    }
    b[320..346].copy_from_slice(b"Root-CA00000001-CP00000004");
    b[396..404].copy_from_slice(&TITLE_ID);
    b[478..480].copy_from_slice(&(records.len() as u16).to_be_bytes());
    for r in records {
        b.extend_from_slice(&r.content_id.to_be_bytes());
        b.extend_from_slice(&r.index.to_be_bytes());
        b.extend_from_slice(&r.content_type.code().to_be_bytes());
        b.extend_from_slice(&r.content_size.to_be_bytes());
        b.extend_from_slice(&r.content_hash);
    }
    b
}

fn title_ticket_bytes() -> Vec<u8> {
    let mut b = vec![0u8; 676];
    b[3] = 1;
    for i in 4..260 {
        b[i] = 0x42;
    }
    b[320..346].copy_from_slice(b"Root-CA00000001-XS00000003");
    let wrapped = encrypt_title_key(TITLE_KEY, &title_keys(), 0, TITLE_ID, false);
    b[447..463].copy_from_slice(&wrapped);
    b[476..484].copy_from_slice(&TITLE_ID);
    b
}

fn title_wad_bytes() -> Vec<u8> {
    let cert = vec![0xCEu8; 70];
    let ticket = title_ticket_bytes();
    let tmd = title_tmd_bytes(&title_records());
    let mut content = Vec::new();
    for (i, p) in title_plains().iter().enumerate() {
        content.extend_from_slice(&encrypt_content(p, TITLE_KEY, i as u16, p.len() as u64));
        while content.len() % 64 != 0 {
            content.push(0);
        }
    }
    let meta = vec![0xF0u8; 3];
    let crl: Vec<u8> = Vec::new();
    let mut b = Vec::new();
    b.extend_from_slice(&32u32.to_be_bytes());
    b.extend_from_slice(b"Is");
    b.extend_from_slice(&[0, 0]);
    for part in [&cert, &crl, &ticket, &tmd, &content, &meta] {
        b.extend_from_slice(&(part.len() as u32).to_be_bytes());
    }
    b.extend_from_slice(&[0; 32]);
    for part in [&cert, &crl, &ticket, &tmd, &content, &meta] {
        b.extend_from_slice(part);
        while b.len() % 64 != 0 {
            b.push(0);
        }
    }
    b
}

#[test]
fn title_is_read_from_a_wad() {
    let bytes = title_wad_bytes();
    let title = Title::from_bytes(&bytes).unwrap();
    assert_eq!(title.cert_chain(), vec![0xCE; 70]);
    assert_eq!(title.crl(), Vec::<u8>::new());
    assert_eq!(title.meta(), vec![0xF0; 3]);
    assert_eq!(title.tmd.title_id, TITLE_ID);
    assert_eq!(title.ticket.title_id, TITLE_ID);
    assert_eq!(title.tmd.content_records.len(), 3);
    assert_eq!(title.content.content_records.len(), 3);
    assert_eq!(title.content.contents.len(), 3);
    assert_eq!(title.ticket.dec_title_key(&title_keys()), TITLE_KEY);
    let wad = WAD::from_bytes(&bytes).unwrap();
    let same = Title::from_wad(&wad).unwrap();
    assert_eq!(same.tmd.to_bytes(), title.tmd.to_bytes());
}

#[test]
fn title_round_trips_through_a_wad() {
    let bytes = title_wad_bytes();
    let title = Title::from_bytes(&bytes).unwrap();
    let wad = title.to_wad().unwrap();
    assert_eq!(wad.to_bytes(), bytes);
}

#[test]
fn title_hands_out_its_contents() {
    let title = Title::from_bytes(&title_wad_bytes()).unwrap();
    let keys = title_keys();
    for (i, p) in title_plains().iter().enumerate() {
        assert_eq!(title.get_content_by_index(i, &keys), Ok(p.clone()));
        assert_eq!(title.get_content_by_cid(0x20 + i as u32, &keys), Ok(p.clone()));
    }
    assert_eq!(title.get_content_by_cid(0x99, &keys), Err(ContentError::CIDNotFound(0x99)));
    assert_eq!(title.get_content_by_index(3, &keys), Err(ContentError::IndexOutOfRange { index: 3, max: 2 }));
    // With another table of keys the digests do not match.
    let other = CommonKeys { common: [1; 16], ..title_keys() };
    assert!(matches!(title.get_content_by_index(0, &other), Err(ContentError::BadHash { .. })));
}

#[test]
fn title_errors_name_the_part_that_is_bad() {
    let bytes = title_wad_bytes();
    assert_eq!(Title::from_bytes(&bytes[..40]).err(), Some(TitleError::InvalidWAD));
    assert_eq!(Title::from_bytes(b"not a wad").err(), Some(TitleError::InvalidWAD));
    let wad = WAD::from_bytes(&bytes).unwrap();
    let mut bad = WAD::from_bytes(&bytes).unwrap();
    let mut ticket = wad.ticket();
    ticket[444] = 1;
    bad.set_ticket(&ticket);
    assert_eq!(Title::from_wad(&bad).err(), Some(TitleError::BadTicket));
    // A bad ticket is named before a bad TMD.
    bad.set_tmd(&[0; 10]);
    assert_eq!(Title::from_wad(&bad).err(), Some(TitleError::BadTicket));
    let mut bad = WAD::from_bytes(&bytes).unwrap();
    bad.set_tmd(&wad.tmd()[..500]);
    assert_eq!(Title::from_wad(&bad).err(), Some(TitleError::BadTMD));
    let mut bad = WAD::from_bytes(&bytes).unwrap();
    bad.set_content(&wad.content()[..300]);
    assert_eq!(Title::from_wad(&bad).err(), Some(TitleError::BadContent));
}

#[test]
fn title_fakesign_signs_tmd_and_ticket() {
    let mut title = Title::from_bytes(&title_wad_bytes()).unwrap();
    assert!(!title.is_fakesigned());
    assert_eq!(title.fakesign(), Ok(()));
    assert!(title.is_fakesigned());
    assert!(title.tmd.is_fakesigned());
    assert!(title.ticket.is_fakesigned());
    assert_eq!(title.tmd.signature, [0; 256]);
    assert_eq!(title.ticket.signature, [0; 256]);
    // Only one of the two is not enough.
    title.ticket.signature[0] = 1;
    assert!(!title.is_fakesigned());
    // The contents are still handed out: the title key has not changed.
    assert_eq!(title.get_content_by_index(2, &title_keys()), Ok(vec![1, 2, 3]));
    let wad = title.to_wad().unwrap();
    let again = Title::from_bytes(&wad.to_bytes()).unwrap();
    assert!(again.tmd.is_fakesigned());
}

#[test]
fn title_size_counts_shared_contents_on_demand() {
    let title = Title::from_bytes(&title_wad_bytes()).unwrap();
    let fixed = 484 + 3 * 36 + 676;
    assert_eq!(title.title_size(None), Ok(fixed + 200 + 3));
    assert_eq!(title.title_size(Some(false)), Ok(fixed + 200 + 3));
    assert_eq!(title.title_size(Some(true)), Ok(fixed + 200 + 64 + 3));
    assert_eq!(title.title_size_blocks(None), Ok(1));
    assert_eq!(title.title_size_blocks(Some(true)), Ok(1));
}

#[test]
fn title_size_in_blocks_counts_a_started_block() {
    let mut title = Title::from_bytes(&title_wad_bytes()).unwrap();
    let fixed = 484 + 3 * 36 + 676;
    title.tmd.content_records[0].content_size = (131072 - fixed - 3) as u64;
    assert_eq!(title.title_size(None), Ok(131072));
    assert_eq!(title.title_size_blocks(None), Ok(1));
    assert_eq!(title.title_size_blocks(Some(true)), Ok(2));
    title.tmd.content_records[0].content_size += 1;
    assert_eq!(title.title_size_blocks(None), Ok(2));
    title.tmd.content_records[0].content_size = 10 * 131072;
    assert_eq!(title.title_size_blocks(None), Ok(11));
    title.tmd.content_records[0].content_size = u64::MAX;
    assert_eq!(title.title_size(None), Err(TitleError::IOError));
    assert_eq!(title.title_size_blocks(None), Err(TitleError::IOError));
}

#[test]
fn title_setters_replace_the_parts() {
    let mut title = Title::from_bytes(&title_wad_bytes()).unwrap();
    title.set_cert_chain(&[1, 2]);
    title.set_crl(&[3]);
    title.set_meta(&[4, 5, 6]);
    assert_eq!(title.cert_chain(), vec![1, 2]);
    assert_eq!(title.crl(), vec![3]);
    assert_eq!(title.meta(), vec![4, 5, 6]);
    let mut ticket = Ticket::from_bytes(&title_ticket_bytes()).unwrap();
    ticket.title_version = 7;
    title.set_ticket(ticket);
    assert_eq!(title.ticket.title_version, 7);
    let tmd = TMD::from_bytes(&title_tmd_bytes(&[])).unwrap();
    title.set_tmd(tmd);
    assert_eq!(title.tmd.content_records.len(), 0);
    title.set_content(ContentRegion::new(Vec::new()).unwrap());
    assert_eq!(title.content.contents.len(), 0);
    let wad = title.to_wad().unwrap();
    assert_eq!(wad.cert_chain(), vec![1, 2]);
    assert_eq!(wad.crl(), vec![3]);
    assert_eq!(wad.meta(), vec![4, 5, 6]);
    assert_eq!(wad.tmd_size(), 484);
}

#[test]
fn title_add_content_brings_the_tmd_up_to_date() {
    let mut title = Title::from_bytes(&title_wad_bytes()).unwrap();
    let keys = title_keys();
    let data = vec![0x77u8; 45];
    assert_eq!(title.add_content(&data, 0x50, ContentType::DLC, &keys), Ok(()));
    assert_eq!(title.tmd.num_contents, 4);
    assert_eq!(title.tmd.content_records.len(), 4);
    assert_eq!(title.tmd.content_records[3].content_id, 0x50);
    assert_eq!(title.tmd.content_records[3].index, 3);
    assert_eq!(title.tmd.content_records[3].content_size, 45);
    assert_eq!(title.tmd.content_records[3].content_type, ContentType::DLC);
    assert_eq!(title.get_content_by_index(3, &keys), Ok(data.clone()));
    assert_eq!(title.get_content_by_index(0, &keys), Ok(title_plains()[0].clone()));
    assert_eq!(
        title.add_content(&data, 0x21, ContentType::Normal, &keys),
        Err(TitleError::Content(ContentError::CIDAlreadyExists(0x21)))
    );
    assert_eq!(title.tmd.content_records.len(), 4);
    // Fakesigned, written and read again, the title still holds it.
    title.fakesign().unwrap();
    let bytes = title.to_wad().unwrap().to_bytes();
    let again = Title::from_bytes(&bytes).unwrap();
    assert!(again.is_fakesigned());
    assert_eq!(again.get_content_by_cid(0x50, &keys), Ok(data));
}

#[test]
fn title_replace_content_brings_the_tmd_up_to_date() {
    let mut title = Title::from_bytes(&title_wad_bytes()).unwrap();
    let keys = title_keys();
    let data = vec![0x10u8; 17];
    assert_eq!(title.replace_content(&data, 1, None, Some(ContentType::Normal), &keys), Ok(()));
    assert_eq!(title.tmd.content_records[1].content_size, 17);
    let digest: [u8; 20] = Sha1::digest(&data).into();
    assert_eq!(title.tmd.content_records[1].content_hash, digest);
    assert_eq!(title.tmd.content_records[1].content_type, ContentType::Normal);
    assert_eq!(title.get_content_by_index(1, &keys), Ok(data.clone()));
    assert_eq!(
        title.replace_content(&data, 5, None, None, &keys),
        Err(TitleError::Content(ContentError::IndexOutOfRange { index: 5, max: 2 }))
    );
    assert_eq!(
        title.replace_content(&data, 0, Some(0x22), None, &keys),
        Err(TitleError::Content(ContentError::CIDAlreadyExists(0x22)))
    );
    let bytes = title.to_wad().unwrap().to_bytes();
    let again = Title::from_bytes(&bytes).unwrap();
    assert_eq!(again.get_content_by_index(1, &keys), Ok(data));
}

#[test]
fn title_remove_content_brings_the_tmd_up_to_date() {
    let mut title = Title::from_bytes(&title_wad_bytes()).unwrap();
    let keys = title_keys();
    assert_eq!(title.remove_content(0), Ok(()));
    assert_eq!(title.tmd.num_contents, 2);
    assert_eq!(title.tmd.content_records.len(), 2);
    assert_eq!(title.tmd.content_records[0].index, 1);
    assert_eq!(title.tmd.content_records[1].index, 2);
    assert_eq!(title.get_content_by_index(1, &keys), Ok(vec![1, 2, 3]));
    assert_eq!(
        title.remove_content(2),
        Err(TitleError::Content(ContentError::IndexOutOfRange { index: 2, max: 1 }))
    );
    let bytes = title.to_wad().unwrap().to_bytes();
    let again = Title::from_bytes(&bytes).unwrap();
    assert_eq!(again.tmd.content_records.len(), 2);
    assert_eq!(again.get_content_by_cid(0x22, &keys), Ok(vec![1, 2, 3]));
}

#[test]
fn title_sync_copies_the_records() {
    let mut title = Title::from_bytes(&title_wad_bytes()).unwrap();
    title.content.remove_content(2).unwrap();
    assert_eq!(title.tmd.content_records.len(), 3);
    title.sync_records();
    assert_eq!(title.tmd.content_records.len(), 2);
    assert_eq!(title.tmd.num_contents, 2);
    let copy = copy_records(&title.content.content_records);
    assert_eq!(copy.len(), 2);
    assert_eq!(copy[1].content_id, 0x21);
}

#[test]
fn title_is_packed_whatever_its_tmd_holds() {
    let mut title = Title::from_bytes(&title_wad_bytes()).unwrap();
    title.tmd.content_records.clear();
    title.tmd.num_contents = 40;
    let wad = title.to_wad().unwrap();
    assert_eq!(wad.tmd_size(), 484);
    assert_eq!(wad.header.wad_type, WADType::Installable);
    assert_eq!(wad.content_size(), 256 + 64 + 64);
    title.tmd.title_id = [0, 0, 0, 1, 0, 0, 0, 1];
    assert_eq!(title.to_wad().unwrap().header.wad_type, WADType::ImportBoot);
}
