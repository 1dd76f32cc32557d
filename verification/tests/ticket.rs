use aes::cipher::block_padding::ZeroPadding;
use aes::cipher::{BlockDecryptMut, KeyIvInit};
use rustii::title::commonkeys::CommonKeys;
use rustii::title::ticket::{Ticket, TicketError};
use sha1::{Digest, Sha1};

fn ticket_keys() -> CommonKeys {
    CommonKeys { common: [0x11; 16], korean: [0x22; 16], vwii: [0x33; 16], development: [0x44; 16] }
}

fn ticket_bytes(issuer: &[u8], version: u8, key_index: u8) -> Vec<u8> {
    let mut b = Vec::new();
    b.extend_from_slice(&0x00010001u32.to_be_bytes());
    b.extend((0..256).map(|i| (i % 250 + 3) as u8));
    b.extend_from_slice(&[0xA1; 60]);
    let mut name = [0u8; 64];
    name[..issuer.len()].copy_from_slice(issuer);
    b.extend_from_slice(&name);
    b.extend_from_slice(&[0xA2; 60]);
    b.push(version);
    b.extend_from_slice(&[0xA3; 2]);
    b.extend((0..16).map(|i| (0x50 + i) as u8));
    b.push(0xA4);
    b.extend_from_slice(&[1, 2, 3, 4, 5, 6, 7, 8]);
    b.extend_from_slice(&[0xA5; 4]);
    b.extend_from_slice(&[0, 1, 0, 1, b'H', b'A', b'D', b'E']);
    b.extend_from_slice(&[0xA6, 0xA7]);
    b.extend_from_slice(&0x0102u16.to_be_bytes());
    b.extend_from_slice(&[0xA8; 4]);
    b.extend_from_slice(&[0xA9; 4]);
    b.push(1);
    b.push(key_index);
    b.extend_from_slice(&[0xAB; 48]);
    b.extend_from_slice(&[0xAC; 64]);
    b.extend_from_slice(&[0xAD; 2]);
    for i in 0..8u32 {
        b.extend_from_slice(&(i + 1).to_be_bytes());
        b.extend_from_slice(&(0x1000_0000 * (i + 1)).to_be_bytes());
    }
    assert_eq!(b.len(), 676);
    b
}

fn ticket_sample() -> Vec<u8> {
    ticket_bytes(b"Root-CA00000001-XS00000003", 0, 0)
}

fn ticket_unwrap(enc: [u8; 16], key: [u8; 16], title_id: [u8; 8]) -> [u8; 16] {
    let mut iv = [0u8; 16];
    iv[..8].copy_from_slice(&title_id);
    let mut buf = enc;
    cbc::Decryptor::<aes::Aes128>::new(&key.into(), &iv.into())
        .decrypt_padded_mut::<ZeroPadding>(&mut buf)
        .unwrap();
    buf
}

#[test]
fn ticket_fields_are_read_at_their_places() {
    let t = Ticket::from_bytes(&ticket_sample()).unwrap();
    assert_eq!(t.signature_type, 0x00010001);
    assert_eq!(t.signature[0], 3);
    assert_eq!(t.padding1, [0xA1; 60]);
    assert_eq!(&t.signature_issuer[..26], b"Root-CA00000001-XS00000003");
    assert_eq!(t.ecdh_data, [0xA2; 60]);
    assert_eq!(t.ticket_version, 0);
    assert_eq!(t.reserved1, [0xA3; 2]);
    assert_eq!(t.title_key[0], 0x50);
    assert_eq!(t.title_key[15], 0x5F);
    assert_eq!(t.unknown1, [0xA4]);
    assert_eq!(t.ticket_id, [1, 2, 3, 4, 5, 6, 7, 8]);
    assert_eq!(t.console_id, [0xA5; 4]);
    assert_eq!(t.title_id, [0, 1, 0, 1, b'H', b'A', b'D', b'E']);
    assert_eq!(t.unknown2, [0xA6, 0xA7]);
    assert_eq!(t.title_version, 0x0102);
    assert_eq!(t.permitted_titles_mask, [0xA8; 4]);
    assert_eq!(t.permit_mask, [0xA9; 4]);
    assert_eq!(t.title_export_allowed, 1);
    assert_eq!(t.common_key_index, 0);
    assert_eq!(t.unknown3, [0xAB; 48]);
    assert_eq!(t.content_access_permission, [0xAC; 64]);
    assert_eq!(t.padding2, [0xAD; 2]);
    for i in 0..8 {
        assert_eq!(t.title_limits[i].limit_type, i as u32 + 1);
        assert_eq!(t.title_limits[i].limit_max, 0x1000_0000 * (i as u32 + 1));
    }
}

#[test]
fn ticket_round_trip_is_byte_exact() {
    let bytes = ticket_sample();
    let t = Ticket::from_bytes(&bytes).unwrap();
    let out = t.to_bytes();
    assert_eq!(out.len(), 676);
    assert_eq!(out, bytes);
    let mut longer = bytes.clone();
    longer.extend_from_slice(&[9; 20]);
    assert_eq!(Ticket::from_bytes(&longer).unwrap().to_bytes(), bytes);
}

#[test]
fn ticket_of_version_1_is_refused() {
    let bytes = ticket_bytes(b"Root-CA00000001-XS00000003", 1, 0);
    assert_eq!(Ticket::from_bytes(&bytes).err(), Some(TicketError::UnsupportedVersion));
    // The version is looked at as soon as it is there.
    assert_eq!(Ticket::from_bytes(&bytes[..445]).err(), Some(TicketError::UnsupportedVersion));
    let bytes = ticket_bytes(b"Root-CA00000001-XS00000003", 0xFF, 0);
    assert_eq!(Ticket::from_bytes(&bytes).err(), Some(TicketError::UnsupportedVersion));
}

#[test]
fn ticket_refuses_truncated_data() {
    let bytes = ticket_sample();
    assert_eq!(Ticket::from_bytes(&[]).err(), Some(TicketError::IOError));
    assert_eq!(Ticket::from_bytes(&bytes[..444]).err(), Some(TicketError::IOError));
    assert_eq!(Ticket::from_bytes(&bytes[..445]).err(), Some(TicketError::IOError));
    assert_eq!(Ticket::from_bytes(&bytes[..675]).err(), Some(TicketError::IOError));
    assert!(Ticket::from_bytes(&bytes[..676]).is_ok());
}

#[test]
fn ticket_fakesign_clears_the_signature_and_passes() {
    let mut t = Ticket::from_bytes(&ticket_sample()).unwrap();
    assert!(!t.is_fakesigned());
    assert_eq!(t.fakesign(), Ok(()));
    assert_eq!(t.signature, [0u8; 256]);
    assert!(t.is_fakesigned());
    let bytes = t.to_bytes();
    assert_eq!(Sha1::digest(&bytes[320..])[0], 0);
    let found = u16::from_be_bytes(t.unknown2);
    assert!(found >= 1);
    for n in 1..found {
        t.unknown2 = n.to_be_bytes();
        assert!(!t.is_fakesigned());
    }
    // Nothing but the signature and the reserved field has changed.
    let untouched = ticket_sample();
    assert_eq!(&bytes[..4], &untouched[..4]);
    assert_eq!(&bytes[260..484], &untouched[260..484]);
    assert_eq!(&bytes[486..], &untouched[486..]);
}

#[test]
fn ticket_fakesign_twice_changes_nothing() {
    let mut t = Ticket::from_bytes(&ticket_sample()).unwrap();
    t.fakesign().unwrap();
    let once = t.to_bytes();
    assert_eq!(t.fakesign(), Ok(()));
    assert!(t.is_fakesigned());
    assert_eq!(t.to_bytes(), once);
}

#[test]
fn ticket_kind_goes_by_the_issuer() {
    for (issuer, dev) in [
        (&b"Root-CA00000001-XS00000003"[..], false),
        (&b"Root-CA00000002-XS00000004"[..], true),
        (&b"Root-CA00000002-XS00000006"[..], true),
        (&b"Root-CA00000002-XS00000005"[..], false),
        (&b"xxRoot-CA00000002-XS00000006yy"[..], true),
        (&b"Root-CA00000002-XS0000000"[..], false),
        (&b""[..], false),
    ] {
        let t = Ticket::from_bytes(&ticket_bytes(issuer, 0, 0)).unwrap();
        assert_eq!(t.is_dev(), dev);
    }
    // An issuer that is no text names nothing.
    let mut t = Ticket::from_bytes(&ticket_bytes(b"Root-CA00000002-XS00000006", 0, 0)).unwrap();
    assert!(t.is_dev());
    t.signature_issuer[40] = 0xFF;
    assert!(!t.is_dev());
    // The name may end with the field.
    let mut t = Ticket::from_bytes(&ticket_sample()).unwrap();
    t.signature_issuer = [b'-'; 64];
    t.signature_issuer[38..].copy_from_slice(b"Root-CA00000002-XS00000004");
    assert!(t.is_dev());
}

#[test]
fn ticket_title_key_is_unwrapped_with_the_selected_key() {
    let keys = ticket_keys();
    let cases = [
        (&b"Root-CA00000001-XS00000003"[..], 0u8, keys.common),
        (&b"Root-CA00000001-XS00000003"[..], 1, keys.korean),
        (&b"Root-CA00000001-XS00000003"[..], 2, keys.vwii),
        (&b"Root-CA00000001-XS00000003"[..], 3, keys.common),
        (&b"Root-CA00000001-XS00000003"[..], 0xFF, keys.common),
        (&b"Root-CA00000002-XS00000006"[..], 0, keys.development),
        (&b"Root-CA00000002-XS00000006"[..], 1, keys.korean),
        (&b"Root-CA00000002-XS00000006"[..], 2, keys.vwii),
        (&b"Root-CA00000002-XS00000004"[..], 7, keys.development),
    ];
    for (issuer, index, key) in cases {
        let t = Ticket::from_bytes(&ticket_bytes(issuer, 0, index)).unwrap();
        assert_eq!(t.dec_title_key(&keys), ticket_unwrap(t.title_key, key, t.title_id));
        assert_ne!(t.dec_title_key(&keys), t.title_key);
    }
}

#[test]
fn ticket_signature_issuer_as_text() {
    let mut t = Ticket::from_bytes(&ticket_sample()).unwrap();
    assert_eq!(t.signature_issuer(), "Root-CA00000001-XS00000003");
    assert_eq!(t.set_signature_issuer(String::from("Root-CA00000002-XS00000006")), Ok(()));
    assert_eq!(t.signature_issuer(), "Root-CA00000002-XS00000006");
    assert!(t.is_dev());
    let before = t.to_bytes();
    assert_eq!(t.set_signature_issuer("a".repeat(100)), Err(TicketError::IssuerTooLong(100)));
    assert_eq!(t.to_bytes(), before);
}
