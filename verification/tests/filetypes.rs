use rustii::filetypes::{
    classify_name, identify_file_type, identify_magic, names_match, to_ascii_lower, WiiFileType,
};

#[test]
fn test_parse_tmd() {
    assert_eq!(identify_file_type("tmd"), Some(WiiFileType::Tmd));
    assert_eq!(identify_file_type("TMD"), Some(WiiFileType::Tmd));
    assert_eq!(identify_file_type("tmd.bin"), Some(WiiFileType::Tmd));
    assert_eq!(identify_file_type("TMD.BIN"), Some(WiiFileType::Tmd));
    assert_eq!(identify_file_type("tmd.513"), Some(WiiFileType::Tmd));
    assert_eq!(identify_file_type("0000000100000002.tmd"), Some(WiiFileType::Tmd));
    assert_eq!(identify_file_type("0000000100000002.TMD"), Some(WiiFileType::Tmd));
}

#[test]
fn test_parse_tik() {
    assert_eq!(identify_file_type("ticket.bin"), Some(WiiFileType::Ticket));
    assert_eq!(identify_file_type("TICKET.BIN"), Some(WiiFileType::Ticket));
    assert_eq!(identify_file_type("cetk"), Some(WiiFileType::Ticket));
    assert_eq!(identify_file_type("CETK"), Some(WiiFileType::Ticket));
    assert_eq!(identify_file_type("0000000100000002.tik"), Some(WiiFileType::Ticket));
    assert_eq!(identify_file_type("0000000100000002.TIK"), Some(WiiFileType::Ticket));
}

#[test]
fn test_parse_wad() {
    assert_eq!(identify_file_type("0000000100000002.wad"), Some(WiiFileType::Wad));
    assert_eq!(identify_file_type("0000000100000002.WAD"), Some(WiiFileType::Wad));
}

#[test]
fn test_parse_no_match() {
    assert_eq!(identify_file_type("somefile.txt"), None);
}

#[test]
fn file_type_goes_by_the_last_component() {
    assert_eq!(identify_file_type("some/dir/Ticket.Bin"), Some(WiiFileType::Ticket));
    assert_eq!(identify_file_type("cetk/readme"), None);
    assert_eq!(identify_file_type("dir.wad/file"), None);
    assert_eq!(identify_file_type("wad"), None);
    assert_eq!(identify_file_type(""), None);
    // The expression for a TMD looks at the whole path.
    assert_eq!(identify_file_type("tmd/file.wad"), Some(WiiFileType::Tmd));
    assert_eq!(identify_file_type("atMdb.tik"), Some(WiiFileType::Tmd));
}

#[test]
fn names_are_classified_in_order() {
    let name = |s: &str| Some(s.as_bytes().to_vec());
    assert_eq!(classify_name(true, &None, &None), Some(WiiFileType::Tmd));
    assert_eq!(classify_name(true, &name("cetk"), &name("wad")), Some(WiiFileType::Tmd));
    assert_eq!(classify_name(false, &name("TMD.bin"), &name("bin")), Some(WiiFileType::Tmd));
    assert_eq!(classify_name(false, &name("x.tMd"), &name("tMd")), Some(WiiFileType::Tmd));
    assert_eq!(classify_name(false, &name("a.TIK"), &name("TIK")), Some(WiiFileType::Ticket));
    assert_eq!(classify_name(false, &name("Ticket.BIN"), &name("BIN")), Some(WiiFileType::Ticket));
    assert_eq!(classify_name(false, &name("CeTk"), &None), Some(WiiFileType::Ticket));
    assert_eq!(classify_name(false, &name("cetk"), &name("wad")), Some(WiiFileType::Ticket));
    assert_eq!(classify_name(false, &name("a.wad"), &name("wAD")), Some(WiiFileType::Wad));
    assert_eq!(classify_name(false, &name("wad"), &None), None);
    assert_eq!(classify_name(false, &name("a.wad2"), &name("wad2")), None);
    assert_eq!(classify_name(false, &None, &None), None);
    assert_eq!(classify_name(false, &name("cetk "), &name("tik ")), None);
}

#[test]
fn names_match_but_for_ascii_case() {
    assert!(names_match(b"Ticket.Bin", b"ticket.bin"));
    assert!(names_match(b"", b""));
    assert!(!names_match(b"abc", b"abd"));
    assert!(!names_match(b"abc", b"abcd"));
    assert!(!names_match(b"[", b"{"));
    assert!(!names_match(b"@", b"`"));
    assert_eq!(to_ascii_lower(b'A'), b'a');
    assert_eq!(to_ascii_lower(b'Z'), b'z');
    assert_eq!(to_ascii_lower(b'a'), b'a');
    assert_eq!(to_ascii_lower(b'@'), b'@');
    assert_eq!(to_ascii_lower(b'['), b'[');
    assert_eq!(to_ascii_lower(0xC4), 0xC4);
}

#[test]
fn wad_is_told_by_its_first_bytes() {
    assert_eq!(identify_magic(b"\x00\x00\x00\x20\x49\x73\x00\x00"), Some(WiiFileType::Wad));
    assert_eq!(identify_magic(b"\x00\x00\x00\x20\x69\x62\x00\x00rest"), Some(WiiFileType::Wad));
    assert_eq!(identify_magic(b"\x00\x00\x00\x20\x49\x62\x00\x00"), None);
    assert_eq!(identify_magic(b"\x00\x00\x00\x20\x49\x73\x00\x01"), None);
    assert_eq!(identify_magic(b"\x00\x00\x00\x40\x49\x73\x00\x00"), None);
    assert_eq!(identify_magic(b"\x00\x00\x00\x20\x49\x73\x00"), None);
    assert_eq!(identify_magic(b""), None);
}
