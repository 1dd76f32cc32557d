//! Telling the kind of a file of the console by its name or by its first
//! bytes.

use regex::RegexBuilder;
use std::path::Path;
use vstd::prelude::*;

verus! {

#[derive(Debug, Clone, Copy, PartialEq, Eq, Structural)]
pub enum WiiFileType {
    Wad,
    Tmd,
    Ticket,
}

/// Whether a regular expression, with or without regard to case, matches
/// somewhere in a text; nothing where the expression is not well-formed.
pub uninterp spec fn regex_match(pattern: Seq<char>, ignore_case: bool, text: Seq<char>) -> Option<
    bool,
>;

/// The expression that finds `tmd` in a name, with a version after it or not.
pub open spec fn tmd_pattern() -> Seq<char> {
    "tmd\\.?[0-9]*"@
}

/// Whether the expression for a TMD matches somewhere in a path, case
/// ignored.
pub open spec fn names_a_tmd(path: Seq<char>) -> bool {
    regex_match(tmd_pattern(), true, path) == Some(true)
}

/// The lower-case form of an ASCII letter, and every other byte as it is.
pub open spec fn ascii_lower(b: u8) -> u8 {
    if 0x41 <= b <= 0x5A {
        (b + 0x20) as u8
    } else {
        b
    }
}

/// Whether two names are the same but for the case of their ASCII letters.
pub open spec fn same_ignoring_case(a: Seq<u8>, b: Seq<u8>) -> bool {
    a.len() == b.len() && forall|i: int| 0 <= i < a.len() ==> ascii_lower(a[i]) == ascii_lower(b[i])
}

/// Whether there is a name and it is `word` but for case.
pub open spec fn is_named(name: Option<Seq<u8>>, word: Seq<u8>) -> bool {
    name is Some && same_ignoring_case(name->0, word)
}

/// `tmd.bin`
pub open spec fn word_tmd_bin() -> Seq<u8> {
    seq![0x74u8, 0x6d, 0x64, 0x2e, 0x62, 0x69, 0x6e]
}

/// `tmd`
pub open spec fn word_tmd() -> Seq<u8> {
    seq![0x74u8, 0x6d, 0x64]
}

/// `tik`
pub open spec fn word_tik() -> Seq<u8> {
    seq![0x74u8, 0x69, 0x6b]
}

/// `ticket.bin`
pub open spec fn word_ticket_bin() -> Seq<u8> {
    seq![0x74u8, 0x69, 0x63, 0x6b, 0x65, 0x74, 0x2e, 0x62, 0x69, 0x6e]
}

/// `cetk`
pub open spec fn word_cetk() -> Seq<u8> {
    seq![0x63u8, 0x65, 0x74, 0x6b]
}

/// `wad`
pub open spec fn word_wad() -> Seq<u8> {
    seq![0x77u8, 0x61, 0x64]
}

/// The kind that a name tells: a TMD where the expression for one matches
/// the path or the name says so, else a ticket, else a WAD, by file name or
/// extension.
pub open spec fn kind_by_name(
    tmd_match: bool,
    file_name: Option<Seq<u8>>,
    extension: Option<Seq<u8>>,
) -> Option<WiiFileType> {
    if tmd_match || is_named(file_name, word_tmd_bin()) || is_named(extension, word_tmd()) {
        Some(WiiFileType::Tmd)
    } else if is_named(extension, word_tik()) || is_named(file_name, word_ticket_bin()) || is_named(
        file_name,
        word_cetk(),
    ) {
        Some(WiiFileType::Ticket)
    } else if is_named(extension, word_wad()) {
        Some(WiiFileType::Wad)
    } else {
        None
    }
}

/// Whether `data` opens with the first eight bytes of a WAD: a header size of
/// 32, the tag `Is` or `ib`, and two zero bytes.
pub open spec fn opens_as_wad(data: Seq<u8>) -> bool {
    &&& data.len() >= 8
    &&& data[0] == 0 && data[1] == 0 && data[2] == 0 && data[3] == 0x20
    &&& (data[4] == 0x49 && data[5] == 0x73) || (data[4] == 0x69 && data[5] == 0x62)
    &&& data[6] == 0 && data[7] == 0
}

/// `RegexBuilder::new`, `case_insensitive`, `build` and `Regex::is_match` of
/// regex: whether the expression matches somewhere in the text, and nothing
/// where the expression cannot be built.
#[verifier::external_body]
fn regex_is_match(pattern: &str, ignore_case: bool, text: &str) -> (found: Option<bool>)
    ensures
        found == regex_match(pattern@, ignore_case, text@),
{
    match RegexBuilder::new(pattern).case_insensitive(ignore_case).build() {
        Ok(re) => Some(re.is_match(text)),
        Err(_) => None,
    }
}

/// `Path::file_name` of std, as bytes: the last component of the path where
/// it has one. How a path falls into components is the platform's matter, so
/// nothing is said of the result.
#[verifier::external_body]
fn path_file_name(path: &str) -> (name: Option<Vec<u8>>) {
    Path::new(path).file_name().map(|name| name.as_encoded_bytes().to_vec())
}

/// `Path::extension` of std, as bytes: what follows the last dot of the file
/// name where there is one. Nothing is said of the result, as for the file
/// name.
#[verifier::external_body]
fn path_extension(path: &str) -> (extension: Option<Vec<u8>>) {
    Path::new(path).extension().map(|extension| extension.as_encoded_bytes().to_vec())
}

/// The lower-case form of an ASCII letter, and every other byte as it is.
pub fn to_ascii_lower(b: u8) -> (lower: u8)
    ensures
        lower == ascii_lower(b),
{
    if 0x41 <= b && b <= 0x5A {
        b + 0x20
    } else {
        b
    }
}

/// Whether two names are the same but for the case of their ASCII letters.
pub fn names_match(a: &[u8], b: &[u8]) -> (same: bool)
    ensures
        same == same_ignoring_case(a@, b@),
{
    if a.len() != b.len() {
        return false;
    }
    let n = a.len();
    let mut i: usize = 0;
    while i < n
        invariant
            i <= n,
            n == a.len(),
            n == b.len(),
            forall|k: int| 0 <= k < i ==> ascii_lower(a@[k]) == ascii_lower(b@[k]),
        decreases n - i,
    {
        if to_ascii_lower(a[i]) != to_ascii_lower(b[i]) {
            return false;
        }
        i += 1;
    }
    true
}

/// Whether there is a name and it is `word` but for case.
fn option_matches(name: &Option<Vec<u8>>, word: &[u8]) -> (same: bool)
    ensures
        same == is_named(
            match name {
                Some(n) => Some(n@),
                None => None,
            },
            word@,
        ),
{
    match name {
        Some(n) => names_match(n.as_slice(), word),
        None => false,
    }
}

/// The kind that a name tells, from what the expression for a TMD found in
/// the path, and from the file name and the extension of the path.
pub fn classify_name(
    tmd_match: bool,
    file_name: &Option<Vec<u8>>,
    extension: &Option<Vec<u8>>,
) -> (kind: Option<WiiFileType>)
    ensures
        kind == kind_by_name(
            tmd_match,
            match file_name {
                Some(n) => Some(n@),
                None => None,
            },
            match extension {
                Some(n) => Some(n@),
                None => None,
            },
        ),
{
    let tmd_bin: [u8; 7] = [0x74, 0x6d, 0x64, 0x2e, 0x62, 0x69, 0x6e];
    let tmd: [u8; 3] = [0x74, 0x6d, 0x64];
    let tik: [u8; 3] = [0x74, 0x69, 0x6b];
    let ticket_bin: [u8; 10] = [0x74, 0x69, 0x63, 0x6b, 0x65, 0x74, 0x2e, 0x62, 0x69, 0x6e];
    let cetk: [u8; 4] = [0x63, 0x65, 0x74, 0x6b];
    let wad: [u8; 3] = [0x77, 0x61, 0x64];
    proof {
        assert(tmd_bin@ =~= word_tmd_bin());
        assert(tmd@ =~= word_tmd());
        assert(tik@ =~= word_tik());
        assert(ticket_bin@ =~= word_ticket_bin());
        assert(cetk@ =~= word_cetk());
        assert(wad@ =~= word_wad());
    }
    if tmd_match || option_matches(file_name, &tmd_bin) || option_matches(extension, &tmd) {
        Some(WiiFileType::Tmd)
    } else if option_matches(extension, &tik) || option_matches(file_name, &ticket_bin)
        || option_matches(file_name, &cetk) {
        Some(WiiFileType::Ticket)
    } else if option_matches(extension, &wad) {
        Some(WiiFileType::Wad)
    } else {
        None
    }
}

/// The kind of file that a path names. A path whose name tells nothing may
/// still be that of a WAD: `identify_magic` tells by the file's first bytes.
pub fn identify_file_type(input: &str) -> (kind: Option<WiiFileType>)
    ensures
        exists|file_name: Option<Seq<u8>>, extension: Option<Seq<u8>>|
            kind == #[trigger] kind_by_name(
                names_a_tmd(input@),
                file_name,
                extension,
            ),
        names_a_tmd(input@) ==> kind == Some(WiiFileType::Tmd),
{
    let tmd_match = match regex_is_match("tmd\\.?[0-9]*", true, input) {
        Some(found) => found,
        None => false,
    };
    let file_name = path_file_name(input);
    let extension = path_extension(input);
    let kind = classify_name(tmd_match, &file_name, &extension);
    proof {
        let f = match file_name {
            Some(n) => Some(n@),
            None => None,
        };
        let e = match extension {
            Some(n) => Some(n@),
            None => None,
        };
        assert(kind == kind_by_name(
            names_a_tmd(input@),
            f,
            e,
        ));
    }
    kind
}

/// The kind of file that its first bytes tell: a WAD where they are the
/// beginning of one.
pub fn identify_magic(data: &[u8]) -> (kind: Option<WiiFileType>)
    ensures
        kind == (if opens_as_wad(data@) {
            Some(WiiFileType::Wad)
        } else {
            None
        }),
{
    if data.len() >= 8 && data[0] == 0 && data[1] == 0 && data[2] == 0 && data[3] == 0x20 && ((
    data[4] == 0x49 && data[5] == 0x73) || (data[4] == 0x69 && data[5] == 0x62)) && data[6] == 0
        && data[7] == 0 {
        Some(WiiFileType::Wad)
    } else {
        None
    }
}

} // verus!
