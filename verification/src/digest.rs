//! SHA-1 digests, their hexadecimal form, and UTF-8 text taken from bytes.

use sha1::{Digest, Sha1};
use vstd::prelude::*;
use vstd::utf8::{decode_utf8, valid_utf8};

verus! {

/// The SHA-1 digest of a message: twenty bytes that depend on the message alone.
pub uninterp spec fn sha1_digest(data: Seq<u8>) -> Seq<u8>;

/// What `String::from_utf8_lossy` makes of a run of bytes: its text, with the
/// replacement character in place of each malformed stretch.
pub uninterp spec fn utf8_lossy(bytes: Seq<u8>) -> Seq<char>;

/// The lower-case hexadecimal digit of a value below sixteen.
pub open spec fn hex_digit(d: int) -> char
    recommends
        0 <= d < 16,
{
    if d < 10 {
        (48 + d) as char
    } else {
        (87 + d) as char
    }
}

/// Two lower-case hexadecimal digits for each byte, the high one first.
pub open spec fn hex_lower(bytes: Seq<u8>) -> Seq<char> {
    Seq::new(
        2 * bytes.len(),
        |i: int|
            if i % 2 == 0 {
                hex_digit(bytes[i / 2] as int / 16)
            } else {
                hex_digit(bytes[i / 2] as int % 16)
            },
    )
}

/// Whether a digest passes the console's flawed signature comparison, which
/// stops at the first zero byte: it does when its leading byte is zero.
pub open spec fn digest_passes(digest: Seq<u8>) -> bool
    recommends
        digest.len() == 20,
{
    digest[0] == 0
}

/// `Sha1::digest` of the sha1 crate: the SHA-1 digest of `data`, as twenty bytes.
#[verifier::external_body]
pub(crate) fn sha1(data: &[u8]) -> (out: [u8; 20])
    ensures
        out@ == sha1_digest(data@),
{
    Sha1::digest(data).into()
}

/// `hex::encode`: two lower-case hexadecimal digits for each byte of `bytes`.
#[verifier::external_body]
pub(crate) fn hex_encode(bytes: &[u8]) -> (out: String)
    ensures
        out@ == hex_lower(bytes@),
{
    hex::encode(bytes)
}

/// `core::str::from_utf8`, of which only success is kept: it succeeds on
/// well-formed UTF-8 and on nothing else.
#[verifier::external_body]
pub(crate) fn utf8_is_valid(bytes: &[u8]) -> (ok: bool)
    ensures
        ok == valid_utf8(bytes@),
{
    core::str::from_utf8(bytes).is_ok()
}

/// `String::from_utf8_lossy`: the text of `bytes`, which is their decoding where
/// they are well-formed UTF-8.
#[verifier::external_body]
pub(crate) fn utf8_lossy_string(bytes: &[u8]) -> (out: String)
    ensures
        out@ == utf8_lossy(bytes@),
        valid_utf8(bytes@) ==> out@ == decode_utf8(bytes@),
{
    String::from_utf8_lossy(bytes).into_owned()
}

/// Whether `digest` passes the console's flawed signature comparison.
pub fn passes_comparison(digest: &[u8; 20]) -> (ok: bool)
    ensures
        ok == digest_passes(digest@),
{
    digest[0] == 0
}

/// Whether two digests are the same twenty bytes.
pub fn same_digest(a: &[u8; 20], b: &[u8; 20]) -> (same: bool)
    ensures
        same == (a@ == b@),
{
    let mut i: usize = 0;
    while i < 20
        invariant
            i <= 20,
            forall|k: int| 0 <= k < i ==> a@[k] == b@[k],
        decreases 20 - i,
    {
        if a[i] != b[i] {
            return false;
        }
        i += 1;
    }
    assert(a@ =~= b@);
    true
}

} // verus!
