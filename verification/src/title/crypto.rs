//! AES-128-CBC as the console uses it: on title keys, with the title ID as the
//! initialisation vector, and on contents, with the content's index.

use crate::codec::{align_up, lemma_align_up, pad_to, read_array, u16_be, zeros};
use crate::title::commonkeys::CommonKeys;
use aes::cipher::block_padding::ZeroPadding;
use aes::cipher::{BlockDecryptMut, BlockEncryptMut, KeyIvInit};
use vstd::prelude::*;
use vstd::slice::slice_to_vec;

verus! {

/// The AES-128-CBC encryption of whole blocks under a key and an
/// initialisation vector.
pub uninterp spec fn aes128_cbc_encrypt(key: Seq<u8>, iv: Seq<u8>, data: Seq<u8>) -> Seq<u8>;

/// The AES-128-CBC decryption of whole blocks under a key and an
/// initialisation vector.
pub uninterp spec fn aes128_cbc_decrypt(key: Seq<u8>, iv: Seq<u8>, data: Seq<u8>) -> Seq<u8>;

/// The initialisation vector for a title key: the title ID, then eight zero
/// bytes.
pub open spec fn title_iv(title_id: Seq<u8>) -> Seq<u8> {
    title_id + zeros(8)
}

/// The initialisation vector for a content: its index in two bytes, most
/// significant first, then fourteen zero bytes.
pub open spec fn content_iv(index: u16) -> Seq<u8> {
    u16_be(index) + zeros(14)
}

/// What is encrypted for a content of declared size `size`: the first `size`
/// bytes of `data`, with zero bytes where `data` ends before, then zero bytes
/// up to a whole number of blocks.
pub open spec fn content_plain(data: Seq<u8>, size: int) -> Seq<u8> {
    Seq::new(
        align_up(size, 16) as nat,
        |i: int|
            if i < size && i < data.len() {
                data[i]
            } else {
                0u8
            },
    )
}

/// `Encryptor::<Aes128>::new` of cbc and `encrypt_padded_mut` of cipher, with
/// zero padding, on whole blocks: the buffer comes back encrypted in place,
/// as long as it was, and decrypts to what it held.
#[verifier::external_body]
fn cbc_encrypt(key: &[u8; 16], iv: &[u8; 16], data: Vec<u8>) -> (out: Vec<u8>)
    requires
        data@.len() % 16 == 0,
    ensures
        out@ == aes128_cbc_encrypt(key@, iv@, data@),
        out@.len() == data@.len(),
        aes128_cbc_decrypt(key@, iv@, out@) == data@,
{
    let mut buf = data;
    let len = buf.len();
    let cipher = cbc::Encryptor::<aes::Aes128>::new(key.into(), iv.into());
    cipher.encrypt_padded_mut::<ZeroPadding>(&mut buf, len).unwrap();
    buf
}

/// `Decryptor::<Aes128>::new` of cbc and `decrypt_padded_mut` of cipher, with
/// zero padding, on whole blocks: the buffer comes back decrypted in place, as
/// long as it was. What the outside function strips of zero bytes is the slice
/// that it returns, which is not used.
#[verifier::external_body]
fn cbc_decrypt(key: &[u8; 16], iv: &[u8; 16], data: Vec<u8>) -> (out: Vec<u8>)
    requires
        data@.len() % 16 == 0,
    ensures
        out@ == aes128_cbc_decrypt(key@, iv@, data@),
        out@.len() == data@.len(),
{
    let mut buf = data;
    let cipher = cbc::Decryptor::<aes::Aes128>::new(key.into(), iv.into());
    cipher.decrypt_padded_mut::<ZeroPadding>(&mut buf).unwrap();
    buf
}

/// The initialisation vector for a title key.
pub fn title_id_to_iv(title_id: [u8; 8]) -> (iv: [u8; 16])
    ensures
        iv@ == title_iv(title_id@),
{
    let mut iv = [0u8; 16];
    let mut i: usize = 0;
    while i < 8
        invariant
            i <= 8,
            forall|k: int| 0 <= k < i ==> iv@[k] == title_id@[k],
            forall|k: int| i <= k < 16 ==> iv@[k] == 0,
        decreases 8 - i,
    {
        iv[i] = title_id[i];
        i += 1;
    }
    assert(iv@ =~= title_iv(title_id@));
    iv
}

/// The initialisation vector for the content with index `index`.
pub fn index_to_iv(index: u16) -> (iv: [u8; 16])
    ensures
        iv@ == content_iv(index),
{
    let mut iv = [0u8; 16];
    iv[0] = (index / 0x100) as u8;
    iv[1] = (index % 0x100) as u8;
    assert(iv@ =~= content_iv(index));
    iv
}

/// The title key that `title_key_enc` holds.
pub open spec fn spec_decrypt_title_key(
    title_key_enc: Seq<u8>,
    keys: CommonKeys,
    common_key_index: u8,
    title_id: Seq<u8>,
    is_dev: bool,
) -> Seq<u8> {
    aes128_cbc_decrypt(
        keys.spec_get(common_key_index, is_dev)@,
        title_iv(title_id),
        title_key_enc,
    )
}

/// The title key `title_key_dec` as a ticket holds it.
pub open spec fn spec_encrypt_title_key(
    title_key_dec: Seq<u8>,
    keys: CommonKeys,
    common_key_index: u8,
    title_id: Seq<u8>,
    is_dev: bool,
) -> Seq<u8> {
    aes128_cbc_encrypt(
        keys.spec_get(common_key_index, is_dev)@,
        title_iv(title_id),
        title_key_dec,
    )
}

/// Unwraps a title key with the common key that the index selects.
pub fn decrypt_title_key(
    title_key_enc: [u8; 16],
    keys: &CommonKeys,
    common_key_index: u8,
    title_id: [u8; 8],
    is_dev: bool,
) -> (title_key: [u8; 16])
    ensures
        title_key@ == spec_decrypt_title_key(
            title_key_enc@,
            *keys,
            common_key_index,
            title_id@,
            is_dev,
        ),
{
    let iv = title_id_to_iv(title_id);
    let key = keys.get_common_key(common_key_index, is_dev);
    let out = cbc_decrypt(&key, &iv, slice_to_vec(&title_key_enc));
    let title_key = read_array::<16>(out.as_slice(), 0);
    assert(out@.subrange(0, 16) == out@);
    title_key
}

/// Wraps a title key with the common key that the index selects. Unwrapping
/// the result with the same index, title ID and kind of ticket gives the key
/// back.
pub fn encrypt_title_key(
    title_key_dec: [u8; 16],
    keys: &CommonKeys,
    common_key_index: u8,
    title_id: [u8; 8],
    is_dev: bool,
) -> (title_key: [u8; 16])
    ensures
        title_key@ == spec_encrypt_title_key(
            title_key_dec@,
            *keys,
            common_key_index,
            title_id@,
            is_dev,
        ),
        spec_decrypt_title_key(title_key@, *keys, common_key_index, title_id@, is_dev)
            == title_key_dec@,
{
    let iv = title_id_to_iv(title_id);
    let key = keys.get_common_key(common_key_index, is_dev);
    let out = cbc_encrypt(&key, &iv, slice_to_vec(&title_key_dec));
    let title_key = read_array::<16>(out.as_slice(), 0);
    assert(out@.subrange(0, 16) == out@);
    title_key
}

/// Decrypts a content with the title key; the index of the content gives the
/// initialisation vector. The data is a whole number of blocks.
pub fn decrypt_content(data: &[u8], title_key: [u8; 16], index: u16) -> (out: Vec<u8>)
    requires
        data@.len() % 16 == 0,
    ensures
        out@ == aes128_cbc_decrypt(title_key@, content_iv(index), data@),
        out@.len() == data@.len(),
{
    let iv = index_to_iv(index);
    cbc_decrypt(&title_key, &iv, slice_to_vec(data))
}

/// Encrypts a content with the title key; the index of the content gives the
/// initialisation vector. The data is cut or filled with zero bytes to `size`
/// and then to a whole number of blocks. Decrypting the result with the same
/// key and index gives those blocks back.
pub fn encrypt_content(data: &[u8], title_key: [u8; 16], index: u16, size: u64) -> (out: Vec<u8>)
    ensures
        out@ == aes128_cbc_encrypt(
            title_key@,
            content_iv(index),
            content_plain(data@, size as int),
        ),
        out@.len() == align_up(size as int, 16),
        aes128_cbc_decrypt(title_key@, content_iv(index), out@) == content_plain(
            data@,
            size as int,
        ),
{
    let iv = index_to_iv(index);
    let mut plain: Vec<u8> = Vec::new();
    let mut i: usize = 0;
    while i < data.len() && (i as u64) < size
        invariant
            i <= data.len(),
            i <= size,
            plain@ == data@.subrange(0, i as int),
        decreases data.len() - i,
    {
        plain.push(data[i]);
        i += 1;
    }
    let ghost kept = plain@;
    while (plain.len() as u64) < size
        invariant
            kept.len() <= plain@.len() <= size,
            plain@ == kept + zeros(plain@.len() - kept.len()),
        decreases size - plain@.len(),
    {
        plain.push(0u8);
    }
    pad_to(&mut plain, 16);
    proof {
        lemma_align_up(size as int, 16);
        assert(plain@ =~= content_plain(data@, size as int));
    }
    cbc_encrypt(&title_key, &iv, plain)
}

} // verus!
