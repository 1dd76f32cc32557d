//! Certificates and the chain of them that comes with a title: who signed
//! what, and with which key.

use crate::codec::{
    be_u32, contains_bytes, lemma_subrange_join, lemma_u32_bytes, occurs_in, put_bytes, put_u32,
    read_array, read_u32_at, read_vec, trimmed_len, trimmed_length, u32_be,
};
use crate::digest::{sha1, sha1_digest, utf8_lossy, utf8_lossy_string};
use crate::title::ticket::Ticket;
use crate::title::tmd::{TMD, BODY_OFFSET};
use rsa::{BigUint, Pkcs1v15Sign, RsaPublicKey};
use sha1::Sha1;
use vstd::prelude::*;
use vstd::slice::slice_subrange;

verus! {

#[derive(Debug, Clone, Copy, PartialEq, Eq, Structural)]
pub enum CertificateError {
    /// The signature is of a type that does not exist.
    InvalidSignatureType(u32),
    /// The public key is of a type that does not exist.
    InvalidKeyType(u32),
    /// The certificate is not the one that signed what it is held against.
    IncorrectCertificate,
    /// The chain holds no certificate for the role.
    MissingCertificate,
    /// The certificate holds a key that cannot verify the signature.
    UnsupportedKeyType,
    /// The data ends before the certificate does.
    IO,
}

/// The kind of key that signs a certificate, or that a certificate holds.
#[derive(Debug, Clone, Copy, PartialEq, Eq, Structural)]
pub enum CertificateKeyType {
    Rsa4096,
    Rsa2048,
    ECC,
}

/// One certificate: a signature, the name of who gave it, and the key and
/// name of who it is for.
#[derive(Debug)]
pub struct Certificate {
    pub signer_key_type: CertificateKeyType,
    pub signature: Vec<u8>,
    pub signature_padding: Vec<u8>,
    pub signature_issuer: [u8; 64],
    pub pub_key_type: CertificateKeyType,
    pub child_cert_identity: [u8; 64],
    pub pub_key_id: u32,
    /// The modulus of an RSA key, or the whole of an ECC key.
    pub pub_key_modulus: Vec<u8>,
    /// The exponent of an RSA key; an ECC key has none, and 0 stands here.
    pub pub_key_exponent: u32,
    pub key_padding: Vec<u8>,
}

/// Certificates in the order in which a title holds them.
#[derive(Debug)]
pub struct CertificateChain {
    pub certs: Vec<Certificate>,
}

/// The key type that a signature type names, if it names one.
pub open spec fn signature_kind(code: u32) -> Option<CertificateKeyType> {
    if code == 0x0001_0000 {
        Some(CertificateKeyType::Rsa4096)
    } else if code == 0x0001_0001 {
        Some(CertificateKeyType::Rsa2048)
    } else if code == 0x0001_0002 {
        Some(CertificateKeyType::ECC)
    } else {
        None
    }
}

/// The key type that a key type field names, if it names one.
pub open spec fn key_kind(code: u32) -> Option<CertificateKeyType> {
    if code == 0 {
        Some(CertificateKeyType::Rsa4096)
    } else if code == 1 {
        Some(CertificateKeyType::Rsa2048)
    } else if code == 2 {
        Some(CertificateKeyType::ECC)
    } else {
        None
    }
}

impl CertificateKeyType {
    /// The number of a signature of this kind.
    pub open spec fn spec_signature_code(self) -> u32 {
        match self {
            CertificateKeyType::Rsa4096 => 0x0001_0000,
            CertificateKeyType::Rsa2048 => 0x0001_0001,
            CertificateKeyType::ECC => 0x0001_0002,
        }
    }

    /// The number of a key of this kind.
    pub open spec fn spec_key_code(self) -> u32 {
        match self {
            CertificateKeyType::Rsa4096 => 0,
            CertificateKeyType::Rsa2048 => 1,
            CertificateKeyType::ECC => 2,
        }
    }

    /// The length of a signature of this kind, which is also the length of
    /// the modulus or key of this kind.
    pub open spec fn spec_len(self) -> int {
        match self {
            CertificateKeyType::Rsa4096 => 512,
            CertificateKeyType::Rsa2048 => 256,
            CertificateKeyType::ECC => 60,
        }
    }

    /// The length of the padding after a signature of this kind, which
    /// brings what follows to a 64-byte boundary.
    pub open spec fn spec_signature_padding(self) -> int {
        match self {
            CertificateKeyType::ECC => 64,
            _ => 60,
        }
    }

    /// The length of the padding after a key of this kind, which brings the
    /// end of the certificate to a 64-byte boundary.
    pub open spec fn spec_key_padding(self) -> int {
        match self {
            CertificateKeyType::ECC => 60,
            _ => 52,
        }
    }

    /// Whether a key of this kind has an exponent.
    pub open spec fn spec_is_rsa(self) -> bool {
        self != CertificateKeyType::ECC
    }

    /// The number of a signature of this kind.
    pub fn signature_code(&self) -> (code: u32)
        ensures
            code == self.spec_signature_code(),
            signature_kind(code) == Some(*self),
    {
        match self {
            CertificateKeyType::Rsa4096 => 0x0001_0000,
            CertificateKeyType::Rsa2048 => 0x0001_0001,
            CertificateKeyType::ECC => 0x0001_0002,
        }
    }

    /// The number of a key of this kind.
    pub fn key_code(&self) -> (code: u32)
        ensures
            code == self.spec_key_code(),
            key_kind(code) == Some(*self),
    {
        match self {
            CertificateKeyType::Rsa4096 => 0,
            CertificateKeyType::Rsa2048 => 1,
            CertificateKeyType::ECC => 2,
        }
    }

    /// The length of a signature, a modulus or a key of this kind.
    pub fn len(&self) -> (len: usize)
        ensures
            len == self.spec_len(),
    {
        match self {
            CertificateKeyType::Rsa4096 => 512,
            CertificateKeyType::Rsa2048 => 256,
            CertificateKeyType::ECC => 60,
        }
    }

    /// The length of the padding after a signature of this kind.
    pub fn signature_padding(&self) -> (len: usize)
        ensures
            len == self.spec_signature_padding(),
    {
        match self {
            CertificateKeyType::ECC => 64,
            _ => 60,
        }
    }

    /// The length of the padding after a key of this kind.
    pub fn key_padding(&self) -> (len: usize)
        ensures
            len == self.spec_key_padding(),
    {
        match self {
            CertificateKeyType::ECC => 60,
            _ => 52,
        }
    }

    /// Whether a key of this kind has an exponent.
    pub fn is_rsa(&self) -> (rsa: bool)
        ensures
            rsa == self.spec_is_rsa(),
    {
        match self {
            CertificateKeyType::ECC => false,
            _ => true,
        }
    }

    /// The key type that a signature type names, if it names one.
    pub fn from_signature_code(code: u32) -> (kind: Option<CertificateKeyType>)
        ensures
            kind == signature_kind(code),
    {
        if code == 0x0001_0000 {
            Some(CertificateKeyType::Rsa4096)
        } else if code == 0x0001_0001 {
            Some(CertificateKeyType::Rsa2048)
        } else if code == 0x0001_0002 {
            Some(CertificateKeyType::ECC)
        } else {
            None
        }
    }

    /// The key type that a key type field names, if it names one.
    pub fn from_key_code(code: u32) -> (kind: Option<CertificateKeyType>)
        ensures
            kind == key_kind(code),
    {
        if code == 0 {
            Some(CertificateKeyType::Rsa4096)
        } else if code == 1 {
            Some(CertificateKeyType::Rsa2048)
        } else if code == 2 {
            Some(CertificateKeyType::ECC)
        } else {
            None
        }
    }
}

/// The length of the signature block of a certificate signed with a key of
/// kind `signer`: type, signature, padding.
pub open spec fn signature_block_len(signer: CertificateKeyType) -> int {
    4 + signer.spec_len() + signer.spec_signature_padding()
}

/// The length of what follows the key type in a certificate that holds a key
/// of kind `key`: the name, the key ID, the key with its exponent where it has
/// one, and the padding.
pub open spec fn key_block_len(key: CertificateKeyType) -> int {
    64 + 4 + key.spec_len() + (if key.spec_is_rsa() {
        4int
    } else {
        0int
    }) + key.spec_key_padding()
}

/// Why no certificate stands in `data` at offset `at`, if none does.
pub open spec fn cert_error(data: Seq<u8>, at: int) -> Option<CertificateError> {
    if data.len() < at + 4 {
        Some(CertificateError::IO)
    } else {
        match signature_kind(be_u32(data.subrange(at, at + 4))) {
            None => Some(CertificateError::InvalidSignatureType(be_u32(data.subrange(at, at + 4)))),
            Some(signer) => {
                let body = at + signature_block_len(signer);
                if data.len() < body + 68 {
                    Some(CertificateError::IO)
                } else {
                    match key_kind(be_u32(data.subrange(body + 64, body + 68))) {
                        None => Some(
                            CertificateError::InvalidKeyType(
                                be_u32(data.subrange(body + 64, body + 68)),
                            ),
                        ),
                        Some(key) => if data.len() < body + 68 + key_block_len(key) {
                            Some(CertificateError::IO)
                        } else {
                            None
                        },
                    }
                }
            },
        }
    }
}

/// The length of the certificate that stands in `data` at offset `at`.
pub open spec fn cert_len_at(data: Seq<u8>, at: int) -> int {
    let signer = signature_kind(be_u32(data.subrange(at, at + 4)))->0;
    let body = at + signature_block_len(signer);
    let key = key_kind(be_u32(data.subrange(body + 64, body + 68)))->0;
    signature_block_len(signer) + 68 + key_block_len(key)
}

/// Whether a name stands in an issuer field: the field holds the name
/// without the zero bytes at its end somewhere in it.
pub open spec fn names(field: Seq<u8>, name: Seq<u8>) -> bool {
    occurs_in(field, name.subrange(0, trimmed_len(name)))
}

/// Whether the bytes of `word` stand somewhere in a name.
pub open spec fn holds_word(name: Seq<u8>, word: Seq<u8>) -> bool {
    occurs_in(name, word)
}

/// `CA`
pub open spec fn word_ca() -> Seq<u8> {
    seq![0x43u8, 0x41]
}

/// `CP`
pub open spec fn word_cp() -> Seq<u8> {
    seq![0x43u8, 0x50]
}

/// `XS`
pub open spec fn word_xs() -> Seq<u8> {
    seq![0x58u8, 0x53]
}

/// `Root`
pub open spec fn word_root() -> Seq<u8> {
    seq![0x52u8, 0x6f, 0x6f, 0x74]
}

impl Certificate {
    /// Whether signature, paddings and key are as long as their kinds say.
    pub open spec fn wf(&self) -> bool {
        &&& self.signature@.len() == self.signer_key_type.spec_len()
        &&& self.signature_padding@.len() == self.signer_key_type.spec_signature_padding()
        &&& self.pub_key_modulus@.len() == self.pub_key_type.spec_len()
        &&& self.key_padding@.len() == self.pub_key_type.spec_key_padding()
    }

    /// The length of the binary form.
    pub open spec fn spec_len(&self) -> int {
        signature_block_len(self.signer_key_type) + 68 + key_block_len(self.pub_key_type)
    }

    /// The part of the binary form that the signature covers: all from the
    /// issuer's name on.
    pub open spec fn spec_signed_body(&self) -> Seq<u8> {
        self.signature_issuer@ + u32_be(self.pub_key_type.spec_key_code())
            + self.child_cert_identity@ + u32_be(self.pub_key_id) + self.pub_key_modulus@ + (
        if self.pub_key_type.spec_is_rsa() {
            u32_be(self.pub_key_exponent)
        } else {
            Seq::<u8>::empty()
        }) + self.key_padding@
    }

    /// The binary form.
    pub open spec fn spec_to_bytes(&self) -> Seq<u8> {
        u32_be(self.signer_key_type.spec_signature_code()) + self.signature@
            + self.signature_padding@ + self.spec_signed_body()
    }

    /// Whether each field holds what stands at its place in `data`, from
    /// offset `at` on.
    pub open spec fn reads_from(&self, data: Seq<u8>, at: int) -> bool {
        let body = at + signature_block_len(self.signer_key_type);
        let key = body + 136;
        let tail = key + self.pub_key_type.spec_len();
        &&& Some(self.signer_key_type) == signature_kind(be_u32(data.subrange(at, at + 4)))
        &&& self.signature@ == data.subrange(at + 4, at + 4 + self.signer_key_type.spec_len())
        &&& self.signature_padding@ == data.subrange(
            at + 4 + self.signer_key_type.spec_len(),
            body,
        )
        &&& self.signature_issuer@ == data.subrange(body, body + 64)
        &&& Some(self.pub_key_type) == key_kind(be_u32(data.subrange(body + 64, body + 68)))
        &&& self.child_cert_identity@ == data.subrange(body + 68, body + 132)
        &&& self.pub_key_id == be_u32(data.subrange(body + 132, body + 136))
        &&& self.pub_key_modulus@ == data.subrange(key, tail)
        &&& if self.pub_key_type.spec_is_rsa() {
            &&& self.pub_key_exponent == be_u32(data.subrange(tail, tail + 4))
            &&& self.key_padding@ == data.subrange(
                tail + 4,
                tail + 4 + self.pub_key_type.spec_key_padding(),
            )
        } else {
            &&& self.pub_key_exponent == 0
            &&& self.key_padding@ == data.subrange(
                tail,
                tail + self.pub_key_type.spec_key_padding(),
            )
        }
    }

    /// Whether the certificate is that of a certificate authority: `Root`
    /// gave it, and its name holds `CA`.
    pub open spec fn spec_is_ca(&self) -> bool {
        self.signature_issuer@.subrange(0, trimmed_len(self.signature_issuer@)) == word_root()
            && holds_word(self.child_cert_identity@, word_ca())
    }

    /// Whether the certificate is one that signs TMDs: its name holds `CP`.
    pub open spec fn spec_signs_tmds(&self) -> bool {
        holds_word(self.child_cert_identity@, word_cp())
    }

    /// Whether the certificate is one that signs tickets: its name holds `XS`.
    pub open spec fn spec_signs_tickets(&self) -> bool {
        holds_word(self.child_cert_identity@, word_xs())
    }

    /// Whether an issuer field names this certificate.
    pub open spec fn named_by(&self, issuer: Seq<u8>) -> bool {
        names(issuer, self.child_cert_identity@)
    }

    /// Reads the certificate that stands in `data` at offset `at`.
    pub fn from_bytes_at(data: &[u8], at: usize) -> (r: Result<Certificate, CertificateError>)
        requires
            at <= data.len(),
        ensures
            match r {
                Ok(cert) => cert_error(data@, at as int) is None && cert.reads_from(
                    data@,
                    at as int,
                ) && cert.wf() && cert.spec_len() == cert_len_at(data@, at as int) && at
                    + cert.spec_len() <= data@.len(),
                Err(e) => cert_error(data@, at as int) == Some(e),
            },
    {
        let len = data.len();
        if len - at < 4 {
            return Err(CertificateError::IO);
        }
        let signature_type = read_u32_at(data, at);
        let signer_key_type = match CertificateKeyType::from_signature_code(signature_type) {
            Some(kind) => kind,
            None => {
                return Err(CertificateError::InvalidSignatureType(signature_type));
            },
        };
        let block = 4 + signer_key_type.len() + signer_key_type.signature_padding();
        if len - at < block + 68 {
            return Err(CertificateError::IO);
        }
        let body = at + block;
        let signature = read_vec(data, at + 4, signer_key_type.len());
        let signature_padding = read_vec(
            data,
            at + 4 + signer_key_type.len(),
            signer_key_type.signature_padding(),
        );
        let signature_issuer = read_array::<64>(data, body);
        let key_type = read_u32_at(data, body + 64);
        let pub_key_type = match CertificateKeyType::from_key_code(key_type) {
            Some(kind) => kind,
            None => {
                return Err(CertificateError::InvalidKeyType(key_type));
            },
        };
        let exponent_len: usize = if pub_key_type.is_rsa() {
            4
        } else {
            0
        };
        let key_block = 68 + pub_key_type.len() + exponent_len + pub_key_type.key_padding();
        if len - body - 68 < key_block {
            return Err(CertificateError::IO);
        }
        let child_cert_identity = read_array::<64>(data, body + 68);
        let pub_key_id = read_u32_at(data, body + 132);
        let key = body + 136;
        let tail = key + pub_key_type.len();
        let pub_key_modulus = read_vec(data, key, pub_key_type.len());
        let pub_key_exponent = if pub_key_type.is_rsa() {
            read_u32_at(data, tail)
        } else {
            0
        };
        let key_padding = read_vec(data, tail + exponent_len, pub_key_type.key_padding());
        Ok(
            Certificate {
                signer_key_type,
                signature,
                signature_padding,
                signature_issuer,
                pub_key_type,
                child_cert_identity,
                pub_key_id,
                pub_key_modulus,
                pub_key_exponent,
                key_padding,
            },
        )
    }

    /// Reads a certificate from its binary form. Bytes after it are not
    /// looked at.
    pub fn from_bytes(data: &[u8]) -> (r: Result<Certificate, CertificateError>)
        ensures
            match r {
                Ok(cert) => cert_error(data@, 0) is None && cert.reads_from(data@, 0) && cert.wf(),
                Err(e) => cert_error(data@, 0) == Some(e),
            },
    {
        Certificate::from_bytes_at(data, 0)
    }

    /// Appends the part that the signature covers.
    fn put_signed_body(&self, buf: &mut Vec<u8>)
        ensures
            final(buf)@ == old(buf)@ + self.spec_signed_body(),
    {
        let ghost start = buf@;
        put_bytes(buf, &self.signature_issuer);
        put_u32(buf, self.pub_key_type.key_code());
        put_bytes(buf, &self.child_cert_identity);
        put_u32(buf, self.pub_key_id);
        put_bytes(buf, self.pub_key_modulus.as_slice());
        let ghost before = buf@;
        if self.pub_key_type.is_rsa() {
            put_u32(buf, self.pub_key_exponent);
        } else {
            assert(buf@ =~= before + Seq::<u8>::empty());
        }
        put_bytes(buf, self.key_padding.as_slice());
        assert(buf@ =~= start + self.spec_signed_body());
    }

    /// Writes the binary form.
    pub fn to_bytes(&self) -> (out: Vec<u8>)
        ensures
            out@ == self.spec_to_bytes(),
    {
        let mut buf: Vec<u8> = Vec::new();
        put_u32(&mut buf, self.signer_key_type.signature_code());
        put_bytes(&mut buf, self.signature.as_slice());
        put_bytes(&mut buf, self.signature_padding.as_slice());
        self.put_signed_body(&mut buf);
        buf
    }

    /// The SHA-1 digest of the part that the signature covers.
    pub fn signed_digest(&self) -> (digest: [u8; 20])
        ensures
            digest@ == sha1_digest(self.spec_signed_body()),
    {
        let mut buf: Vec<u8> = Vec::new();
        self.put_signed_body(&mut buf);
        assert(buf@ =~= self.spec_signed_body());
        sha1(buf.as_slice())
    }

    /// Whether the certificate is that of a certificate authority.
    pub fn is_ca(&self) -> (ca: bool)
        ensures
            ca == self.spec_is_ca(),
    {
        let n = trimmed_length(&self.signature_issuer);
        let root: [u8; 4] = [0x52, 0x6f, 0x6f, 0x74];
        let ca: [u8; 2] = [0x43, 0x41];
        proof {
            assert(root@ =~= word_root());
            assert(ca@ =~= word_ca());
        }
        if n != 4 {
            return false;
        }
        let same = self.signature_issuer[0] == root[0] && self.signature_issuer[1] == root[1]
            && self.signature_issuer[2] == root[2] && self.signature_issuer[3] == root[3];
        proof {
            let name = self.signature_issuer@.subrange(0, 4);
            if same {
                assert(name =~= word_root());
            } else {
                assert(name[0] == self.signature_issuer@[0] && name[1] == self.signature_issuer@[1]
                    && name[2] == self.signature_issuer@[2] && name[3]
                    == self.signature_issuer@[3]);
                assert(word_root()[0] == 0x52 && word_root()[1] == 0x6f && word_root()[2] == 0x6f
                    && word_root()[3] == 0x74);
                assert(name != word_root());
            }
        }
        same && contains_bytes(&self.child_cert_identity, &ca)
    }

    /// Whether the certificate is one that signs TMDs.
    pub fn signs_tmds(&self) -> (yes: bool)
        ensures
            yes == self.spec_signs_tmds(),
    {
        let cp: [u8; 2] = [0x43, 0x50];
        assert(cp@ =~= word_cp());
        contains_bytes(&self.child_cert_identity, &cp)
    }

    /// Whether the certificate is one that signs tickets.
    pub fn signs_tickets(&self) -> (yes: bool)
        ensures
            yes == self.spec_signs_tickets(),
    {
        let xs: [u8; 2] = [0x58, 0x53];
        assert(xs@ =~= word_xs());
        contains_bytes(&self.child_cert_identity, &xs)
    }

    /// Whether an issuer field names this certificate: the certificate's name
    /// stands somewhere in the field.
    pub fn is_named_by(&self, issuer: &[u8; 64]) -> (named: bool)
        ensures
            named == self.named_by(issuer@),
    {
        let n = trimmed_length(&self.child_cert_identity);
        contains_bytes(issuer, slice_subrange(self.child_cert_identity.as_slice(), 0, n))
    }

    /// The name of who gave the certificate, as text.
    pub fn signature_issuer(&self) -> (name: String)
        ensures
            name@ == utf8_lossy(
                self.signature_issuer@.subrange(0, trimmed_len(self.signature_issuer@)),
            ),
    {
        let len = trimmed_length(&self.signature_issuer);
        utf8_lossy_string(slice_subrange(self.signature_issuer.as_slice(), 0, len))
    }

    /// The name of who the certificate is for, as text.
    pub fn child_cert_identity(&self) -> (name: String)
        ensures
            name@ == utf8_lossy(
                self.child_cert_identity@.subrange(0, trimmed_len(self.child_cert_identity@)),
            ),
    {
        let len = trimmed_length(&self.child_cert_identity);
        utf8_lossy_string(slice_subrange(self.child_cert_identity.as_slice(), 0, len))
    }
}

/// Whether an RSA key, given by modulus and exponent, accepts a signature
/// over a SHA-1 digest as PKCS#1 v1.5 lays it down; nothing where modulus
/// and exponent make no key.
pub uninterp spec fn rsa_sha1_accepts(
    modulus: Seq<u8>,
    exponent: u32,
    digest: Seq<u8>,
    signature: Seq<u8>,
) -> Option<bool>;

/// What a verification comes to: the signature holds where there is a key
/// and the key accepts it.
pub open spec fn spec_verdict(outcome: Option<bool>) -> bool {
    outcome == Some(true)
}

/// What verifying a signature over `body` with the key of `cert` gives, for
/// something whose issuer field is `issuer`: an error where the field does
/// not name the certificate or the certificate holds no RSA key, and else
/// whether the key accepts the signature.
pub open spec fn verification(
    cert: Certificate,
    issuer: Seq<u8>,
    body: Seq<u8>,
    signature: Seq<u8>,
) -> Result<bool, CertificateError> {
    if !cert.named_by(issuer) {
        Err(CertificateError::IncorrectCertificate)
    } else if !cert.pub_key_type.spec_is_rsa() {
        Err(CertificateError::UnsupportedKeyType)
    } else {
        Ok(
            spec_verdict(
                rsa_sha1_accepts(
                    cert.pub_key_modulus@,
                    cert.pub_key_exponent,
                    sha1_digest(body),
                    signature,
                ),
            ),
        )
    }
}

/// `RsaPublicKey::new` and `RsaPublicKey::verify` of rsa, with the scheme
/// `Pkcs1v15Sign::new::<Sha1>()`: whether the key of the given modulus and
/// exponent accepts the signature over the digest, and nothing where the
/// outside crate refuses to make a key of them.
#[verifier::external_body]
fn rsa_sha1_verify(modulus: &[u8], exponent: u32, digest: &[u8; 20], signature: &[u8]) -> (r:
    Option<bool>)
    ensures
        r == rsa_sha1_accepts(modulus@, exponent, digest@, signature@),
{
    match RsaPublicKey::new(BigUint::from_bytes_be(modulus), BigUint::from(exponent)) {
        Ok(key) => Some(key.verify(Pkcs1v15Sign::new::<Sha1>(), digest, signature).is_ok()),
        Err(_) => None,
    }
}

/// What a verification comes to.
pub fn verdict(outcome: Option<bool>) -> (holds: bool)
    ensures
        holds == spec_verdict(outcome),
{
    match outcome {
        Some(accepted) => accepted,
        None => false,
    }
}

impl Certificate {
    /// Verifies a signature over a digest with the key of this certificate,
    /// for something that names its issuer in `issuer`.
    fn verify_digest(&self, issuer: &[u8; 64], digest: &[u8; 20], signature: &[u8]) -> (r: Result<
        bool,
        CertificateError,
    >)
        ensures
            !self.named_by(issuer@) ==> r == Err::<bool, CertificateError>(
                CertificateError::IncorrectCertificate,
            ),
            self.named_by(issuer@) && !self.pub_key_type.spec_is_rsa() ==> r == Err::<
                bool,
                CertificateError,
            >(CertificateError::UnsupportedKeyType),
            self.named_by(issuer@) && self.pub_key_type.spec_is_rsa() ==> r == Ok::<
                bool,
                CertificateError,
            >(
                spec_verdict(
                    rsa_sha1_accepts(
                        self.pub_key_modulus@,
                        self.pub_key_exponent,
                        digest@,
                        signature@,
                    ),
                ),
            ),
    {
        if !self.is_named_by(issuer) {
            return Err(CertificateError::IncorrectCertificate);
        }
        if !self.pub_key_type.is_rsa() {
            return Err(CertificateError::UnsupportedKeyType);
        }
        Ok(
            verdict(
                rsa_sha1_verify(
                    self.pub_key_modulus.as_slice(),
                    self.pub_key_exponent,
                    digest,
                    signature,
                ),
            ),
        )
    }
}

/// Whether `parent` signed `child`. The child must name the parent as its
/// issuer, and the parent must hold an RSA key.
pub fn verify_child_cert(parent: &Certificate, child: &Certificate) -> (r: Result<
    bool,
    CertificateError,
>)
    ensures
        r == verification(
            *parent,
            child.signature_issuer@,
            child.spec_signed_body(),
            child.signature@,
        ),
{
    let digest = child.signed_digest();
    parent.verify_digest(&child.signature_issuer, &digest, child.signature.as_slice())
}

/// Whether `cert` signed the TMD. The TMD must name the certificate as its
/// issuer, and the certificate must hold an RSA key.
pub fn verify_tmd(cert: &Certificate, tmd: &TMD) -> (r: Result<bool, CertificateError>)
    ensures
        r == verification(*cert, tmd.signature_issuer@, tmd.spec_signed_body(), tmd.signature@),
{
    let bytes = tmd.to_bytes();
    let digest = sha1(slice_subrange(bytes.as_slice(), BODY_OFFSET, bytes.len()));
    cert.verify_digest(&tmd.signature_issuer, &digest, &tmd.signature)
}

/// Whether `cert` signed the ticket. The ticket must name the certificate as
/// its issuer, and the certificate must hold an RSA key.
pub fn verify_ticket(cert: &Certificate, ticket: &Ticket) -> (r: Result<bool, CertificateError>)
    ensures
        r == verification(
            *cert,
            ticket.signature_issuer@,
            ticket.spec_signed_body(),
            ticket.signature@,
        ),
{
    let bytes = ticket.to_bytes();
    let digest = sha1(slice_subrange(bytes.as_slice(), BODY_OFFSET, bytes.len()));
    cert.verify_digest(&ticket.signature_issuer, &digest, &ticket.signature)
}

/// A certificate is longer than the fields that say how long it is.
pub proof fn lemma_cert_len(data: Seq<u8>, at: int)
    requires
        cert_error(data, at) is None,
    ensures
        cert_len_at(data, at) >= 324,
        at + cert_len_at(data, at) <= data.len(),
{
}

/// Where certificate `k` of a chain begins.
pub open spec fn cert_offset(data: Seq<u8>, k: int) -> int
    decreases k,
{
    if k <= 0 {
        0
    } else {
        cert_offset(data, k - 1) + cert_len_at(data, cert_offset(data, k - 1))
    }
}

/// Why the data from offset `at` on is no run of certificates, if it is none.
pub open spec fn chain_error(data: Seq<u8>, at: int) -> Option<CertificateError>
    decreases data.len() - at,
{
    if at < 0 || at >= data.len() {
        None
    } else if cert_error(data, at) is Some {
        cert_error(data, at)
    } else {
        proof {
            lemma_cert_len(data, at);
        }
        chain_error(data, at + cert_len_at(data, at))
    }
}

/// The bytes of the first `k` of a list of certificates, one after the
/// other.
pub open spec fn chain_bytes(certs: Seq<Certificate>, k: int) -> Seq<u8>
    decreases k,
{
    if k <= 0 {
        Seq::<u8>::empty()
    } else {
        chain_bytes(certs, k - 1) + certs[k - 1].spec_to_bytes()
    }
}

/// The roles that the certificates of a title play.
#[derive(Debug, Clone, Copy, PartialEq, Eq, Structural)]
pub enum CertificateRole {
    /// The certificate authority, which signs the other two.
    Authority,
    /// The certificate that signs TMDs.
    TMDSigner,
    /// The certificate that signs tickets.
    TicketSigner,
}

/// Whether a certificate plays a role, which its name tells.
pub open spec fn plays(cert: Certificate, role: CertificateRole) -> bool {
    match role {
        CertificateRole::Authority => cert.spec_is_ca(),
        CertificateRole::TMDSigner => cert.spec_signs_tmds(),
        CertificateRole::TicketSigner => cert.spec_signs_tickets(),
    }
}

/// The position of the first certificate from `from` on that plays the role,
/// or the number of certificates where none does.
pub open spec fn role_position(certs: Seq<Certificate>, role: CertificateRole, from: int) -> int
    decreases certs.len() - from,
{
    if from < 0 || from >= certs.len() {
        certs.len() as int
    } else if plays(certs[from], role) {
        from
    } else {
        role_position(certs, role, from + 1)
    }
}

impl Certificate {
    /// The length of the binary form.
    pub proof fn lemma_len(&self)
        requires
            self.wf(),
        ensures
            self.spec_to_bytes().len() == self.spec_len(),
            self.spec_signed_body().len() == 68 + key_block_len(self.pub_key_type),
    {
    }

    /// Reading a certificate and writing it again gives the bytes that it was
    /// read from.
    pub proof fn lemma_round_trip(&self, data: Seq<u8>, at: int)
        requires
            0 <= at,
            self.wf(),
            self.reads_from(data, at),
            at + self.spec_len() <= data.len(),
        ensures
            self.spec_to_bytes() == data.subrange(at, at + self.spec_len()),
    {
        let body = at + signature_block_len(self.signer_key_type);
        let key = body + 136;
        let tail = key + self.pub_key_type.spec_len();
        lemma_u32_bytes(data.subrange(at, at + 4));
        lemma_u32_bytes(data.subrange(body + 64, body + 68));
        lemma_u32_bytes(data.subrange(body + 132, body + 136));
        assert(u32_be(self.signer_key_type.spec_signature_code()) == data.subrange(at, at + 4));
        assert(u32_be(self.pub_key_type.spec_key_code()) == data.subrange(body + 64, body + 68));
        lemma_subrange_join(data, body, body + 64, body + 68);
        lemma_subrange_join(data, body, body + 68, body + 132);
        lemma_subrange_join(data, body, body + 132, key);
        lemma_subrange_join(data, body, key, tail);
        let end = at + self.spec_len();
        if self.pub_key_type.spec_is_rsa() {
            lemma_u32_bytes(data.subrange(tail, tail + 4));
            lemma_subrange_join(data, body, tail, tail + 4);
            lemma_subrange_join(data, body, tail + 4, end);
        } else {
            let before = self.signature_issuer@ + u32_be(self.pub_key_type.spec_key_code())
                + self.child_cert_identity@ + u32_be(self.pub_key_id) + self.pub_key_modulus@;
            assert(before + Seq::<u8>::empty() =~= before);
            lemma_subrange_join(data, body, tail, end);
        }
        assert(self.spec_signed_body() == data.subrange(body, end));
        lemma_subrange_join(data, at, at + 4, at + 4 + self.signer_key_type.spec_len());
        lemma_subrange_join(data, at, at + 4 + self.signer_key_type.spec_len(), body);
        lemma_subrange_join(data, at, body, end);
    }

    /// Whether the certificate plays a role.
    pub fn has_role(&self, role: CertificateRole) -> (yes: bool)
        ensures
            yes == plays(*self, role),
    {
        match role {
            CertificateRole::Authority => self.is_ca(),
            CertificateRole::TMDSigner => self.signs_tmds(),
            CertificateRole::TicketSigner => self.signs_tickets(),
        }
    }
}

impl CertificateChain {
    /// Whether the certificates are those that stand in `data`, one after the
    /// other, up to its end.
    pub open spec fn reads_from(&self, data: Seq<u8>) -> bool {
        &&& cert_offset(data, self.certs@.len() as int) == data.len()
        &&& forall|k: int|
            0 <= k < self.certs@.len() ==> {
                &&& (#[trigger] self.certs@[k]).reads_from(data, cert_offset(data, k))
                &&& self.certs@[k].wf()
                &&& self.certs@[k].spec_len() == cert_len_at(data, cert_offset(data, k))
            }
    }

    /// The binary form: the certificates one after the other.
    pub open spec fn spec_to_bytes(&self) -> Seq<u8> {
        chain_bytes(self.certs@, self.certs@.len() as int)
    }

    /// Reads certificates from `data` until it ends.
    pub fn from_bytes(data: &[u8]) -> (r: Result<CertificateChain, CertificateError>)
        ensures
            match r {
                Ok(chain) => chain_error(data@, 0) is None && chain.reads_from(data@),
                Err(e) => chain_error(data@, 0) == Some(e),
            },
    {
        let mut certs: Vec<Certificate> = Vec::new();
        let mut at: usize = 0;
        while at < data.len()
            invariant
                at <= data.len(),
                at == cert_offset(data@, certs@.len() as int),
                chain_error(data@, 0) == chain_error(data@, at as int),
                forall|k: int|
                    0 <= k < certs@.len() ==> {
                        &&& (#[trigger] certs@[k]).reads_from(data@, cert_offset(data@, k))
                        &&& certs@[k].wf()
                        &&& certs@[k].spec_len() == cert_len_at(data@, cert_offset(data@, k))
                    },
            decreases data.len() - at,
        {
            let cert = match Certificate::from_bytes_at(data, at) {
                Ok(cert) => cert,
                Err(e) => {
                    return Err(e);
                },
            };
            proof {
                lemma_cert_len(data@, at as int);
            }
            let len = cert.to_bytes().len();
            proof {
                cert.lemma_len();
            }
            certs.push(cert);
            at = at + len;
        }
        Ok(CertificateChain { certs })
    }

    /// Writes the binary form.
    pub fn to_bytes(&self) -> (out: Vec<u8>)
        ensures
            out@ == self.spec_to_bytes(),
    {
        let mut buf: Vec<u8> = Vec::new();
        let n = self.certs.len();
        let mut k: usize = 0;
        while k < n
            invariant
                k <= n,
                n == self.certs@.len(),
                buf@ == chain_bytes(self.certs@, k as int),
            decreases n - k,
        {
            let bytes = self.certs[k].to_bytes();
            put_bytes(&mut buf, bytes.as_slice());
            k += 1;
        }
        buf
    }

    /// The first certificate that plays a role.
    pub fn cert_for(&self, role: CertificateRole) -> (r: Result<&Certificate, CertificateError>)
        ensures
            ({
                let p = role_position(self.certs@, role, 0);
                if p < self.certs@.len() {
                    r is Ok && *r->Ok_0 == self.certs@[p] && plays(*r->Ok_0, role)
                } else {
                    r == Err::<&Certificate, CertificateError>(
                        CertificateError::MissingCertificate,
                    )
                }
            }),
    {
        let n = self.certs.len();
        let mut k: usize = 0;
        while k < n
            invariant
                k <= n,
                n == self.certs@.len(),
                role_position(self.certs@, role, 0) == role_position(self.certs@, role, k as int),
            decreases n - k,
        {
            if self.certs[k].has_role(role) {
                return Ok(&self.certs[k]);
            }
            k += 1;
        }
        Err(CertificateError::MissingCertificate)
    }

    /// The certificate of the certificate authority: the first that `Root`
    /// gave and whose name holds `CA`.
    pub fn ca_cert(&self) -> (r: Result<&Certificate, CertificateError>)
        ensures
            ({
                let p = role_position(self.certs@, CertificateRole::Authority, 0);
                if p < self.certs@.len() {
                    r is Ok && *r->Ok_0 == self.certs@[p] && r->Ok_0.spec_is_ca()
                } else {
                    r == Err::<&Certificate, CertificateError>(
                        CertificateError::MissingCertificate,
                    )
                }
            }),
    {
        self.cert_for(CertificateRole::Authority)
    }

    /// The certificate that signs TMDs: the first whose name holds `CP`.
    pub fn tmd_cert(&self) -> (r: Result<&Certificate, CertificateError>)
        ensures
            ({
                let p = role_position(self.certs@, CertificateRole::TMDSigner, 0);
                if p < self.certs@.len() {
                    r is Ok && *r->Ok_0 == self.certs@[p] && r->Ok_0.spec_signs_tmds()
                } else {
                    r == Err::<&Certificate, CertificateError>(
                        CertificateError::MissingCertificate,
                    )
                }
            }),
    {
        self.cert_for(CertificateRole::TMDSigner)
    }

    /// The certificate that signs tickets: the first whose name holds `XS`.
    pub fn ticket_cert(&self) -> (r: Result<&Certificate, CertificateError>)
        ensures
            ({
                let p = role_position(self.certs@, CertificateRole::TicketSigner, 0);
                if p < self.certs@.len() {
                    r is Ok && *r->Ok_0 == self.certs@[p] && r->Ok_0.spec_signs_tickets()
                } else {
                    r == Err::<&Certificate, CertificateError>(
                        CertificateError::MissingCertificate,
                    )
                }
            }),
    {
        self.cert_for(CertificateRole::TicketSigner)
    }

    /// The certificates begin in order, and none begins after the end of the
    /// data.
    pub proof fn lemma_offsets(&self, data: Seq<u8>, k: int)
        requires
            self.reads_from(data),
            0 <= k <= self.certs@.len(),
        ensures
            0 <= cert_offset(data, k) <= data.len(),
            k < self.certs@.len() ==> cert_offset(data, k) + self.certs@[k].spec_len()
                <= data.len(),
        decreases self.certs@.len() - k,
    {
        if k < self.certs@.len() {
            self.lemma_offsets(data, k + 1);
            self.lemma_nonnegative(data, k);
        } else {
        }
    }

    /// No certificate begins before the beginning of the data.
    pub proof fn lemma_nonnegative(&self, data: Seq<u8>, k: int)
        requires
            self.reads_from(data),
            0 <= k <= self.certs@.len(),
        ensures
            0 <= cert_offset(data, k),
        decreases k,
    {
        if k > 0 {
            self.lemma_nonnegative(data, k - 1);
            let cert = self.certs@[k - 1];
            assert(cert.spec_len() >= 0);
        }
    }

    /// The bytes of the first `k` certificates are the data up to where
    /// certificate `k` begins.
    pub proof fn lemma_prefix(&self, data: Seq<u8>, k: int)
        requires
            self.reads_from(data),
            0 <= k <= self.certs@.len(),
        ensures
            chain_bytes(self.certs@, k) == data.subrange(0, cert_offset(data, k)),
        decreases k,
    {
        if k == 0 {
            assert(chain_bytes(self.certs@, 0) =~= data.subrange(0, 0));
        } else {
            self.lemma_prefix(data, k - 1);
            self.lemma_offsets(data, k - 1);
            let cert = self.certs@[k - 1];
            let at = cert_offset(data, k - 1);
            cert.lemma_round_trip(data, at);
            lemma_subrange_join(data, 0, at, at + cert.spec_len());
        }
    }

    /// Reading a chain and writing it again gives the bytes that were read.
    pub proof fn lemma_round_trip(&self, data: Seq<u8>)
        requires
            self.reads_from(data),
        ensures
            self.spec_to_bytes() == data,
    {
        self.lemma_prefix(data, self.certs@.len() as int);
        assert(data.subrange(0, data.len() as int) == data);
    }
}

/// What the first of two verifications and then the second come to: the
/// error of the first that is in error, and else whether both hold. The
/// second is not made where the first does not hold.
pub open spec fn both(
    first: Result<bool, CertificateError>,
    second: Result<bool, CertificateError>,
) -> Result<bool, CertificateError> {
    match first {
        Err(e) => Err(e),
        Ok(false) => Ok(false),
        Ok(true) => second,
    }
}

impl CertificateChain {
    /// What walking the chain for a TMD and a ticket comes to: the
    /// certificate authority must have signed the certificate that signed
    /// the TMD, and the one that signed the ticket. The certificate of the
    /// authority itself is taken on trust: the key that signed it is not in
    /// the chain.
    pub open spec fn spec_verify(&self, tmd: TMD, ticket: Ticket) -> Result<
        bool,
        CertificateError,
    > {
        let certs = self.certs@;
        let ca = role_position(certs, CertificateRole::Authority, 0);
        let cp = role_position(certs, CertificateRole::TMDSigner, 0);
        let xs = role_position(certs, CertificateRole::TicketSigner, 0);
        if ca >= certs.len() || cp >= certs.len() || xs >= certs.len() {
            Err(CertificateError::MissingCertificate)
        } else {
            both(
                both(
                    both(
                        verification(
                            certs[ca],
                            certs[cp].signature_issuer@,
                            certs[cp].spec_signed_body(),
                            certs[cp].signature@,
                        ),
                        verification(
                            certs[cp],
                            tmd.signature_issuer@,
                            tmd.spec_signed_body(),
                            tmd.signature@,
                        ),
                    ),
                    verification(
                        certs[ca],
                        certs[xs].signature_issuer@,
                        certs[xs].spec_signed_body(),
                        certs[xs].signature@,
                    ),
                ),
                verification(
                    certs[xs],
                    ticket.signature_issuer@,
                    ticket.spec_signed_body(),
                    ticket.signature@,
                ),
            )
        }
    }

    /// Walks the chain for a TMD and a ticket: whether the certificate
    /// authority signed the two signing certificates, and they the TMD and
    /// the ticket.
    pub fn verify(&self, tmd: &TMD, ticket: &Ticket) -> (r: Result<bool, CertificateError>)
        ensures
            r == self.spec_verify(*tmd, *ticket),
    {
        let ca = match self.ca_cert() {
            Ok(cert) => cert,
            Err(e) => {
                return Err(e);
            },
        };
        let cp = match self.tmd_cert() {
            Ok(cert) => cert,
            Err(e) => {
                return Err(e);
            },
        };
        let xs = match self.ticket_cert() {
            Ok(cert) => cert,
            Err(e) => {
                return Err(e);
            },
        };
        match verify_child_cert(ca, cp) {
            Ok(true) => {},
            other => {
                return other;
            },
        }
        match verify_tmd(cp, tmd) {
            Ok(true) => {},
            other => {
                return other;
            },
        }
        match verify_child_cert(ca, xs) {
            Ok(true) => {},
            other => {
                return other;
            },
        }
        verify_ticket(xs, ticket)
    }
}

} // verus!
