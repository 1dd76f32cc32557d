//! Tickets: the right to a title, and its title key wrapped under a common key.

use crate::codec::{
    be_u16, be_u32, contains_bytes, is_all_zero, lemma_subrange_join, lemma_u16_bytes,
    lemma_u32_bytes, occurs_in, put_bytes, put_u16, put_u32, read_array, read_u16_at, read_u32_at,
    trimmed_len, trimmed_length, u16_be, u32_be, zeroed, zeros,
};
use crate::digest::{
    digest_passes, passes_comparison, sha1, sha1_digest, utf8_is_valid, utf8_lossy,
    utf8_lossy_string,
};
use crate::title::commonkeys::CommonKeys;
use crate::title::crypto::{decrypt_title_key, spec_decrypt_title_key};
use crate::title::tmd::BODY_OFFSET;
use vstd::prelude::*;
use vstd::slice::slice_subrange;
use vstd::utf8::{encode_utf8, valid_utf8};

verus! {

/// The length of a ticket.
pub const TICKET_LEN: usize = 676;

/// Where the title limits begin.
pub const LIMITS_OFFSET: usize = 612;

#[derive(Debug, Clone, Copy, PartialEq, Eq, Structural)]
pub enum TicketError {
    /// The ticket is of another version than 0.
    UnsupportedVersion,
    /// No value of the reserved field gives a digest that passes.
    CannotFakesign,
    /// The issuer's name is longer than the 64 bytes of its field.
    IssuerTooLong(usize),
    /// The data ends before the ticket does.
    IOError,
}

/// One limit on the use of a title.
#[derive(Debug, Clone, Copy)]
pub struct TitleLimit {
    /// What is limited: time, number of launches and the like.
    pub limit_type: u32,
    /// The most that is allowed of it.
    pub limit_max: u32,
}

/// A ticket, field by field in the order of its binary form.
#[derive(Debug)]
pub struct Ticket {
    pub signature_type: u32,
    pub signature: [u8; 256],
    pub padding1: [u8; 60],
    pub signature_issuer: [u8; 64],
    pub ecdh_data: [u8; 60],
    pub ticket_version: u8,
    pub reserved1: [u8; 2],
    pub title_key: [u8; 16],
    pub unknown1: [u8; 1],
    pub ticket_id: [u8; 8],
    pub console_id: [u8; 4],
    pub title_id: [u8; 8],
    /// Unused by the console, and so free to vary until the digest passes.
    pub unknown2: [u8; 2],
    pub title_version: u16,
    pub permitted_titles_mask: [u8; 4],
    pub permit_mask: [u8; 4],
    pub title_export_allowed: u8,
    pub common_key_index: u8,
    pub unknown3: [u8; 48],
    pub content_access_permission: [u8; 64],
    pub padding2: [u8; 2],
    pub title_limits: [TitleLimit; 8],
}

/// The eight bytes of a title limit.
pub open spec fn limit_bytes(l: TitleLimit) -> Seq<u8> {
    u32_be(l.limit_type) + u32_be(l.limit_max)
}

/// The bytes of a list of title limits, one after the other.
pub open spec fn limits_bytes(ls: Seq<TitleLimit>) -> Seq<u8>
    decreases ls.len(),
{
    if ls.len() == 0 {
        Seq::<u8>::empty()
    } else {
        limits_bytes(ls.drop_last()) + limit_bytes(ls.last())
    }
}

/// Whether `l` is the limit that stands in `data` at offset `at`.
pub open spec fn limit_reads_from(l: TitleLimit, data: Seq<u8>, at: int) -> bool {
    &&& l.limit_type == be_u32(data.subrange(at, at + 4))
    &&& l.limit_max == be_u32(data.subrange(at + 4, at + 8))
}

/// Why `data` is no ticket, if it is none: it ends before the version byte, the
/// version is not 0, or it ends before the ticket does.
pub open spec fn ticket_parse_error(data: Seq<u8>) -> Option<TicketError> {
    if data.len() < 445 {
        Some(TicketError::IOError)
    } else if data[444] != 0 {
        Some(TicketError::UnsupportedVersion)
    } else if data.len() < TICKET_LEN {
        Some(TicketError::IOError)
    } else {
        None
    }
}

/// The name `Root-CA00000002-XS0000000` and one last digit: with 4 or 6 for the
/// digit, the name of a certificate that signs development tickets.
pub open spec fn dev_issuer(digit: u8) -> Seq<u8> {
    seq![
        0x52u8, 0x6f, 0x6f, 0x74, 0x2d, 0x43, 0x41, 0x30, 0x30, 0x30, 0x30, 0x30, 0x30, 0x30, 0x32,
        0x2d, 0x58, 0x53, 0x30, 0x30, 0x30, 0x30, 0x30, 0x30, 0x30, digit,
    ]
}

/// Whether an issuer field names a development certificate: it is well-formed
/// text that holds `Root-CA00000002-XS00000004` or `Root-CA00000002-XS00000006`.
pub open spec fn issuer_is_dev(issuer: Seq<u8>) -> bool {
    valid_utf8(issuer) && (occurs_in(issuer, dev_issuer(0x34)) || occurs_in(
        issuer,
        dev_issuer(0x36),
    ))
}

/// Writes the eight bytes of a title limit.
pub fn put_limit(buf: &mut Vec<u8>, l: &TitleLimit)
    ensures
        final(buf)@ == old(buf)@ + limit_bytes(*l),
{
    let ghost start = buf@;
    put_u32(buf, l.limit_type);
    put_u32(buf, l.limit_max);
    assert(buf@ =~= start + limit_bytes(*l));
}

/// The bytes of the first `k` limits are those that they were read from.
pub proof fn lemma_limits_round_trip(ls: Seq<TitleLimit>, data: Seq<u8>, k: int)
    requires
        0 <= k <= ls.len(),
        LIMITS_OFFSET + 8 * k <= data.len(),
        forall|i: int| 0 <= i < k ==> limit_reads_from(#[trigger] ls[i], data, LIMITS_OFFSET + 8 * i),
    ensures
        limits_bytes(ls.take(k)) == data.subrange(LIMITS_OFFSET as int, LIMITS_OFFSET + 8 * k),
    decreases k,
{
    if k == 0 {
        assert(limits_bytes(ls.take(0)) =~= data.subrange(612, 612));
    } else {
        lemma_limits_round_trip(ls, data, k - 1);
        assert(ls.take(k).drop_last() == ls.take(k - 1));
        assert(ls.take(k).last() == ls[k - 1]);
        let at = LIMITS_OFFSET + 8 * (k - 1);
        lemma_u32_bytes(data.subrange(at, at + 4));
        lemma_u32_bytes(data.subrange(at + 4, at + 8));
        lemma_subrange_join(data, at, at + 4, at + 8);
        lemma_subrange_join(data, LIMITS_OFFSET as int, at, at + 8);
    }
}

impl Ticket {
    /// The binary form, 676 bytes long.
    #[verifier::opaque]
    pub open spec fn spec_to_bytes(&self) -> Seq<u8> {
        u32_be(self.signature_type) + self.signature@ + self.padding1@ + self.signature_issuer@
            + self.ecdh_data@ + seq![self.ticket_version] + self.reserved1@ + self.title_key@
            + self.unknown1@ + self.ticket_id@ + self.console_id@ + self.title_id@ + self.unknown2@
            + u16_be(self.title_version) + self.permitted_titles_mask@ + self.permit_mask@ + seq![
            self.title_export_allowed,
            self.common_key_index,
        ] + self.unknown3@ + self.content_access_permission@ + self.padding2@ + limits_bytes(
            self.title_limits@,
        )
    }

    /// Whether each field holds what stands at its place in `data`.
    pub open spec fn reads_from(&self, data: Seq<u8>) -> bool {
        &&& self.signature_type == be_u32(data.subrange(0, 4))
        &&& self.signature@ == data.subrange(4, 260)
        &&& self.padding1@ == data.subrange(260, 320)
        &&& self.signature_issuer@ == data.subrange(320, 384)
        &&& self.ecdh_data@ == data.subrange(384, 444)
        &&& self.ticket_version == data[444]
        &&& self.reserved1@ == data.subrange(445, 447)
        &&& self.title_key@ == data.subrange(447, 463)
        &&& self.unknown1@ == data.subrange(463, 464)
        &&& self.ticket_id@ == data.subrange(464, 472)
        &&& self.console_id@ == data.subrange(472, 476)
        &&& self.title_id@ == data.subrange(476, 484)
        &&& self.unknown2@ == data.subrange(484, 486)
        &&& self.title_version == be_u16(data.subrange(486, 488))
        &&& self.permitted_titles_mask@ == data.subrange(488, 492)
        &&& self.permit_mask@ == data.subrange(492, 496)
        &&& self.title_export_allowed == data[496]
        &&& self.common_key_index == data[497]
        &&& self.unknown3@ == data.subrange(498, 546)
        &&& self.content_access_permission@ == data.subrange(546, 610)
        &&& self.padding2@ == data.subrange(610, 612)
        &&& forall|i: int|
            0 <= i < 8 ==> limit_reads_from(
                #[trigger] self.title_limits@[i],
                data,
                LIMITS_OFFSET + 8 * i,
            )
    }

    /// The value with a zero signature and `n` in the reserved field that the
    /// search for a passing digest varies.
    pub open spec fn with_nonce(self, n: u16) -> Ticket {
        Ticket {
            signature: zeroed::<256>(),
            unknown2: [(n / 0x100) as u8, (n % 0x100) as u8],
            ..self
        }
    }

    /// The part of the binary form that a signature covers: all from the
    /// issuer's name on.
    pub open spec fn spec_signed_body(&self) -> Seq<u8> {
        self.spec_to_bytes().skip(BODY_OFFSET as int)
    }

    /// Whether the signature is zero and the digest of the signed part passes
    /// the console's comparison.
    pub open spec fn spec_is_fakesigned(&self) -> bool {
        self.signature@ == zeros(256) && digest_passes(sha1_digest(self.spec_signed_body()))
    }

    /// Whether the digest passes once the signature is zero and the reserved
    /// field holds `n`.
    pub open spec fn nonce_passes(self, n: u16) -> bool {
        digest_passes(sha1_digest(self.with_nonce(n).spec_signed_body()))
    }

    /// The least value from `from` on with which the digest passes.
    pub open spec fn first_nonce(self, from: int) -> Option<u16>
        decreases 0x1_0000 - from,
    {
        if from < 0 || from > 0xFFFF {
            None
        } else if self.nonce_passes(from as u16) {
            Some(from as u16)
        } else {
            self.first_nonce(from + 1)
        }
    }

    /// Whether the ticket is one of a development console.
    pub open spec fn spec_is_dev(&self) -> bool {
        issuer_is_dev(self.signature_issuer@)
    }

    /// Reads a ticket from its binary form. Only version 0 is read. Bytes
    /// after the ticket are not looked at.
    pub fn from_bytes(data: &[u8]) -> (r: Result<Ticket, TicketError>)
        ensures
            match r {
                Ok(t) => ticket_parse_error(data@) is None && t.reads_from(data@),
                Err(e) => ticket_parse_error(data@) == Some(e),
            },
    {
        if data.len() < 445 {
            return Err(TicketError::IOError);
        }
        let signature_type = read_u32_at(data, 0);
        let signature = read_array::<256>(data, 4);
        let padding1 = read_array::<60>(data, 260);
        let signature_issuer = read_array::<64>(data, 320);
        let ecdh_data = read_array::<60>(data, 384);
        let ticket_version = data[444];
        if ticket_version != 0 {
            return Err(TicketError::UnsupportedVersion);
        }
        if data.len() < TICKET_LEN {
            return Err(TicketError::IOError);
        }
        let reserved1 = read_array::<2>(data, 445);
        let title_key = read_array::<16>(data, 447);
        let unknown1 = read_array::<1>(data, 463);
        let ticket_id = read_array::<8>(data, 464);
        let console_id = read_array::<4>(data, 472);
        let title_id = read_array::<8>(data, 476);
        let unknown2 = read_array::<2>(data, 484);
        let title_version = read_u16_at(data, 486);
        let permitted_titles_mask = read_array::<4>(data, 488);
        let permit_mask = read_array::<4>(data, 492);
        let title_export_allowed = data[496];
        let common_key_index = data[497];
        let unknown3 = read_array::<48>(data, 498);
        let content_access_permission = read_array::<64>(data, 546);
        let padding2 = read_array::<2>(data, 610);
        let mut title_limits = [TitleLimit { limit_type: 0, limit_max: 0 };8];
        let mut i: usize = 0;
        while i < 8
            invariant
                i <= 8,
                data.len() >= TICKET_LEN,
                forall|j: int|
                    0 <= j < i ==> limit_reads_from(
                        #[trigger] title_limits@[j],
                        data@,
                        LIMITS_OFFSET + 8 * j,
                    ),
            decreases 8 - i,
        {
            let at: usize = LIMITS_OFFSET + 8 * i;
            let limit_type = read_u32_at(data, at);
            let limit_max = read_u32_at(data, at + 4);
            title_limits[i] = TitleLimit { limit_type, limit_max };
            i += 1;
        }
        Ok(
            Ticket {
                signature_type,
                signature,
                padding1,
                signature_issuer,
                ecdh_data,
                ticket_version,
                reserved1,
                title_key,
                unknown1,
                ticket_id,
                console_id,
                title_id,
                unknown2,
                title_version,
                permitted_titles_mask,
                permit_mask,
                title_export_allowed,
                common_key_index,
                unknown3,
                content_access_permission,
                padding2,
                title_limits,
            },
        )
    }

    /// Writes the binary form.
    pub fn to_bytes(&self) -> (out: Vec<u8>)
        ensures
            out@ == self.spec_to_bytes(),
            out@.len() == TICKET_LEN,
    {
        proof {
            reveal(Ticket::spec_to_bytes);
        }
        let mut buf: Vec<u8> = Vec::new();
        put_u32(&mut buf, self.signature_type);
        put_bytes(&mut buf, &self.signature);
        put_bytes(&mut buf, &self.padding1);
        put_bytes(&mut buf, &self.signature_issuer);
        put_bytes(&mut buf, &self.ecdh_data);
        buf.push(self.ticket_version);
        assert(buf@ =~= u32_be(self.signature_type) + self.signature@ + self.padding1@
            + self.signature_issuer@ + self.ecdh_data@ + seq![self.ticket_version]);
        put_bytes(&mut buf, &self.reserved1);
        put_bytes(&mut buf, &self.title_key);
        put_bytes(&mut buf, &self.unknown1);
        put_bytes(&mut buf, &self.ticket_id);
        put_bytes(&mut buf, &self.console_id);
        put_bytes(&mut buf, &self.title_id);
        put_bytes(&mut buf, &self.unknown2);
        put_u16(&mut buf, self.title_version);
        put_bytes(&mut buf, &self.permitted_titles_mask);
        put_bytes(&mut buf, &self.permit_mask);
        let ghost before = buf@;
        buf.push(self.title_export_allowed);
        buf.push(self.common_key_index);
        assert(buf@ =~= before + seq![self.title_export_allowed, self.common_key_index]);
        put_bytes(&mut buf, &self.unknown3);
        put_bytes(&mut buf, &self.content_access_permission);
        put_bytes(&mut buf, &self.padding2);
        assert(buf@.len() == LIMITS_OFFSET);
        let ghost head = buf@;
        let mut i: usize = 0;
        proof {
            assert(self.title_limits@.take(0) =~= Seq::<TitleLimit>::empty());
        }
        while i < 8
            invariant
                i <= 8,
                buf@ == head + limits_bytes(self.title_limits@.take(i as int)),
                buf@.len() == LIMITS_OFFSET + 8 * i,
            decreases 8 - i,
        {
            put_limit(&mut buf, &self.title_limits[i]);
            proof {
                let ls = self.title_limits@;
                assert(ls.take(i + 1).drop_last() == ls.take(i as int));
                assert(ls.take(i + 1).last() == ls[i as int]);
                assert(buf@ =~= head + limits_bytes(ls.take(i + 1)));
            }
            i += 1;
        }
        proof {
            assert(self.title_limits@.take(8) == self.title_limits@);
        }
        buf
    }

    /// The title key, unwrapped with the common key that the ticket's key index
    /// and its kind select from `keys`.
    pub fn dec_title_key(&self, keys: &CommonKeys) -> (title_key: [u8; 16])
        ensures
            title_key@ == spec_decrypt_title_key(
                self.title_key@,
                *keys,
                self.common_key_index,
                self.title_id@,
                self.spec_is_dev(),
            ),
    {
        let is_dev = self.is_dev();
        decrypt_title_key(self.title_key, keys, self.common_key_index, self.title_id, is_dev)
    }

    /// Whether the ticket is one of a development console, which the name of
    /// its issuer tells.
    pub fn is_dev(&self) -> (dev: bool)
        ensures
            dev == self.spec_is_dev(),
    {
        if !utf8_is_valid(&self.signature_issuer) {
            return false;
        }
        let mut name: [u8; 26] = [
            0x52, 0x6f, 0x6f, 0x74, 0x2d, 0x43, 0x41, 0x30, 0x30, 0x30, 0x30, 0x30, 0x30, 0x30,
            0x32, 0x2d, 0x58, 0x53, 0x30, 0x30, 0x30, 0x30, 0x30, 0x30, 0x30, 0x34,
        ];
        assert(name@ =~= dev_issuer(0x34));
        if contains_bytes(&self.signature_issuer, &name) {
            return true;
        }
        name[25] = 0x36;
        assert(name@ =~= dev_issuer(0x36));
        contains_bytes(&self.signature_issuer, &name)
    }

    /// Whether the ticket passes the console's signature check without a
    /// signature: the signature is zero and the digest of the signed part
    /// leads with a zero byte.
    pub fn is_fakesigned(&self) -> (fake: bool)
        ensures
            fake == self.spec_is_fakesigned(),
    {
        if !is_all_zero(&self.signature) {
            return false;
        }
        let bytes = self.to_bytes();
        let digest = sha1(slice_subrange(bytes.as_slice(), BODY_OFFSET, bytes.len()));
        passes_comparison(&digest)
    }

    /// Clears the signature and searches the values from 1 to 65535 of the
    /// reserved field, in order, for the first with which the digest of the
    /// signed part passes. Without one the ticket is left with 65535 there.
    pub fn fakesign(&mut self) -> (r: Result<(), TicketError>)
        ensures
            match old(self).first_nonce(1) {
                Some(n) => {
                    &&& r is Ok
                    &&& *final(self) == old(self).with_nonce(n)
                    &&& final(self).spec_is_fakesigned()
                },
                None => {
                    &&& r == Err::<(), TicketError>(TicketError::CannotFakesign)
                    &&& *final(self) == old(self).with_nonce(0xFFFF)
                },
            },
    {
        self.signature = [0u8; 256];
        let mut nonce: u16 = 0;
        self.unknown2 = [0u8, 0u8];
        proof {
            assert(zeroed::<256>()@ =~= zeros(256));
        }
        loop
            invariant
                *self == old(self).with_nonce(nonce),
                old(self).first_nonce(1) == old(self).first_nonce(nonce + 1),
                zeroed::<256>()@ == zeros(256),
            decreases 0xFFFF - nonce,
        {
            if nonce == 0xFFFF {
                return Err(TicketError::CannotFakesign);
            }
            nonce += 1;
            self.unknown2 = [(nonce / 0x100) as u8, (nonce % 0x100) as u8];
            let bytes = self.to_bytes();
            let digest = sha1(slice_subrange(bytes.as_slice(), BODY_OFFSET, bytes.len()));
            if passes_comparison(&digest) {
                return Ok(());
            }
        }
    }

    /// The name of the certificate that signed the ticket: the text of the
    /// issuer field without the zero bytes at its end.
    pub fn signature_issuer(&self) -> (name: String)
        ensures
            name@ == utf8_lossy(
                self.signature_issuer@.subrange(0, trimmed_len(self.signature_issuer@)),
            ),
    {
        let len = trimmed_length(&self.signature_issuer);
        utf8_lossy_string(slice_subrange(self.signature_issuer.as_slice(), 0, len))
    }

    /// Sets the name of the certificate that signed the ticket, filled up with
    /// zero bytes. A name of more than 64 bytes is refused and changes nothing.
    pub fn set_signature_issuer(&mut self, signature_issuer: String) -> (r: Result<
        (),
        TicketError,
    >)
        ensures
            encode_utf8(signature_issuer@).len() > 64 ==> r == Err::<(), TicketError>(
                TicketError::IssuerTooLong(encode_utf8(signature_issuer@).len() as usize),
            ) && *final(self) == *old(self),
            encode_utf8(signature_issuer@).len() <= 64 ==> r is Ok && final(self).signature_issuer@
                == encode_utf8(signature_issuer@) + zeros(64 - encode_utf8(signature_issuer@).len())
                && *final(self) == (Ticket {
                signature_issuer: final(self).signature_issuer,
                ..*old(self)
            }),
    {
        let bytes = signature_issuer.as_str().as_bytes();
        let n = bytes.len();
        if n > 64 {
            return Err(TicketError::IssuerTooLong(n));
        }
        let mut issuer = [0u8; 64];
        let mut i: usize = 0;
        while i < n
            invariant
                i <= n <= 64,
                n == bytes.len(),
                forall|k: int| 0 <= k < i ==> issuer@[k] == bytes@[k],
                forall|k: int| i <= k < 64 ==> issuer@[k] == 0,
            decreases n - i,
        {
            issuer[i] = bytes[i];
            i += 1;
        }
        assert(issuer@ =~= bytes@ + zeros(64 - n));
        self.signature_issuer = issuer;
        Ok(())
    }

    /// Reading a ticket and writing it again gives the first 676 bytes that
    /// were read.
    pub proof fn lemma_reads_from_prefix(&self, data: Seq<u8>)
        requires
            self.reads_from(data),
            data.len() >= TICKET_LEN,
        ensures
            self.spec_to_bytes() == data.subrange(0, TICKET_LEN as int),
    {
        reveal(Ticket::spec_to_bytes);
        lemma_u32_bytes(data.subrange(0, 4));
        lemma_u16_bytes(data.subrange(486, 488));
        assert(seq![self.ticket_version] =~= data.subrange(444, 445));
        assert(seq![self.title_export_allowed, self.common_key_index] =~= data.subrange(496, 498));
        lemma_limits_round_trip(self.title_limits@, data, 8);
        assert(self.title_limits@.take(8) == self.title_limits@);
        lemma_subrange_join(data, 0, 4, 260);
        lemma_subrange_join(data, 0, 260, 320);
        lemma_subrange_join(data, 0, 320, 384);
        lemma_subrange_join(data, 0, 384, 444);
        lemma_subrange_join(data, 0, 444, 445);
        lemma_subrange_join(data, 0, 445, 447);
        lemma_subrange_join(data, 0, 447, 463);
        lemma_subrange_join(data, 0, 463, 464);
        lemma_subrange_join(data, 0, 464, 472);
        lemma_subrange_join(data, 0, 472, 476);
        lemma_subrange_join(data, 0, 476, 484);
        lemma_subrange_join(data, 0, 484, 486);
        lemma_subrange_join(data, 0, 486, 488);
        lemma_subrange_join(data, 0, 488, 492);
        lemma_subrange_join(data, 0, 492, 496);
        lemma_subrange_join(data, 0, 496, 498);
        lemma_subrange_join(data, 0, 498, 546);
        lemma_subrange_join(data, 0, 546, 610);
        lemma_subrange_join(data, 0, 610, 612);
        lemma_subrange_join(data, 0, 612, 676);
    }

    /// Reading a ticket and writing it again gives the bytes that were read,
    /// where they are the 676 of one ticket.
    pub proof fn lemma_round_trip(&self, data: Seq<u8>)
        requires
            self.reads_from(data),
            data.len() == TICKET_LEN,
        ensures
            self.spec_to_bytes() == data,
    {
        self.lemma_reads_from_prefix(data);
        assert(data.subrange(0, data.len() as int) == data);
    }

    /// Fakesigning what was fakesigned changes nothing: the search ends at the
    /// same value, and the ticket is fakesigned as before.
    pub proof fn lemma_fakesign_idempotent(self, n: u16)
        requires
            self.first_nonce(1) == Some(n),
        ensures
            self.with_nonce(n).first_nonce(1) == Some(n),
            self.with_nonce(n).with_nonce(n) == self.with_nonce(n),
            self.with_nonce(n).spec_is_fakesigned(),
    {
        self.lemma_first_nonce_same(n, 1);
        self.lemma_first_nonce_passes(1);
        assert(zeroed::<256>()@ =~= zeros(256));
    }

    /// The search does not depend on the signature and the reserved field that
    /// it starts from.
    pub proof fn lemma_first_nonce_same(self, n: u16, from: int)
        ensures
            self.with_nonce(n).first_nonce(from) == self.first_nonce(from),
        decreases 0x1_0000 - from,
    {
        if 0 <= from <= 0xFFFF {
            assert(self.with_nonce(n).with_nonce(from as u16) == self.with_nonce(from as u16));
            self.lemma_first_nonce_same(n, from + 1);
        }
    }

    /// What the search finds passes, and lies in the range searched.
    pub proof fn lemma_first_nonce_passes(self, from: int)
        ensures
            match self.first_nonce(from) {
                Some(n) => from <= n && self.nonce_passes(n),
                None => true,
            },
        decreases 0x1_0000 - from,
    {
        if 0 <= from <= 0xFFFF && !self.nonce_passes(from as u16) {
            self.lemma_first_nonce_passes(from + 1);
        }
    }
}

} // verus!
