//! Title metadata: what a title is, and the record of each of its contents.

use crate::codec::{
    be_u16, be_u32, be_u64, is_all_zero, lemma_subrange_join, lemma_u16_bytes, lemma_u32_bytes,
    lemma_u64_bytes, put_bytes, put_u16, put_u32, put_u64, read_array, read_u16_at, read_u32_at,
    read_u64_at, trimmed_len, trimmed_length, u16_be, u32_be, u64_be, zeroed, zeros,
};
use crate::digest::{
    digest_passes, passes_comparison, sha1, sha1_digest, utf8_lossy, utf8_lossy_string,
};
use vstd::prelude::*;
use vstd::slice::slice_subrange;
use vstd::utf8::encode_utf8;

verus! {

/// The length of the part of a TMD that comes before its content records.
pub const TMD_HEADER_LEN: usize = 484;

/// The length of one content record.
pub const RECORD_LEN: usize = 36;

/// Where the signed part of a TMD or a ticket begins.
pub const BODY_OFFSET: usize = 320;

#[derive(Debug, Clone, Copy, PartialEq, Eq, Structural)]
pub enum TMDError {
    /// No value of the minor version gives a digest that passes.
    CannotFakesign,
    /// The issuer's name is longer than the 64 bytes of its field.
    IssuerTooLong(usize),
    /// A content record holds a type that does not exist.
    InvalidContentType(u16),
    /// The data ends before the structure does.
    IO,
}

#[derive(Debug, Clone, Copy, PartialEq, Eq, Structural)]
pub enum TitleType {
    System,
    Game,
    Channel,
    SystemChannel,
    GameChannel,
    DLC,
    HiddenChannel,
    Unknown,
}

#[derive(Debug, Clone, Copy, PartialEq, Eq, Structural)]
pub enum ContentType {
    Normal,
    Development,
    HashTree,
    DLC,
    Shared,
}

#[derive(Debug, Clone, Copy, PartialEq, Eq, Structural)]
pub enum AccessRight {
    AHB,
    DVDVideo,
}

/// The metadata of one content of a title.
#[derive(Debug, Clone, Copy)]
pub struct ContentRecord {
    pub content_id: u32,
    pub index: u16,
    pub content_type: ContentType,
    pub content_size: u64,
    pub content_hash: [u8; 20],
}

/// A TMD, field by field in the order of its binary form.
#[derive(Debug)]
pub struct TMD {
    pub signature_type: u32,
    pub signature: [u8; 256],
    pub padding1: [u8; 60],
    pub signature_issuer: [u8; 64],
    pub tmd_version: u8,
    pub ca_crl_version: u8,
    pub signer_crl_version: u8,
    pub is_vwii: u8,
    pub ios_tid: [u8; 8],
    pub title_id: [u8; 8],
    pub title_type: [u8; 4],
    pub group_id: u16,
    pub padding2: [u8; 2],
    pub region: u16,
    pub ratings: [u8; 16],
    pub reserved1: [u8; 12],
    pub ipc_mask: [u8; 12],
    pub reserved2: [u8; 18],
    pub access_rights: u32,
    pub title_version: u16,
    pub num_contents: u16,
    pub boot_index: u16,
    /// Unused by the console, and so free to vary until the digest passes.
    pub minor_version: u16,
    pub content_records: Vec<ContentRecord>,
}

/// Whether `code` is the number of a content type.
pub open spec fn is_content_type_code(code: u16) -> bool {
    code == 1 || code == 2 || code == 3 || code == 16385 || code == 32769
}

impl ContentType {
    /// The number that stands for this type in a content record.
    pub open spec fn spec_code(self) -> u16 {
        match self {
            ContentType::Normal => 1,
            ContentType::Development => 2,
            ContentType::HashTree => 3,
            ContentType::DLC => 16385,
            ContentType::Shared => 32769,
        }
    }

    /// The number that stands for this type in a content record.
    pub fn code(&self) -> (code: u16)
        ensures
            code == self.spec_code(),
            is_content_type_code(code),
    {
        match self {
            ContentType::Normal => 1,
            ContentType::Development => 2,
            ContentType::HashTree => 3,
            ContentType::DLC => 16385,
            ContentType::Shared => 32769,
        }
    }

    /// The type that `code` stands for, if there is one.
    pub fn from_code(code: u16) -> (t: Option<ContentType>)
        ensures
            t is Some <==> is_content_type_code(code),
            t is Some ==> t->0.spec_code() == code,
    {
        if code == 1 {
            Some(ContentType::Normal)
        } else if code == 2 {
            Some(ContentType::Development)
        } else if code == 3 {
            Some(ContentType::HashTree)
        } else if code == 16385 {
            Some(ContentType::DLC)
        } else if code == 32769 {
            Some(ContentType::Shared)
        } else {
            None
        }
    }
}

/// Whether `r` is the record that stands in `data` at offset `at`.
pub open spec fn record_reads_from(r: ContentRecord, data: Seq<u8>, at: int) -> bool {
    &&& r.content_id == be_u32(data.subrange(at, at + 4))
    &&& r.index == be_u16(data.subrange(at + 4, at + 6))
    &&& r.content_type.spec_code() == be_u16(data.subrange(at + 6, at + 8))
    &&& r.content_size == be_u64(data.subrange(at + 8, at + 16))
    &&& r.content_hash@ == data.subrange(at + 16, at + 36)
}

/// The 36 bytes of a content record.
pub open spec fn record_bytes(r: ContentRecord) -> Seq<u8> {
    u32_be(r.content_id) + u16_be(r.index) + u16_be(r.content_type.spec_code()) + u64_be(
        r.content_size,
    ) + r.content_hash@
}

/// The bytes of a list of content records, one after the other.
pub open spec fn records_bytes(rs: Seq<ContentRecord>) -> Seq<u8>
    decreases rs.len(),
{
    if rs.len() == 0 {
        Seq::<u8>::empty()
    } else {
        records_bytes(rs.drop_last()) + record_bytes(rs.last())
    }
}

/// Why the record at index `i` cannot be read from `data`, if it cannot: the
/// data ends before its type, its type does not exist, or the data ends
/// before the record does.
pub open spec fn record_error(data: Seq<u8>, i: int) -> Option<TMDError> {
    let at = TMD_HEADER_LEN + RECORD_LEN * i;
    if data.len() < at + 8 {
        Some(TMDError::IO)
    } else if !is_content_type_code(be_u16(data.subrange(at + 6, at + 8))) {
        Some(TMDError::InvalidContentType(be_u16(data.subrange(at + 6, at + 8))))
    } else if data.len() < at + RECORD_LEN {
        Some(TMDError::IO)
    } else {
        None
    }
}

/// The error of the first record from index `i` on that cannot be read, among
/// the first `n` records.
pub open spec fn first_record_error(data: Seq<u8>, i: int, n: int) -> Option<TMDError>
    decreases n - i,
{
    if i >= n {
        None
    } else if record_error(data, i) is Some {
        record_error(data, i)
    } else {
        first_record_error(data, i + 1, n)
    }
}

/// Why `data` is no TMD, if it is none: it is shorter than the header, or one of
/// the records that the header counts cannot be read.
pub open spec fn tmd_parse_error(data: Seq<u8>) -> Option<TMDError> {
    if data.len() < TMD_HEADER_LEN {
        Some(TMDError::IO)
    } else {
        first_record_error(data, 0, be_u16(data.subrange(478, 480)) as int)
    }
}

impl TMD {
    /// The length of the binary form.
    pub open spec fn spec_len(&self) -> int {
        TMD_HEADER_LEN + RECORD_LEN * self.content_records@.len()
    }

    /// Whether the records are few enough for the header to count them.
    pub open spec fn wf(&self) -> bool {
        self.content_records@.len() <= 0xFFFF
    }

    /// The 484 bytes before the content records. The count that they hold is
    /// the number of records, not the stored `num_contents`.
    #[verifier::opaque]
    pub open spec fn spec_header_bytes(&self) -> Seq<u8> {
        u32_be(self.signature_type) + self.signature@ + self.padding1@ + self.signature_issuer@
            + seq![self.tmd_version, self.ca_crl_version, self.signer_crl_version, self.is_vwii]
            + self.ios_tid@ + self.title_id@ + self.title_type@ + u16_be(self.group_id)
            + self.padding2@ + u16_be(self.region) + self.ratings@ + self.reserved1@
            + self.ipc_mask@ + self.reserved2@ + u32_be(self.access_rights) + u16_be(
            self.title_version,
        ) + u16_be((self.content_records@.len() % 0x1_0000) as u16) + u16_be(self.boot_index) + u16_be(
            self.minor_version,
        )
    }

    /// The binary form: the header, then the content records.
    pub open spec fn spec_to_bytes(&self) -> Seq<u8> {
        self.spec_header_bytes() + records_bytes(self.content_records@)
    }

    /// Whether each field holds what stands at its place in `data`, and the
    /// records are those that follow the header, as many as it counts.
    pub open spec fn reads_from(&self, data: Seq<u8>) -> bool {
        &&& self.signature_type == be_u32(data.subrange(0, 4))
        &&& self.signature@ == data.subrange(4, 260)
        &&& self.padding1@ == data.subrange(260, 320)
        &&& self.signature_issuer@ == data.subrange(320, 384)
        &&& self.tmd_version == data[384]
        &&& self.ca_crl_version == data[385]
        &&& self.signer_crl_version == data[386]
        &&& self.is_vwii == data[387]
        &&& self.ios_tid@ == data.subrange(388, 396)
        &&& self.title_id@ == data.subrange(396, 404)
        &&& self.title_type@ == data.subrange(404, 408)
        &&& self.group_id == be_u16(data.subrange(408, 410))
        &&& self.padding2@ == data.subrange(410, 412)
        &&& self.region == be_u16(data.subrange(412, 414))
        &&& self.ratings@ == data.subrange(414, 430)
        &&& self.reserved1@ == data.subrange(430, 442)
        &&& self.ipc_mask@ == data.subrange(442, 454)
        &&& self.reserved2@ == data.subrange(454, 472)
        &&& self.access_rights == be_u32(data.subrange(472, 476))
        &&& self.title_version == be_u16(data.subrange(476, 478))
        &&& self.num_contents == be_u16(data.subrange(478, 480))
        &&& self.boot_index == be_u16(data.subrange(480, 482))
        &&& self.minor_version == be_u16(data.subrange(482, 484))
        &&& self.content_records@.len() == self.num_contents
        &&& forall|i: int|
            0 <= i < self.content_records@.len() ==> record_reads_from(
                #[trigger] self.content_records@[i],
                data,
                TMD_HEADER_LEN + RECORD_LEN * i,
            )
    }

    /// Reads a TMD from its binary form. Bytes after the last record are not
    /// looked at.
    pub fn from_bytes(data: &[u8]) -> (r: Result<TMD, TMDError>)
        ensures
            match r {
                Ok(t) => tmd_parse_error(data@) is None && t.reads_from(data@) && data@.len()
                    >= t.spec_len(),
                Err(e) => tmd_parse_error(data@) == Some(e),
            },
    {
        if data.len() < TMD_HEADER_LEN {
            return Err(TMDError::IO);
        }
        let signature_type = read_u32_at(data, 0);
        let signature = read_array::<256>(data, 4);
        let padding1 = read_array::<60>(data, 260);
        let signature_issuer = read_array::<64>(data, 320);
        let tmd_version = data[384];
        let ca_crl_version = data[385];
        let signer_crl_version = data[386];
        let is_vwii = data[387];
        let ios_tid = read_array::<8>(data, 388);
        let title_id = read_array::<8>(data, 396);
        let title_type = read_array::<4>(data, 404);
        let group_id = read_u16_at(data, 408);
        let padding2 = read_array::<2>(data, 410);
        let region = read_u16_at(data, 412);
        let ratings = read_array::<16>(data, 414);
        let reserved1 = read_array::<12>(data, 430);
        let ipc_mask = read_array::<12>(data, 442);
        let reserved2 = read_array::<18>(data, 454);
        let access_rights = read_u32_at(data, 472);
        let title_version = read_u16_at(data, 476);
        let num_contents = read_u16_at(data, 478);
        let boot_index = read_u16_at(data, 480);
        let minor_version = read_u16_at(data, 482);
        let mut content_records: Vec<ContentRecord> = Vec::new();
        let mut i: usize = 0;
        while i < num_contents as usize
            invariant
                i <= num_contents,
                data.len() >= TMD_HEADER_LEN + RECORD_LEN * i,
                num_contents == be_u16(data@.subrange(478, 480)),
                content_records@.len() == i,
                first_record_error(data@, 0, num_contents as int) == first_record_error(
                    data@,
                    i as int,
                    num_contents as int,
                ),
                forall|j: int|
                    0 <= j < i ==> record_reads_from(
                        #[trigger] content_records@[j],
                        data@,
                        TMD_HEADER_LEN + RECORD_LEN * j,
                    ),
            decreases num_contents - i,
        {
            let at: usize = TMD_HEADER_LEN + RECORD_LEN * i;
            if data.len() < at + 8 {
                return Err(TMDError::IO);
            }
            let content_id = read_u32_at(data, at);
            let index = read_u16_at(data, at + 4);
            let code = read_u16_at(data, at + 6);
            let content_type = match ContentType::from_code(code) {
                Some(t) => t,
                None => {
                    return Err(TMDError::InvalidContentType(code));
                },
            };
            if data.len() < at + RECORD_LEN {
                return Err(TMDError::IO);
            }
            let content_size = read_u64_at(data, at + 8);
            let content_hash = read_array::<20>(data, at + 16);
            content_records.push(
                ContentRecord { content_id, index, content_type, content_size, content_hash },
            );
            i += 1;
        }
        Ok(
            TMD {
                signature_type,
                signature,
                padding1,
                signature_issuer,
                tmd_version,
                ca_crl_version,
                signer_crl_version,
                is_vwii,
                ios_tid,
                title_id,
                title_type,
                group_id,
                padding2,
                region,
                ratings,
                reserved1,
                ipc_mask,
                reserved2,
                access_rights,
                title_version,
                num_contents,
                boot_index,
                minor_version,
                content_records,
            },
        )
    }
}

impl AccessRight {
    /// The bit of the access rights that stands for this right.
    pub open spec fn spec_bit(self) -> u32 {
        match self {
            AccessRight::AHB => 0,
            AccessRight::DVDVideo => 1,
        }
    }

    /// The bit of the access rights that stands for this right.
    pub fn bit(&self) -> (bit: u32)
        ensures
            bit == self.spec_bit(),
            bit < 32,
    {
        match self {
            AccessRight::AHB => 0,
            AccessRight::DVDVideo => 1,
        }
    }
}

/// The kind of title that the first four bytes of a title ID stand for.
pub open spec fn title_type_of(id: Seq<u8>) -> TitleType
    recommends
        id.len() >= 4,
{
    if id[0] != 0 || id[2] != 0 {
        TitleType::Unknown
    } else if id[1] == 0 && id[3] == 1 {
        TitleType::System
    } else if id[1] != 1 {
        TitleType::Unknown
    } else if id[3] == 0 {
        TitleType::Game
    } else if id[3] == 1 {
        TitleType::Channel
    } else if id[3] == 2 {
        TitleType::SystemChannel
    } else if id[3] == 4 {
        TitleType::GameChannel
    } else if id[3] == 5 {
        TitleType::DLC
    } else if id[3] == 8 {
        TitleType::HiddenChannel
    } else {
        TitleType::Unknown
    }
}

/// The name of the region with number `region`.
pub open spec fn region_name(region: u16) -> Seq<char> {
    if region == 0 {
        "JPN"@
    } else if region == 1 {
        "USA"@
    } else if region == 2 {
        "EUR"@
    } else if region == 3 {
        "None"@
    } else if region == 4 {
        "KOR"@
    } else {
        "Unknown"@
    }
}

/// Writes the 36 bytes of a content record.
pub fn put_record(buf: &mut Vec<u8>, r: &ContentRecord)
    ensures
        final(buf)@ == old(buf)@ + record_bytes(*r),
{
    let ghost start = buf@;
    put_u32(buf, r.content_id);
    put_u16(buf, r.index);
    put_u16(buf, r.content_type.code());
    put_u64(buf, r.content_size);
    put_bytes(buf, &r.content_hash);
    assert(buf@ =~= start + record_bytes(*r));
}

/// The bytes of a record are those that it was read from.
pub proof fn lemma_record_round_trip(r: ContentRecord, data: Seq<u8>, at: int)
    requires
        0 <= at,
        at + RECORD_LEN <= data.len(),
        record_reads_from(r, data, at),
    ensures
        record_bytes(r) == data.subrange(at, at + RECORD_LEN),
{
    lemma_u32_bytes(data.subrange(at, at + 4));
    lemma_u16_bytes(data.subrange(at + 4, at + 6));
    lemma_u16_bytes(data.subrange(at + 6, at + 8));
    lemma_u64_bytes(data.subrange(at + 8, at + 16));
    lemma_subrange_join(data, at, at + 4, at + 6);
    lemma_subrange_join(data, at, at + 6, at + 8);
    lemma_subrange_join(data, at, at + 8, at + 16);
    lemma_subrange_join(data, at, at + 16, at + 36);
}

/// The bytes of the first `k` records are those that follow the header.
pub proof fn lemma_records_round_trip(rs: Seq<ContentRecord>, data: Seq<u8>, k: int)
    requires
        0 <= k <= rs.len(),
        TMD_HEADER_LEN + RECORD_LEN * k <= data.len(),
        forall|i: int|
            0 <= i < k ==> record_reads_from(#[trigger] rs[i], data, TMD_HEADER_LEN + RECORD_LEN * i),
    ensures
        records_bytes(rs.take(k)) == data.subrange(
            TMD_HEADER_LEN as int,
            TMD_HEADER_LEN + RECORD_LEN * k,
        ),
    decreases k,
{
    if k == 0 {
        assert(records_bytes(rs.take(0)) =~= data.subrange(484, 484));
    } else {
        lemma_records_round_trip(rs, data, k - 1);
        assert(rs.take(k).drop_last() == rs.take(k - 1));
        assert(rs.take(k).last() == rs[k - 1]);
        lemma_record_round_trip(rs[k - 1], data, TMD_HEADER_LEN + RECORD_LEN * (k - 1));
        lemma_subrange_join(
            data,
            TMD_HEADER_LEN as int,
            TMD_HEADER_LEN + RECORD_LEN * (k - 1),
            TMD_HEADER_LEN + RECORD_LEN * k,
        );
    }
}

/// The two bytes of its type stand at 6 and 7 in the bytes of a record.
pub proof fn lemma_type_in_record(r: ContentRecord)
    ensures
        record_bytes(r).len() == RECORD_LEN,
        record_bytes(r).subrange(6, 8) == u16_be(r.content_type.spec_code()),
{
    assert(record_bytes(r).subrange(6, 8) =~= u16_be(r.content_type.spec_code()));
}

/// The records' bytes are 36 for each record.
pub proof fn lemma_records_bytes_len(rs: Seq<ContentRecord>)
    ensures
        records_bytes(rs).len() == RECORD_LEN * rs.len(),
    decreases rs.len(),
{
    if rs.len() > 0 {
        lemma_records_bytes_len(rs.drop_last());
    }
}

/// The bytes of record `i` stand at 36 times `i` in the records' bytes.
pub proof fn lemma_record_in_bytes(rs: Seq<ContentRecord>, i: int)
    requires
        0 <= i < rs.len(),
    ensures
        records_bytes(rs).len() == RECORD_LEN * rs.len(),
        records_bytes(rs).subrange(RECORD_LEN * i, RECORD_LEN * i + RECORD_LEN) == record_bytes(
            rs[i],
        ),
    decreases rs.len(),
{
    lemma_records_bytes_len(rs);
    lemma_records_bytes_len(rs.drop_last());
    let head = records_bytes(rs.drop_last());
    let tail = record_bytes(rs.last());
    if i == rs.len() - 1 {
        assert((head + tail).subrange(RECORD_LEN * i, RECORD_LEN * i + RECORD_LEN) =~= tail);
    } else {
        lemma_record_in_bytes(rs.drop_last(), i);
        assert(rs.drop_last()[i] == rs[i]);
        assert((head + tail).subrange(RECORD_LEN * i, RECORD_LEN * i + RECORD_LEN)
            =~= head.subrange(RECORD_LEN * i, RECORD_LEN * i + RECORD_LEN));
    }
}

impl TMD {
    /// The value with a zero signature and `n` as its minor version.
    pub open spec fn with_nonce(self, n: u16) -> TMD {
        TMD { signature: zeroed::<256>(), minor_version: n, ..self }
    }

    /// The part of the binary form that a signature covers: all from the
    /// issuer's name on.
    pub open spec fn spec_signed_body(&self) -> Seq<u8> {
        self.spec_to_bytes().skip(BODY_OFFSET as int)
    }

    /// Whether the signature is zero and the digest of the signed part passes
    /// the console's comparison.
    pub open spec fn spec_is_fakesigned(&self) -> bool {
        self.signature@ == zeros(256) && digest_passes(sha1_digest(self.spec_signed_body()))
    }

    /// Whether the digest passes once the signature is zero and the minor
    /// version is `n`.
    pub open spec fn nonce_passes(self, n: u16) -> bool {
        digest_passes(sha1_digest(self.with_nonce(n).spec_signed_body()))
    }

    /// The least minor version from `from` on with which the digest passes.
    pub open spec fn first_nonce(self, from: int) -> Option<u16>
        decreases 0x1_0000 - from,
    {
        if from < 0 || from > 0xFFFF {
            None
        } else if self.nonce_passes(from as u16) {
            Some(from as u16)
        } else {
            self.first_nonce(from + 1)
        }
    }

    /// Writes the binary form.
    pub fn to_bytes(&self) -> (out: Vec<u8>)
        ensures
            out@ == self.spec_to_bytes(),
            out@.len() == self.spec_len(),
    {
        let mut buf: Vec<u8> = Vec::new();
        put_u32(&mut buf, self.signature_type);
        put_bytes(&mut buf, &self.signature);
        put_bytes(&mut buf, &self.padding1);
        put_bytes(&mut buf, &self.signature_issuer);
        buf.push(self.tmd_version);
        buf.push(self.ca_crl_version);
        buf.push(self.signer_crl_version);
        buf.push(self.is_vwii);
        assert(buf@ =~= u32_be(self.signature_type) + self.signature@ + self.padding1@
            + self.signature_issuer@ + seq![
            self.tmd_version,
            self.ca_crl_version,
            self.signer_crl_version,
            self.is_vwii,
        ]);
        put_bytes(&mut buf, &self.ios_tid);
        put_bytes(&mut buf, &self.title_id);
        put_bytes(&mut buf, &self.title_type);
        put_u16(&mut buf, self.group_id);
        put_bytes(&mut buf, &self.padding2);
        put_u16(&mut buf, self.region);
        put_bytes(&mut buf, &self.ratings);
        put_bytes(&mut buf, &self.reserved1);
        put_bytes(&mut buf, &self.ipc_mask);
        put_bytes(&mut buf, &self.reserved2);
        put_u32(&mut buf, self.access_rights);
        put_u16(&mut buf, self.title_version);
        put_u16(&mut buf, (self.content_records.len() % 0x1_0000) as u16);
        put_u16(&mut buf, self.boot_index);
        put_u16(&mut buf, self.minor_version);
        proof {
            reveal(TMD::spec_header_bytes);
        }
        assert(buf@ == self.spec_header_bytes());
        assert(buf@.len() == TMD_HEADER_LEN);
        let n = self.content_records.len();
        let mut i: usize = 0;
        proof {
            assert(self.content_records@.take(0) =~= Seq::<ContentRecord>::empty());
        }
        while i < n
            invariant
                i <= n,
                n == self.content_records@.len(),
                buf@ == self.spec_header_bytes() + records_bytes(
                    self.content_records@.take(i as int),
                ),
                buf@.len() == TMD_HEADER_LEN + RECORD_LEN * i,
            decreases n - i,
        {
            let ghost before = buf@;
            put_record(&mut buf, &self.content_records[i]);
            proof {
                let rs = self.content_records@;
                assert(rs.take(i + 1).drop_last() == rs.take(i as int));
                assert(rs.take(i + 1).last() == rs[i as int]);
                assert(buf@ =~= self.spec_header_bytes() + records_bytes(rs.take(i + 1)));
            }
            i += 1;
        }
        proof {
            assert(self.content_records@.take(n as int) == self.content_records@);
        }
        buf
    }

    /// Whether the TMD passes the console's signature check without a
    /// signature: the signature is zero and the digest of the signed part
    /// leads with a zero byte.
    pub fn is_fakesigned(&self) -> (fake: bool)
        ensures
            fake == self.spec_is_fakesigned(),
    {
        if !is_all_zero(&self.signature) {
            return false;
        }
        let bytes = self.to_bytes();
        let digest = sha1(slice_subrange(bytes.as_slice(), BODY_OFFSET, bytes.len()));
        passes_comparison(&digest)
    }

    /// Clears the signature and searches the minor versions from 1 to 65535,
    /// in order, for the first with which the digest of the signed part
    /// passes. Without one the TMD is left with minor version 65535.
    pub fn fakesign(&mut self) -> (r: Result<(), TMDError>)
        ensures
            match old(self).first_nonce(1) {
                Some(n) => {
                    &&& r is Ok
                    &&& *final(self) == old(self).with_nonce(n)
                    &&& final(self).spec_is_fakesigned()
                },
                None => {
                    &&& r == Err::<(), TMDError>(TMDError::CannotFakesign)
                    &&& *final(self) == old(self).with_nonce(0xFFFF)
                },
            },
    {
        self.signature = [0u8; 256];
        let mut nonce: u16 = 0;
        self.minor_version = nonce;
        proof {
            assert(zeroed::<256>()@ =~= zeros(256));
        }
        loop
            invariant
                *self == old(self).with_nonce(nonce),
                old(self).first_nonce(1) == old(self).first_nonce(nonce + 1),
                zeroed::<256>()@ == zeros(256),
            decreases 0xFFFF - nonce,
        {
            if nonce == 0xFFFF {
                return Err(TMDError::CannotFakesign);
            }
            nonce += 1;
            self.minor_version = nonce;
            let bytes = self.to_bytes();
            let digest = sha1(slice_subrange(bytes.as_slice(), BODY_OFFSET, bytes.len()));
            if passes_comparison(&digest) {
                return Ok(());
            }
        }
    }

    /// The three-letter name of the region that the TMD was made for.
    pub fn region(&self) -> (name: &'static str)
        ensures
            name@ == region_name(self.region),
    {
        match self.region {
            0 => "JPN",
            1 => "USA",
            2 => "EUR",
            3 => "None",
            4 => "KOR",
            _ => "Unknown",
        }
    }

    /// The kind of title, which the first half of the title ID tells.
    pub fn title_type(&self) -> (kind: TitleType)
        ensures
            kind == title_type_of(self.title_id@),
    {
        let id = &self.title_id;
        if id[0] != 0 || id[2] != 0 {
            TitleType::Unknown
        } else if id[1] == 0 && id[3] == 1 {
            TitleType::System
        } else if id[1] != 1 {
            TitleType::Unknown
        } else {
            match id[3] {
                0 => TitleType::Game,
                1 => TitleType::Channel,
                2 => TitleType::SystemChannel,
                4 => TitleType::GameChannel,
                5 => TitleType::DLC,
                8 => TitleType::HiddenChannel,
                _ => TitleType::Unknown,
            }
        }
    }

    /// The type of the content that the record at position `index` names by
    /// its own index.
    pub fn content_type(&self, index: usize) -> (kind: ContentType)
        requires
            index < self.content_records@.len(),
            self.content_records@[index as int].index < self.content_records@.len(),
        ensures
            kind == self.content_records@[self.content_records@[index as int].index as int].content_type,
    {
        let target = self.content_records[index].index as usize;
        self.content_records[target].content_type
    }

    /// Whether the access rights hold the bit of `right`.
    pub fn check_access_right(&self, right: AccessRight) -> (set: bool)
        ensures
            set == (self.access_rights & (1u32 << right.spec_bit()) != 0),
    {
        self.access_rights & (1u32 << right.bit()) != 0
    }

    /// The name of the certificate that signed the TMD: the text of the
    /// issuer field without the zero bytes at its end.
    pub fn signature_issuer(&self) -> (name: String)
        ensures
            name@ == utf8_lossy(
                self.signature_issuer@.subrange(0, trimmed_len(self.signature_issuer@)),
            ),
    {
        let len = trimmed_length(&self.signature_issuer);
        utf8_lossy_string(slice_subrange(self.signature_issuer.as_slice(), 0, len))
    }

    /// Sets the name of the certificate that signed the TMD, filled up with
    /// zero bytes. A name of more than 64 bytes is refused and changes nothing.
    pub fn set_signature_issuer(&mut self, signature_issuer: String) -> (r: Result<(), TMDError>)
        ensures
            encode_utf8(signature_issuer@).len() > 64 ==> r == Err::<(), TMDError>(
                TMDError::IssuerTooLong(encode_utf8(signature_issuer@).len() as usize),
            ) && *final(self) == *old(self),
            encode_utf8(signature_issuer@).len() <= 64 ==> r is Ok && final(self).signature_issuer@
                == encode_utf8(signature_issuer@) + zeros(64 - encode_utf8(signature_issuer@).len())
                && *final(self) == (TMD { signature_issuer: final(self).signature_issuer, ..*old(self) }),
    {
        let bytes = signature_issuer.as_str().as_bytes();
        let n = bytes.len();
        if n > 64 {
            return Err(TMDError::IssuerTooLong(n));
        }
        let mut issuer = [0u8; 64];
        let mut i: usize = 0;
        while i < n
            invariant
                i <= n <= 64,
                n == bytes.len(),
                forall|k: int| 0 <= k < i ==> issuer@[k] == bytes@[k],
                forall|k: int| i <= k < 64 ==> issuer@[k] == 0,
            decreases n - i,
        {
            issuer[i] = bytes[i];
            i += 1;
        }
        assert(issuer@ =~= bytes@ + zeros(64 - n));
        self.signature_issuer = issuer;
        Ok(())
    }

    /// Whether the TMD describes a title of the Wii U's Wii mode.
    pub fn is_vwii(&self) -> (vwii: bool)
        ensures
            vwii == (self.is_vwii == 1),
    {
        self.is_vwii == 1
    }

    /// Serialising gives back the bytes that a TMD was read from, up to the
    /// end of its last record.
    pub proof fn lemma_reads_from_prefix(&self, data: Seq<u8>)
        requires
            self.reads_from(data),
            data.len() >= self.spec_len(),
        ensures
            self.spec_to_bytes() == data.subrange(0, self.spec_len()),
    {
        self.lemma_header_round_trip(data);
        let rs = self.content_records@;
        lemma_records_round_trip(rs, data, rs.len() as int);
        assert(rs.take(rs.len() as int) == rs);
        lemma_subrange_join(data, 0, TMD_HEADER_LEN as int, self.spec_len());
    }

    /// Reading a TMD and writing it again gives the bytes that were read,
    /// where they end with the last record.
    pub proof fn lemma_round_trip(&self, data: Seq<u8>)
        requires
            self.reads_from(data),
            data.len() == self.spec_len(),
        ensures
            self.spec_to_bytes() == data,
    {
        self.lemma_reads_from_prefix(data);
        assert(data.subrange(0, data.len() as int) == data);
    }

    /// The header's bytes are the first 484 that the TMD was read from.
    pub proof fn lemma_header_round_trip(&self, data: Seq<u8>)
        requires
            self.reads_from(data),
            data.len() >= TMD_HEADER_LEN,
        ensures
            self.spec_header_bytes() == data.subrange(0, TMD_HEADER_LEN as int),
    {
        reveal(TMD::spec_header_bytes);
        lemma_u32_bytes(data.subrange(0, 4));
        lemma_u16_bytes(data.subrange(408, 410));
        lemma_u16_bytes(data.subrange(412, 414));
        lemma_u32_bytes(data.subrange(472, 476));
        lemma_u16_bytes(data.subrange(476, 478));
        lemma_u16_bytes(data.subrange(478, 480));
        lemma_u16_bytes(data.subrange(480, 482));
        lemma_u16_bytes(data.subrange(482, 484));
        assert(seq![self.tmd_version, self.ca_crl_version, self.signer_crl_version, self.is_vwii]
            =~= data.subrange(384, 388));
        assert((self.content_records@.len() % 0x1_0000) as u16 == self.num_contents);
        lemma_subrange_join(data, 0, 4, 260);
        lemma_subrange_join(data, 0, 260, 320);
        lemma_subrange_join(data, 0, 320, 384);
        lemma_subrange_join(data, 0, 384, 388);
        lemma_subrange_join(data, 0, 388, 396);
        lemma_subrange_join(data, 0, 396, 404);
        lemma_subrange_join(data, 0, 404, 408);
        lemma_subrange_join(data, 0, 408, 410);
        lemma_subrange_join(data, 0, 410, 412);
        lemma_subrange_join(data, 0, 412, 414);
        lemma_subrange_join(data, 0, 414, 430);
        lemma_subrange_join(data, 0, 430, 442);
        lemma_subrange_join(data, 0, 442, 454);
        lemma_subrange_join(data, 0, 454, 472);
        lemma_subrange_join(data, 0, 472, 476);
        lemma_subrange_join(data, 0, 476, 478);
        lemma_subrange_join(data, 0, 478, 480);
        lemma_subrange_join(data, 0, 480, 482);
        lemma_subrange_join(data, 0, 482, 484);
    }

    /// The header is 484 bytes long, and holds the count of the records at
    /// bytes 478 and 479.
    pub proof fn lemma_count_place(&self)
        ensures
            self.spec_header_bytes().len() == TMD_HEADER_LEN,
            self.spec_to_bytes().len() == self.spec_len(),
            self.spec_to_bytes().subrange(478, 480) == u16_be(
                (self.content_records@.len() % 0x1_0000) as u16,
            ),
    {
        reveal(TMD::spec_header_bytes);
        lemma_records_bytes_len(self.content_records@);
        let before = u32_be(self.signature_type) + self.signature@ + self.padding1@
            + self.signature_issuer@ + seq![
            self.tmd_version,
            self.ca_crl_version,
            self.signer_crl_version,
            self.is_vwii,
        ] + self.ios_tid@ + self.title_id@ + self.title_type@ + u16_be(self.group_id)
            + self.padding2@ + u16_be(self.region) + self.ratings@ + self.reserved1@
            + self.ipc_mask@ + self.reserved2@ + u32_be(self.access_rights) + u16_be(
            self.title_version,
        );
        assert(before.len() == 478);
        let count = u16_be((self.content_records@.len() % 0x1_0000) as u16);
        let with_count = before + count;
        assert(with_count.subrange(478, 480) =~= count);
        assert(self.spec_header_bytes().subrange(0, 480) =~= with_count);
        assert(self.spec_to_bytes().subrange(478, 480) =~= count);
    }

    /// What a TMD is written as can be read as a TMD.
    pub proof fn lemma_bytes_parse(&self)
        ensures
            tmd_parse_error(self.spec_to_bytes()) is None,
    {
        self.lemma_count_place();
        let bytes = self.spec_to_bytes();
        let count = (self.content_records@.len() % 0x1_0000) as u16;
        crate::codec::lemma_u16_value(count);
        assert(be_u16(bytes.subrange(478, 480)) == count);
        self.lemma_no_record_error(0, count as int);
    }

    /// None of the records from `i` on that the written header counts is in
    /// error.
    pub proof fn lemma_no_record_error(&self, i: int, n: int)
        requires
            0 <= i,
            n <= self.content_records@.len(),
        ensures
            first_record_error(self.spec_to_bytes(), i, n) is None,
        decreases n - i,
    {
        if i < n {
            self.lemma_record_place(i);
            crate::codec::lemma_u16_value(self.content_records@[i].content_type.spec_code());
            self.lemma_no_record_error(i + 1, n);
        }
    }

    /// The two bytes of the type of record `i` stand at their place in the
    /// binary form, which is long enough for the record.
    pub proof fn lemma_record_place(&self, i: int)
        requires
            0 <= i < self.content_records@.len(),
        ensures
            self.spec_to_bytes().len() >= TMD_HEADER_LEN + RECORD_LEN * i + RECORD_LEN,
            self.spec_to_bytes().subrange(
                TMD_HEADER_LEN + RECORD_LEN * i + 6,
                TMD_HEADER_LEN + RECORD_LEN * i + 8,
            ) == u16_be(self.content_records@[i].content_type.spec_code()),
    {
        let rs = self.content_records@;
        self.lemma_count_place();
        lemma_record_in_bytes(rs, i);
        let head = self.spec_header_bytes();
        let tail = records_bytes(rs);
        let piece = record_bytes(rs[i]);
        lemma_type_in_record(rs[i]);
        assert((head + tail).subrange(484 + 36 * i + 6, 484 + 36 * i + 8) =~= tail.subrange(
            36 * i,
            36 * i + 36,
        ).subrange(6, 8));
    }

    /// Fakesigning what was fakesigned changes nothing: the search ends at the
    /// same minor version, and the TMD is fakesigned as before.
    pub proof fn lemma_fakesign_idempotent(self, n: u16)
        requires
            self.first_nonce(1) == Some(n),
        ensures
            self.with_nonce(n).first_nonce(1) == Some(n),
            self.with_nonce(n).with_nonce(n) == self.with_nonce(n),
            self.with_nonce(n).spec_is_fakesigned(),
    {
        self.lemma_first_nonce_same(n, 1);
        self.lemma_first_nonce_passes(1);
        assert(zeroed::<256>()@ =~= zeros(256));
    }

    /// The search does not depend on the signature and the minor version that
    /// it starts from.
    pub proof fn lemma_first_nonce_same(self, n: u16, from: int)
        ensures
            self.with_nonce(n).first_nonce(from) == self.first_nonce(from),
        decreases 0x1_0000 - from,
    {
        if 0 <= from <= 0xFFFF {
            assert(self.with_nonce(n).with_nonce(from as u16) == self.with_nonce(from as u16));
            self.lemma_first_nonce_same(n, from + 1);
        }
    }

    /// What the search finds passes, and lies in the range searched.
    pub proof fn lemma_first_nonce_passes(self, from: int)
        ensures
            match self.first_nonce(from) {
                Some(n) => from <= n && self.nonce_passes(n),
                None => true,
            },
        decreases 0x1_0000 - from,
    {
        if 0 <= from <= 0xFFFF && !self.nonce_passes(from as u16) {
            self.lemma_first_nonce_passes(from + 1);
        }
    }
}

} // verus!
