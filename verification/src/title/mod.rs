//! Titles and the structures that make one up.

pub mod cert;
pub mod commonkeys;
pub mod content;
pub mod crypto;
pub mod ticket;
pub mod tmd;
pub mod wad;

use crate::codec::zeros;
use crate::title::cert::{chain_error, CertificateChain, CertificateError};
use crate::title::commonkeys::CommonKeys;
use crate::title::content::{
    cid_position, cid_used, cid_used_elsewhere, content_at, content_offset, last_position,
    lemma_readable_by_size, max_index, plain_of, region_bytes, region_readable, ContentError,
    ContentRegion,
};
use crate::title::crypto::spec_decrypt_title_key;
use crate::title::ticket::{ticket_parse_error, Ticket, TicketError, TICKET_LEN};
use crate::title::tmd::{tmd_parse_error, ContentRecord, ContentType, TMDError, TMD};
use crate::title::wad::{
    boot2_title_id, region, size_field, wad_parse_error, WADError, WADType, WAD,
};
use vstd::prelude::*;
use vstd::slice::slice_to_vec;

verus! {

/// The size of one block of the console's storage.
pub const BLOCK_SIZE: usize = 131072;

#[derive(Debug, PartialEq, Eq)]
pub enum TitleError {
    /// The ticket region holds no ticket.
    BadTicket,
    /// The TMD region holds no TMD.
    BadTMD,
    /// The content region does not hold the contents that the TMD records.
    BadContent,
    /// The data is no WAD.
    InvalidWAD,
    /// The TMD could not be worked on.
    TMDError(TMDError),
    /// The ticket could not be worked on.
    TicketError(TicketError),
    /// No WAD could be built.
    WADError(WADError),
    /// The contents could not be worked on.
    Content(ContentError),
    /// A size is too large for this machine.
    IOError,
}

/// A title: certificate chain, CRL, ticket, TMD, contents and meta data.
#[derive(Debug)]
pub struct Title {
    pub cert_chain: Vec<u8>,
    pub crl: Vec<u8>,
    pub ticket: Ticket,
    pub tmd: TMD,
    pub content: ContentRegion,
    pub meta: Vec<u8>,
}

/// The sizes on record, added up. The shared contents count only where
/// `absolute` says so: a console holds them once for all titles.
pub open spec fn counted_size(records: Seq<ContentRecord>, absolute: bool) -> int
    decreases records.len(),
{
    if records.len() == 0 {
        0
    } else {
        counted_size(records.drop_last(), absolute) + (if records.last().content_type
            == ContentType::Shared && !absolute {
            0
        } else {
            records.last().content_size as int
        })
    }
}

/// The number of whole blocks that hold `size` bytes.
pub open spec fn blocks_for(size: int) -> int {
    if size % (BLOCK_SIZE as int) == 0 {
        size / (BLOCK_SIZE as int)
    } else {
        size / (BLOCK_SIZE as int) + 1
    }
}

/// A copy of a list of records.
pub fn copy_records(records: &Vec<ContentRecord>) -> (out: Vec<ContentRecord>)
    ensures
        out@ == records@,
{
    let mut out: Vec<ContentRecord> = Vec::new();
    let n = records.len();
    let mut i: usize = 0;
    while i < n
        invariant
            i <= n,
            n == records@.len(),
            out@ == records@.subrange(0, i as int),
        decreases n - i,
    {
        out.push(records[i]);
        i += 1;
    }
    assert(records@.subrange(0, n as int) == records@);
    out
}

impl Title {
    /// Whether the TMD holds the records of the contents and counts them.
    pub open spec fn records_synced(&self) -> bool {
        self.tmd.content_records@ == self.content.content_records@ && self.tmd.num_contents
            == self.content.content_records@.len() % 0x1_0000
    }

    /// Whether TMD and ticket are both fakesigned.
    pub open spec fn spec_is_fakesigned(&self) -> bool {
        self.tmd.spec_is_fakesigned() && self.ticket.spec_is_fakesigned()
    }

    /// The title key of the ticket, unwrapped with `keys`.
    pub open spec fn spec_title_key(&self, keys: CommonKeys) -> Seq<u8> {
        spec_decrypt_title_key(
            self.ticket.title_key@,
            keys,
            self.ticket.common_key_index,
            self.ticket.title_id@,
            self.ticket.spec_is_dev(),
        )
    }

    /// The size of the title once installed: TMD, ticket and the contents
    /// that count.
    pub open spec fn spec_title_size(&self, absolute: bool) -> int {
        self.tmd.spec_len() + TICKET_LEN + counted_size(self.tmd.content_records@, absolute)
    }

    /// Reads ticket, TMD and contents out of the regions of a WAD.
    pub fn from_wad(wad: &WAD) -> (r: Result<Title, TitleError>)
        ensures
            ticket_parse_error(wad.body.ticket@) is Some ==> r == Err::<Title, TitleError>(
                TitleError::BadTicket,
            ),
            ticket_parse_error(wad.body.ticket@) is None && tmd_parse_error(wad.body.tmd@) is Some
                ==> r == Err::<Title, TitleError>(TitleError::BadTMD),
            ticket_parse_error(wad.body.ticket@) is None && tmd_parse_error(wad.body.tmd@) is None
                ==> forall|t: TMD| #[trigger]
                t.reads_from(wad.body.tmd@) ==> (if region_readable(
                    wad.body.content@.len() as int,
                    t.content_records@,
                ) {
                    r is Ok
                } else {
                    r == Err::<Title, TitleError>(TitleError::BadContent)
                }),
            r is Ok ==> {
                let title = r->Ok_0;
                &&& title.cert_chain@ == wad.body.cert_chain@
                &&& title.crl@ == wad.body.crl@
                &&& title.meta@ == wad.body.meta@
                &&& title.ticket.reads_from(wad.body.ticket@)
                &&& title.tmd.reads_from(wad.body.tmd@)
                &&& title.records_synced()
                &&& title.content.wf()
                &&& title.content.content_region_size == wad.body.content@.len() % 0x1_0000_0000
                &&& title.content.content_start_offsets@.len()
                    == title.content.content_records@.len()
                &&& forall|i: int|
                    0 <= i < title.content.content_records@.len()
                        ==> #[trigger] title.content.content_start_offsets@[i] == content_offset(
                        title.content.content_records@,
                        i,
                    )
                &&& forall|i: int|
                    0 <= i < title.content.content_records@.len() ==> (
                    #[trigger] title.content.contents@[i])@ == content_at(
                        wad.body.content@,
                        title.content.content_records@,
                        i,
                    )
            },
    {
        let ticket = match Ticket::from_bytes(wad.body.ticket.as_slice()) {
            Ok(ticket) => ticket,
            Err(_) => {
                return Err(TitleError::BadTicket);
            },
        };
        let tmd = match TMD::from_bytes(wad.body.tmd.as_slice()) {
            Ok(tmd) => tmd,
            Err(_) => {
                return Err(TitleError::BadTMD);
            },
        };
        proof {
            assert forall|t: TMD| #[trigger] t.reads_from(wad.body.tmd@) implies region_readable(
                wad.body.content@.len() as int,
                t.content_records@,
            ) == region_readable(wad.body.content@.len() as int, tmd.content_records@) by {
                lemma_readable_by_size(
                    wad.body.content@.len() as int,
                    t.content_records@,
                    tmd.content_records@,
                );
            }
        }
        let content = match ContentRegion::from_bytes(
            wad.body.content.as_slice(),
            copy_records(&tmd.content_records),
        ) {
            Ok(content) => content,
            Err(_) => {
                return Err(TitleError::BadContent);
            },
        };
        Ok(
            Title {
                cert_chain: slice_to_vec(wad.body.cert_chain.as_slice()),
                crl: slice_to_vec(wad.body.crl.as_slice()),
                ticket,
                tmd,
                content,
                meta: slice_to_vec(wad.body.meta.as_slice()),
            },
        )
    }

    /// Builds the WAD of the title from its parts as they are. It never
    /// fails.
    pub fn to_wad(&self) -> (r: Result<WAD, TitleError>)
        requires
            self.content.wf(),
        ensures
            r is Ok,
            r->Ok_0.body.cert_chain@ == self.cert_chain@,
            r->Ok_0.body.crl@ == self.crl@,
            r->Ok_0.body.ticket@ == self.ticket.spec_to_bytes(),
            r->Ok_0.body.tmd@ == self.tmd.spec_to_bytes(),
            r->Ok_0.body.content@ == region_bytes(self.content.spec_contents()),
            r->Ok_0.body.meta@ == self.meta@,
            r->Ok_0.header.header_size == 32,
            r->Ok_0.header.wad_version == 0,
            r->Ok_0.header.wad_type == (if self.tmd.title_id@ == boot2_title_id() {
                WADType::ImportBoot
            } else {
                WADType::Installable
            }),
            r->Ok_0.header.cert_chain_size == size_field(self.cert_chain@.len() as int),
            r->Ok_0.header.crl_size == size_field(self.crl@.len() as int),
            r->Ok_0.header.ticket_size == size_field(r->Ok_0.body.ticket@.len() as int),
            r->Ok_0.header.tmd_size == size_field(r->Ok_0.body.tmd@.len() as int),
            r->Ok_0.header.content_size == size_field(r->Ok_0.body.content@.len() as int),
            r->Ok_0.header.meta_size == size_field(self.meta@.len() as int),
            r->Ok_0.header.padding@ == zeros(32),
    {
        match WAD::from_parts(
            self.cert_chain.as_slice(),
            self.crl.as_slice(),
            &self.ticket,
            &self.tmd,
            &self.content,
            self.meta.as_slice(),
        ) {
            Ok(wad) => Ok(wad),
            Err(e) => Err(TitleError::WADError(e)),
        }
    }

    /// Reads a title from the binary form of a WAD.
    pub fn from_bytes(bytes: &[u8]) -> (r: Result<Title, TitleError>)
        ensures
            wad_parse_error(bytes@) is Some ==> r == Err::<Title, TitleError>(
                TitleError::InvalidWAD,
            ),
            wad_parse_error(bytes@) is None && ticket_parse_error(region(bytes@, 2)) is Some ==> r
                == Err::<Title, TitleError>(TitleError::BadTicket),
            wad_parse_error(bytes@) is None && ticket_parse_error(region(bytes@, 2)) is None
                && tmd_parse_error(region(bytes@, 3)) is Some ==> r == Err::<Title, TitleError>(
                TitleError::BadTMD,
            ),
            wad_parse_error(bytes@) is None && ticket_parse_error(region(bytes@, 2)) is None
                && tmd_parse_error(region(bytes@, 3)) is None ==> forall|t: TMD| #[trigger]
                t.reads_from(region(bytes@, 3)) ==> (if region_readable(
                    region(bytes@, 4).len() as int,
                    t.content_records@,
                ) {
                    r is Ok
                } else {
                    r == Err::<Title, TitleError>(TitleError::BadContent)
                }),
            r is Ok ==> {
                let title = r->Ok_0;
                &&& title.cert_chain@ == region(bytes@, 0)
                &&& title.crl@ == region(bytes@, 1)
                &&& title.meta@ == region(bytes@, 5)
                &&& title.ticket.reads_from(region(bytes@, 2))
                &&& title.tmd.reads_from(region(bytes@, 3))
                &&& title.records_synced()
                &&& title.content.wf()
                &&& title.content.content_region_size == region(bytes@, 4).len() % 0x1_0000_0000
                &&& title.content.content_start_offsets@.len()
                    == title.content.content_records@.len()
                &&& forall|i: int|
                    0 <= i < title.content.content_records@.len()
                        ==> #[trigger] title.content.content_start_offsets@[i] == content_offset(
                        title.content.content_records@,
                        i,
                    )
                &&& forall|i: int|
                    0 <= i < title.content.content_records@.len() ==> (
                    #[trigger] title.content.contents@[i])@ == content_at(
                        region(bytes@, 4),
                        title.content.content_records@,
                        i,
                    )
            },
    {
        let wad = match WAD::from_bytes(bytes) {
            Ok(wad) => wad,
            Err(_) => {
                return Err(TitleError::InvalidWAD);
            },
        };
        Title::from_wad(&wad)
    }

    /// Whether TMD and ticket are both fakesigned.
    pub fn is_fakesigned(&self) -> (fake: bool)
        ensures
            fake == self.spec_is_fakesigned(),
    {
        self.tmd.is_fakesigned() && self.ticket.is_fakesigned()
    }

    /// Fakesigns the TMD and then the ticket. Where the TMD cannot be
    /// fakesigned the ticket is left as it is.
    pub fn fakesign(&mut self) -> (r: Result<(), TitleError>)
        ensures
            final(self).cert_chain == old(self).cert_chain,
            final(self).crl == old(self).crl,
            final(self).content == old(self).content,
            final(self).meta == old(self).meta,
            match old(self).tmd.first_nonce(1) {
                None => {
                    &&& r == Err::<(), TitleError>(TitleError::TMDError(TMDError::CannotFakesign))
                    &&& final(self).tmd == old(self).tmd.with_nonce(0xFFFF)
                    &&& final(self).ticket == old(self).ticket
                },
                Some(n) => {
                    &&& final(self).tmd == old(self).tmd.with_nonce(n)
                    &&& match old(self).ticket.first_nonce(1) {
                        None => {
                            &&& r == Err::<(), TitleError>(
                                TitleError::TicketError(TicketError::CannotFakesign),
                            )
                            &&& final(self).ticket == old(self).ticket.with_nonce(0xFFFF)
                        },
                        Some(m) => {
                            &&& r is Ok
                            &&& final(self).ticket == old(self).ticket.with_nonce(m)
                            &&& final(self).spec_is_fakesigned()
                        },
                    }
                },
            },
    {
        match self.tmd.fakesign() {
            Ok(()) => {},
            Err(e) => {
                return Err(TitleError::TMDError(e));
            },
        }
        match self.ticket.fakesign() {
            Ok(()) => Ok(()),
            Err(e) => Err(TitleError::TicketError(e)),
        }
    }

    /// Walks the certificate chain of the title for its TMD and its ticket:
    /// whether the certificate authority signed the two signing certificates,
    /// and they the TMD and the ticket.
    pub fn verify(&self) -> (r: Result<bool, CertificateError>)
        ensures
            chain_error(self.cert_chain@, 0) is Some ==> r == Err::<bool, CertificateError>(
                chain_error(self.cert_chain@, 0)->0,
            ),
            chain_error(self.cert_chain@, 0) is None ==> exists|chain: CertificateChain| #[trigger]
                chain.reads_from(self.cert_chain@) && r == chain.spec_verify(
                    self.tmd,
                    self.ticket,
                ),
    {
        let chain = match CertificateChain::from_bytes(self.cert_chain.as_slice()) {
            Ok(chain) => chain,
            Err(e) => {
                return Err(e);
            },
        };
        chain.verify(&self.tmd, &self.ticket)
    }

    /// The content at a position, decrypted with the title key of the ticket
    /// and checked against its record.
    pub fn get_content_by_index(&self, index: usize, keys: &CommonKeys) -> (r: Result<
        Vec<u8>,
        ContentError,
    >)
        ensures
            self.content.content_outcome(index as int, self.spec_title_key(*keys), r),
            r is Ok <==> self.content.content_verifies(index as int, self.spec_title_key(*keys)),
    {
        self.content.get_content_by_index(index, self.ticket.dec_title_key(keys))
    }

    /// The content of the first record that holds the Content ID, decrypted
    /// with the title key of the ticket and checked against its record.
    pub fn get_content_by_cid(&self, cid: u32, keys: &CommonKeys) -> (r: Result<
        Vec<u8>,
        ContentError,
    >)
        ensures
            ({
                let p = cid_position(self.content.content_records@, cid, 0);
                if p < self.content.content_records@.len() {
                    self.content.content_outcome(p, self.spec_title_key(*keys), r)
                } else {
                    r == Err::<Vec<u8>, ContentError>(ContentError::CIDNotFound(cid))
                }
            }),
    {
        self.content.get_content_by_cid(cid, self.ticket.dec_title_key(keys))
    }

    /// The size of the title once installed, in bytes: TMD, ticket, and the
    /// contents on the TMD's records. Shared contents count only where
    /// `absolute` is `Some(true)`.
    pub fn title_size(&self, absolute: Option<bool>) -> (r: Result<usize, TitleError>)
        ensures
            r is Ok <==> self.spec_title_size(absolute == Some(true)) <= usize::MAX,
            r is Ok ==> r->Ok_0 == self.spec_title_size(absolute == Some(true)),
            r is Err ==> r->Err_0 == TitleError::IOError,
    {
        let all = match absolute {
            Some(b) => b,
            None => false,
        };
        let tmd_len = self.tmd.to_bytes().len();
        let ticket_len = self.ticket.to_bytes().len();
        let n = self.tmd.content_records.len();
        let ghost rs = self.tmd.content_records@;
        let mut total: u64 = 0;
        let mut i: usize = 0;
        proof {
            assert(rs.take(0) =~= Seq::<ContentRecord>::empty());
        }
        while i < n
            invariant
                i <= n,
                n == rs.len(),
                rs == self.tmd.content_records@,
                all == (absolute == Some(true)),
                total == counted_size(rs.take(i as int), all),
            decreases n - i,
        {
            let record = self.tmd.content_records[i];
            proof {
                assert(rs.take(i + 1).drop_last() == rs.take(i as int));
                assert(rs.take(i + 1).last() == rs[i as int]);
                lemma_counted_grows(rs, i as int + 1, n as int, all);
                assert(rs.take(n as int) == rs);
            }
            let counts = match record.content_type {
                ContentType::Shared => all,
                _ => true,
            };
            if counts {
                if record.content_size > u64::MAX - total {
                    return Err(TitleError::IOError);
                }
                total = total + record.content_size;
            }
            i += 1;
        }
        proof {
            assert(rs.take(n as int) == rs);
        }
        if total > usize::MAX as u64 {
            return Err(TitleError::IOError);
        }
        let total = total as usize;
        if tmd_len > usize::MAX - ticket_len || total > usize::MAX - ticket_len - tmd_len {
            return Err(TitleError::IOError);
        }
        Ok(tmd_len + ticket_len + total)
    }

    /// The size of the title once installed, in blocks of 128 KiB, a started
    /// block counting as one.
    pub fn title_size_blocks(&self, absolute: Option<bool>) -> (r: Result<usize, TitleError>)
        ensures
            r is Ok <==> self.spec_title_size(absolute == Some(true)) <= usize::MAX,
            r is Ok ==> r->Ok_0 == blocks_for(self.spec_title_size(absolute == Some(true))),
            r is Err ==> r->Err_0 == TitleError::IOError,
    {
        let size = match self.title_size(absolute) {
            Ok(size) => size,
            Err(e) => {
                return Err(e);
            },
        };
        let whole = size / BLOCK_SIZE;
        assert(size as int == self.spec_title_size(absolute == Some(true)));
        assert(whole as int == (size as int) / (BLOCK_SIZE as int));
        if size % BLOCK_SIZE == 0 {
            Ok(whole)
        } else {
            Ok(whole + 1)
        }
    }

    /// A copy of the certificate chain.
    pub fn cert_chain(&self) -> (out: Vec<u8>)
        ensures
            out@ == self.cert_chain@,
    {
        slice_to_vec(self.cert_chain.as_slice())
    }

    /// Replaces the certificate chain.
    pub fn set_cert_chain(&mut self, cert_chain: &[u8])
        ensures
            final(self).cert_chain@ == cert_chain@,
            *final(self) == (Title { cert_chain: final(self).cert_chain, ..*old(self) }),
    {
        self.cert_chain = slice_to_vec(cert_chain);
    }

    /// A copy of the CRL.
    pub fn crl(&self) -> (out: Vec<u8>)
        ensures
            out@ == self.crl@,
    {
        slice_to_vec(self.crl.as_slice())
    }

    /// Replaces the CRL.
    pub fn set_crl(&mut self, crl: &[u8])
        ensures
            final(self).crl@ == crl@,
            *final(self) == (Title { crl: final(self).crl, ..*old(self) }),
    {
        self.crl = slice_to_vec(crl);
    }

    /// Replaces the ticket.
    pub fn set_ticket(&mut self, ticket: Ticket)
        ensures
            *final(self) == (Title { ticket, ..*old(self) }),
    {
        self.ticket = ticket;
    }

    /// Replaces the TMD. Its records are not held against the contents.
    pub fn set_tmd(&mut self, tmd: TMD)
        ensures
            *final(self) == (Title { tmd, ..*old(self) }),
    {
        self.tmd = tmd;
    }

    /// Replaces the contents. The TMD's records stay as they are until
    /// `sync_records` is called.
    pub fn set_content(&mut self, content: ContentRegion)
        ensures
            *final(self) == (Title { content, ..*old(self) }),
    {
        self.content = content;
    }

    /// A copy of the meta data.
    pub fn meta(&self) -> (out: Vec<u8>)
        ensures
            out@ == self.meta@,
    {
        slice_to_vec(self.meta.as_slice())
    }

    /// Replaces the meta data.
    pub fn set_meta(&mut self, meta: &[u8])
        ensures
            final(self).meta@ == meta@,
            *final(self) == (Title { meta: final(self).meta, ..*old(self) }),
    {
        self.meta = slice_to_vec(meta);
    }

    /// Copies the records of the contents into the TMD and counts them
    /// there, so that the TMD describes the contents as they are.
    pub fn sync_records(&mut self)
        ensures
            final(self).records_synced(),
            final(self).tmd == (TMD {
                content_records: final(self).tmd.content_records,
                num_contents: final(self).tmd.num_contents,
                ..old(self).tmd
            }),
            *final(self) == (Title { tmd: final(self).tmd, ..*old(self) }),
    {
        self.tmd.content_records = copy_records(&self.content.content_records);
        self.tmd.num_contents = (self.content.content_records.len() % 0x1_0000) as u16;
    }

    /// Encrypts a new content under the title key of the ticket, adds it at
    /// the end, and brings the TMD's records up to date. Where the content is
    /// refused nothing changes.
    pub fn add_content(
        &mut self,
        content: &[u8],
        cid: u32,
        content_type: ContentType,
        keys: &CommonKeys,
    ) -> (r: Result<(), TitleError>)
        requires
            old(self).content.wf(),
        ensures
            r is Ok <==> max_index(old(self).content.content_records@) < 0xFFFF && !cid_used(
                old(self).content.content_records@,
                cid,
            ),
            r is Err ==> *final(self) == *old(self),
            max_index(old(self).content.content_records@) >= 0xFFFF ==> r == Err::<
                (),
                TitleError,
            >(
                TitleError::Content(ContentError::IndexOutOfRange { index: 0x1_0000, max: 0xFFFF }),
            ),
            max_index(old(self).content.content_records@) < 0xFFFF && cid_used(
                old(self).content.content_records@,
                cid,
            ) ==> r == Err::<(), TitleError>(
                TitleError::Content(ContentError::CIDAlreadyExists(cid)),
            ),
            r is Ok ==> {
                let n = old(self).content.content_records@.len() as int;
                &&& final(self).records_synced()
                &&& final(self).content.wf()
                &&& final(self).content.content_records@.len() == n + 1
                &&& final(self).content.content_records@.subrange(0, n) == old(self).content.content_records@
                &&& final(self).content.content_records@[n].content_id == cid
                &&& final(self).content.content_records@[n].content_type == content_type
                &&& final(self).content.content_verifies(n, old(self).spec_title_key(*keys))
                &&& plain_of(
                    final(self).content.contents@[n]@,
                    old(self).spec_title_key(*keys),
                    final(self).content.content_records@[n],
                ) == content@
                &&& final(self).ticket == old(self).ticket
            },
    {
        let title_key = self.ticket.dec_title_key(keys);
        proof {
            crate::title::content::lemma_max_index_bounds(self.content.content_records@);
        }
        match self.content.add_content(content, cid, content_type, title_key) {
            Ok(()) => {},
            Err(e) => {
                return Err(TitleError::Content(e));
            },
        }
        proof {
            crate::title::content::lemma_plain_cut(content@);
        }
        self.sync_records();
        Ok(())
    }

    /// Encrypts new data for the content at a position under the title key of
    /// the ticket, and brings the TMD's records up to date. Where the data is
    /// refused nothing changes.
    pub fn replace_content(
        &mut self,
        content: &[u8],
        index: usize,
        cid: Option<u32>,
        content_type: Option<ContentType>,
        keys: &CommonKeys,
    ) -> (r: Result<(), TitleError>)
        ensures
            r is Ok <==> index < old(self).content.content_records@.len() && index < old(self).content.contents@.len() && !(cid is Some && cid_used_elsewhere(
                old(self).content.content_records@,
                cid->0,
                index as int,
            )),
            r is Err ==> *final(self) == *old(self),
            index >= old(self).content.content_records@.len() || index >= old(self).content.contents@.len() ==> r == Err::<(), TitleError>(
                TitleError::Content(
                    ContentError::IndexOutOfRange {
                        index,
                        max: last_position(
                            old(self).content.content_records@.len() as int,
                        ) as usize,
                    },
                ),
            ),
            index < old(self).content.content_records@.len() && index < old(self).content.contents@.len() && cid is Some && cid_used_elsewhere(
                old(self).content.content_records@,
                cid->0,
                index as int,
            ) ==> r == Err::<(), TitleError>(
                TitleError::Content(ContentError::CIDAlreadyExists(cid->0)),
            ),
            r is Ok ==> {
                &&& final(self).records_synced()
                &&& final(self).content.content_records@.len() == old(self).content.content_records@.len()
                &&& final(self).content.contents@.len() == old(self).content.contents@.len()
                &&& final(self).content.content_verifies(
                    index as int,
                    old(self).spec_title_key(*keys),
                )
                &&& plain_of(
                    final(self).content.contents@[index as int]@,
                    old(self).spec_title_key(*keys),
                    final(self).content.content_records@[index as int],
                ) == content@
                &&& final(self).ticket == old(self).ticket
            },
    {
        let title_key = self.ticket.dec_title_key(keys);
        match self.content.set_content(content, index, cid, content_type, title_key) {
            Ok(()) => {},
            Err(e) => {
                return Err(TitleError::Content(e));
            },
        }
        self.sync_records();
        Ok(())
    }

    /// Takes the content at a position and its record out, and brings the
    /// TMD's records up to date. Where there is no such content nothing
    /// changes.
    pub fn remove_content(&mut self, index: usize) -> (r: Result<(), TitleError>)
        ensures
            r is Ok <==> index < old(self).content.content_records@.len() && index < old(self).content.contents@.len(),
            r is Err ==> *final(self) == *old(self) && r == Err::<(), TitleError>(
                TitleError::Content(
                    ContentError::IndexOutOfRange {
                        index,
                        max: last_position(
                            old(self).content.content_records@.len() as int,
                        ) as usize,
                    },
                ),
            ),
            r is Ok ==> {
                &&& final(self).records_synced()
                &&& final(self).content.content_records@ == old(self).content.content_records@.remove(index as int)
                &&& final(self).content.spec_contents() == old(self).content.spec_contents().remove(index as int)
                &&& final(self).ticket == old(self).ticket
            },
    {
        match self.content.remove_content(index) {
            Ok(()) => {},
            Err(e) => {
                return Err(TitleError::Content(e));
            },
        }
        self.sync_records();
        Ok(())
    }
}

/// The sizes added up over more records are not less.
pub proof fn lemma_counted_grows(records: Seq<ContentRecord>, i: int, k: int, absolute: bool)
    requires
        0 <= i <= k <= records.len(),
    ensures
        0 <= counted_size(records.take(i), absolute) <= counted_size(records.take(k), absolute),
    decreases k,
{
    if i < k {
        lemma_counted_grows(records, i, k - 1, absolute);
        assert(records.take(k).drop_last() == records.take(k - 1));
    } else if i > 0 {
        lemma_counted_grows(records, i - 1, i - 1, absolute);
        assert(records.take(i).drop_last() == records.take(i - 1));
    }
}

} // verus!
