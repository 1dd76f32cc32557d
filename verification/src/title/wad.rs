//! The WAD container: a header of region sizes, then six regions, each of
//! which begins on a 64-byte boundary.

use crate::codec::{
    align_up, align_up_u64, be_u16, be_u32, lemma_align_up, lemma_subrange_join, lemma_u16_bytes,
    lemma_u32_bytes, pad_to, padded, put_bytes, put_u16, put_u32, read_array, read_u16_at,
    read_u32_at, read_vec, u16_be, u32_be, zeros,
};
use crate::title::content::{region_bytes, ContentRegion};
use crate::title::ticket::{Ticket, TicketError};
use crate::title::tmd::{tmd_parse_error, TMDError, TMD};
use vstd::prelude::*;
use vstd::slice::slice_to_vec;

verus! {

/// The length of the header with the padding that follows it.
pub const WAD_HEADER_LEN: usize = 64;

#[derive(Debug, Clone, Copy, PartialEq, Eq, Structural)]
pub enum WADError {
    /// The type tag is neither `Is` nor `ib`.
    BadType,
    /// The TMD of the WAD could not be read.
    TMDError(TMDError),
    /// The ticket of the WAD could not be read.
    TicketError(TicketError),
    /// The data ends before the header or one of the regions does, or a
    /// region is too large for the header to describe.
    IOError,
}

#[derive(Debug, Clone, Copy, PartialEq, Eq, Structural)]
pub enum WADType {
    /// A title that a console installs, tagged `Is`.
    Installable,
    /// The second-stage boot loader, tagged `ib`.
    ImportBoot,
}

/// The header of a WAD: the size of each region before its padding.
#[derive(Debug)]
pub struct WADHeader {
    pub header_size: u32,
    pub wad_type: WADType,
    pub wad_version: u16,
    pub cert_chain_size: u32,
    pub crl_size: u32,
    pub ticket_size: u32,
    pub tmd_size: u32,
    pub content_size: u32,
    pub meta_size: u32,
    pub padding: [u8; 32],
}

/// The six regions of a WAD.
#[derive(Debug)]
pub struct WADBody {
    pub cert_chain: Vec<u8>,
    pub crl: Vec<u8>,
    pub ticket: Vec<u8>,
    pub tmd: Vec<u8>,
    pub content: Vec<u8>,
    pub meta: Vec<u8>,
}

/// A WAD: header and regions.
#[derive(Debug)]
pub struct WAD {
    pub header: WADHeader,
    pub body: WADBody,
}

/// The two letters that tag a WAD of the given type.
pub open spec fn type_tag(t: WADType) -> Seq<u8> {
    match t {
        WADType::Installable => seq![0x49u8, 0x73u8],
        WADType::ImportBoot => seq![0x69u8, 0x62u8],
    }
}

/// The type that two letters tag, if they tag one.
pub open spec fn tag_type(tag: Seq<u8>) -> Option<WADType> {
    if tag == seq![0x49u8, 0x73u8] {
        Some(WADType::Installable)
    } else if tag == seq![0x69u8, 0x62u8] {
        Some(WADType::ImportBoot)
    } else {
        None
    }
}

/// The size that the header in `data` declares for region `k`, where the
/// regions are numbered from 0 in their order: certificate chain, CRL, ticket,
/// TMD, content, meta. The size of the content region counts up to a whole
/// number of 16-byte blocks.
pub open spec fn region_size(data: Seq<u8>, k: int) -> int {
    if k == 4 {
        align_up(be_u32(data.subrange(24, 28)) as int, 16)
    } else {
        be_u32(data.subrange(8 + 4 * k, 12 + 4 * k)) as int
    }
}

/// Where region `k` begins: the first 64-byte boundary after the region
/// before it, and for the first region, after the header's declared size.
pub open spec fn region_offset(data: Seq<u8>, k: int) -> int
    decreases k,
{
    if k <= 0 {
        align_up(be_u32(data.subrange(0, 4)) as int, 64)
    } else {
        align_up(region_offset(data, k - 1) + region_size(data, k - 1), 64)
    }
}

/// Whether the bytes of region `k` all lie in `data`. An empty region does
/// wherever it begins.
pub open spec fn region_fits(data: Seq<u8>, k: int) -> bool {
    region_size(data, k) == 0 || region_offset(data, k) + region_size(data, k) <= data.len()
}

/// The bytes of region `k`.
pub open spec fn region(data: Seq<u8>, k: int) -> Seq<u8> {
    if region_size(data, k) == 0 {
        Seq::<u8>::empty()
    } else {
        data.subrange(region_offset(data, k), region_offset(data, k) + region_size(data, k))
    }
}

/// Why `data` is no WAD, if it is none.
pub open spec fn wad_parse_error(data: Seq<u8>) -> Option<WADError> {
    if data.len() < 6 {
        Some(WADError::IOError)
    } else if tag_type(data.subrange(4, 6)) is None {
        Some(WADError::BadType)
    } else if data.len() < WAD_HEADER_LEN {
        Some(WADError::IOError)
    } else if region_size(data, 4) > u32::MAX {
        Some(WADError::IOError)
    } else if exists|k: int| 0 <= k < 6 && !region_fits(data, k) {
        Some(WADError::IOError)
    } else {
        None
    }
}

/// Reads the region of `size` bytes at `offset`, if it lies in `data`.
fn read_region(data: &[u8], offset: u64, size: u32) -> (r: Option<Vec<u8>>)
    requires
        offset + size <= u64::MAX,
    ensures
        r is Some <==> (size == 0 || offset + size <= data@.len()),
        r is Some ==> r->0@ == (if size == 0 {
            Seq::<u8>::empty()
        } else {
            data@.subrange(offset as int, offset + size)
        }),
{
    if size == 0 {
        return Some(Vec::new());
    }
    if offset + size as u64 > data.len() as u64 {
        return None;
    }
    Some(read_vec(data, offset as usize, size as usize))
}

/// Where the six regions begin, from the sizes that the header declares.
fn region_offsets(data: &[u8], header_size: u32, sizes: [u32; 6]) -> (offsets: [u64; 6])
    requires
        data@.len() >= WAD_HEADER_LEN,
        header_size == be_u32(data@.subrange(0, 4)),
        forall|k: int| 0 <= k < 6 ==> sizes@[k] == region_size(data@, k),
    ensures
        forall|k: int| 0 <= k < 6 ==> offsets@[k] == region_offset(data@, k),
        forall|k: int| 0 <= k < 6 ==> offsets@[k] + sizes@[k] <= u64::MAX,
{
    let mut offsets = [0u64; 6];
    let mut next = align_up_u64(header_size as u64, 64);
    let mut k: usize = 0;
    while k < 6
        invariant
            k <= 6,
            next == region_offset(data@, k as int),
            next <= (k + 1) * 0x1_0000_0040,
            forall|j: int| 0 <= j < 6 ==> sizes@[j] == region_size(data@, j),
            forall|j: int| 0 <= j < k ==> offsets@[j] == region_offset(data@, j),
            forall|j: int| 0 <= j < k ==> offsets@[j] + sizes@[j] <= u64::MAX,
        decreases 6 - k,
    {
        offsets[k] = next;
        next = align_up_u64(next + sizes[k] as u64, 64);
        k += 1;
    }
    offsets
}

impl WADHeader {
    /// The 64 bytes of the header and its padding.
    pub open spec fn spec_to_bytes(&self) -> Seq<u8> {
        u32_be(self.header_size) + type_tag(self.wad_type) + u16_be(self.wad_version) + u32_be(
            self.cert_chain_size,
        ) + u32_be(self.crl_size) + u32_be(self.ticket_size) + u32_be(self.tmd_size) + u32_be(
            self.content_size,
        ) + u32_be(self.meta_size) + self.padding@
    }

    /// Whether each field holds what stands at its place in `data`; the
    /// content size is counted up to a whole number of blocks.
    pub open spec fn reads_from(&self, data: Seq<u8>) -> bool {
        &&& self.header_size == be_u32(data.subrange(0, 4))
        &&& Some(self.wad_type) == tag_type(data.subrange(4, 6))
        &&& self.wad_version == be_u16(data.subrange(6, 8))
        &&& self.cert_chain_size == region_size(data, 0)
        &&& self.crl_size == region_size(data, 1)
        &&& self.ticket_size == region_size(data, 2)
        &&& self.tmd_size == region_size(data, 3)
        &&& self.content_size == region_size(data, 4)
        &&& self.meta_size == region_size(data, 5)
        &&& self.padding@ == data.subrange(32, 64)
    }
}

impl WADBody {
    /// Whether 32 bits hold the length of each region, so that a header can
    /// give it.
    pub open spec fn fits_header(&self) -> bool {
        &&& self.cert_chain@.len() <= u32::MAX
        &&& self.crl@.len() <= u32::MAX
        &&& self.ticket@.len() <= u32::MAX
        &&& self.tmd@.len() <= u32::MAX
        &&& self.content@.len() <= u32::MAX
        &&& self.meta@.len() <= u32::MAX
    }

    /// Whether each region holds the bytes that the header in `data` sets
    /// apart for it.
    pub open spec fn reads_from(&self, data: Seq<u8>) -> bool {
        &&& self.cert_chain@ == region(data, 0)
        &&& self.crl@ == region(data, 1)
        &&& self.ticket@ == region(data, 2)
        &&& self.tmd@ == region(data, 3)
        &&& self.content@ == region(data, 4)
        &&& self.meta@ == region(data, 5)
    }
}

impl WAD {
    /// Whether the header gives the length of each region.
    pub open spec fn wf(&self) -> bool {
        &&& self.header.cert_chain_size == self.body.cert_chain@.len()
        &&& self.header.crl_size == self.body.crl@.len()
        &&& self.header.ticket_size == self.body.ticket@.len()
        &&& self.header.tmd_size == self.body.tmd@.len()
        &&& self.header.content_size == self.body.content@.len()
        &&& self.header.meta_size == self.body.meta@.len()
    }

    /// The binary form: the header, then each region, each followed by zero
    /// bytes up to the next 64-byte boundary.
    pub open spec fn spec_to_bytes(&self) -> Seq<u8> {
        padded(
            padded(
                padded(
                    padded(
                        padded(
                            padded(
                                padded(self.header.spec_to_bytes(), 64) + self.body.cert_chain@,
                                64,
                            ) + self.body.crl@,
                            64,
                        ) + self.body.ticket@,
                        64,
                    ) + self.body.tmd@,
                    64,
                ) + self.body.content@,
                64,
            ) + self.body.meta@,
            64,
        )
    }

    /// Whether header and regions hold what `data` holds for them.
    pub open spec fn reads_from(&self, data: Seq<u8>) -> bool {
        self.header.reads_from(data) && self.body.reads_from(data)
    }

    /// Reads a WAD from its binary form. The regions are taken as bytes and
    /// not looked into.
    pub fn from_bytes(data: &[u8]) -> (r: Result<WAD, WADError>)
        ensures
            match r {
                Ok(wad) => wad_parse_error(data@) is None && wad.reads_from(data@) && wad.wf(),
                Err(e) => wad_parse_error(data@) == Some(e),
            },
    {
        if data.len() < 6 {
            return Err(WADError::IOError);
        }
        let header_size = read_u32_at(data, 0);
        let wad_type = if data[4] == 0x49 && data[5] == 0x73 {
            WADType::Installable
        } else if data[4] == 0x69 && data[5] == 0x62 {
            WADType::ImportBoot
        } else {
            proof {
                let tag = data@.subrange(4, 6);
                assert(tag[0] == data@[4] && tag[1] == data@[5]);
                assert(seq![0x49u8, 0x73u8][0] == 0x49 && seq![0x49u8, 0x73u8][1] == 0x73);
                assert(seq![0x69u8, 0x62u8][0] == 0x69 && seq![0x69u8, 0x62u8][1] == 0x62);
            }
            return Err(WADError::BadType);
        };
        proof {
            let tag = data@.subrange(4, 6);
            if wad_type == WADType::Installable {
                assert(tag =~= seq![0x49u8, 0x73u8]);
            } else {
                assert(tag =~= seq![0x69u8, 0x62u8]);
                assert(tag[0] != seq![0x49u8, 0x73u8][0]);
            }
        }
        if data.len() < WAD_HEADER_LEN {
            return Err(WADError::IOError);
        }
        let wad_version = read_u16_at(data, 6);
        let cert_chain_size = read_u32_at(data, 8);
        let crl_size = read_u32_at(data, 12);
        let ticket_size = read_u32_at(data, 16);
        let tmd_size = read_u32_at(data, 20);
        let content_blocks = align_up_u64(read_u32_at(data, 24) as u64, 16);
        let meta_size = read_u32_at(data, 28);
        let padding = read_array::<32>(data, 32);
        if content_blocks > u32::MAX as u64 {
            return Err(WADError::IOError);
        }
        let content_size = content_blocks as u32;
        let offsets = region_offsets(
            data,
            header_size,
            [cert_chain_size, crl_size, ticket_size, tmd_size, content_size, meta_size],
        );
        let cert_chain_offset = offsets[0];
        let crl_offset = offsets[1];
        let ticket_offset = offsets[2];
        let tmd_offset = offsets[3];
        let content_offset = offsets[4];
        let meta_offset = offsets[5];
        let cert_chain = match read_region(data, cert_chain_offset, cert_chain_size) {
            Some(v) => v,
            None => {
                assert(!region_fits(data@, 0));
                return Err(WADError::IOError);
            },
        };
        let crl = match read_region(data, crl_offset, crl_size) {
            Some(v) => v,
            None => {
                assert(!region_fits(data@, 1));
                return Err(WADError::IOError);
            },
        };
        let ticket = match read_region(data, ticket_offset, ticket_size) {
            Some(v) => v,
            None => {
                assert(!region_fits(data@, 2));
                return Err(WADError::IOError);
            },
        };
        let tmd = match read_region(data, tmd_offset, tmd_size) {
            Some(v) => v,
            None => {
                assert(!region_fits(data@, 3));
                return Err(WADError::IOError);
            },
        };
        let content = match read_region(data, content_offset, content_size) {
            Some(v) => v,
            None => {
                assert(!region_fits(data@, 4));
                return Err(WADError::IOError);
            },
        };
        let meta = match read_region(data, meta_offset, meta_size) {
            Some(v) => v,
            None => {
                assert(!region_fits(data@, 5));
                return Err(WADError::IOError);
            },
        };
        proof {
            assert(forall|k: int| 0 <= k < 6 ==> region_fits(data@, k)) by {
                assert(region_fits(data@, 0) && region_fits(data@, 1) && region_fits(data@, 2)
                    && region_fits(data@, 3) && region_fits(data@, 4) && region_fits(data@, 5));
            }
        }
        let header = WADHeader {
            header_size,
            wad_type,
            wad_version,
            cert_chain_size,
            crl_size,
            ticket_size,
            tmd_size,
            content_size,
            meta_size,
            padding,
        };
        let body = WADBody { cert_chain, crl, ticket, tmd, content, meta };
        Ok(WAD { header, body })
    }

    /// Writes the binary form.
    pub fn to_bytes(&self) -> (out: Vec<u8>)
        ensures
            out@ == self.spec_to_bytes(),
    {
        let mut buf: Vec<u8> = Vec::new();
        put_u32(&mut buf, self.header.header_size);
        match self.header.wad_type {
            WADType::Installable => {
                buf.push(0x49);
                buf.push(0x73);
            },
            WADType::ImportBoot => {
                buf.push(0x69);
                buf.push(0x62);
            },
        }
        assert(buf@ =~= u32_be(self.header.header_size) + type_tag(self.header.wad_type));
        put_u16(&mut buf, self.header.wad_version);
        put_u32(&mut buf, self.header.cert_chain_size);
        put_u32(&mut buf, self.header.crl_size);
        put_u32(&mut buf, self.header.ticket_size);
        put_u32(&mut buf, self.header.tmd_size);
        put_u32(&mut buf, self.header.content_size);
        put_u32(&mut buf, self.header.meta_size);
        put_bytes(&mut buf, &self.header.padding);
        pad_to(&mut buf, 64);
        put_bytes(&mut buf, self.body.cert_chain.as_slice());
        pad_to(&mut buf, 64);
        put_bytes(&mut buf, self.body.crl.as_slice());
        pad_to(&mut buf, 64);
        put_bytes(&mut buf, self.body.ticket.as_slice());
        pad_to(&mut buf, 64);
        put_bytes(&mut buf, self.body.tmd.as_slice());
        pad_to(&mut buf, 64);
        put_bytes(&mut buf, self.body.content.as_slice());
        pad_to(&mut buf, 64);
        put_bytes(&mut buf, self.body.meta.as_slice());
        pad_to(&mut buf, 64);
        buf
    }
}

/// The title ID of the second-stage boot loader.
pub open spec fn boot2_title_id() -> Seq<u8> {
    seq![0u8, 0u8, 0u8, 1u8, 0u8, 0u8, 0u8, 1u8]
}

/// The low 32 bits of a length, which is what a header holds of it.
pub open spec fn size_field(len: int) -> u32 {
    (len % 0x1_0000_0000) as u32
}

/// The low 32 bits of a length.
fn size_of_len(len: usize) -> (size: u32)
    ensures
        size == size_field(len as int),
        len <= u32::MAX ==> size == len,
{
    (len as u64 % 0x1_0000_0000) as u32
}

/// The header for a set of regions: their sizes, version 0, and the type
/// asked for.
fn header_for(body: &WADBody, boot: bool) -> (header: WADHeader)
    ensures
        header.header_size == 32,
        header.wad_type == (if boot {
            WADType::ImportBoot
        } else {
            WADType::Installable
        }),
        header.wad_version == 0,
        header.cert_chain_size == size_field(body.cert_chain@.len() as int),
        header.crl_size == size_field(body.crl@.len() as int),
        header.ticket_size == size_field(body.ticket@.len() as int),
        header.tmd_size == size_field(body.tmd@.len() as int),
        header.content_size == size_field(body.content@.len() as int),
        header.meta_size == size_field(body.meta@.len() as int),
        header.padding@ == zeros(32),
{
    let padding = [0u8; 32];
    assert(padding@ =~= zeros(32));
    WADHeader {
        header_size: 32,
        wad_type: if boot {
            WADType::ImportBoot
        } else {
            WADType::Installable
        },
        wad_version: 0,
        cert_chain_size: size_of_len(body.cert_chain.len()),
        crl_size: size_of_len(body.crl.len()),
        ticket_size: size_of_len(body.ticket.len()),
        tmd_size: size_of_len(body.tmd.len()),
        content_size: size_of_len(body.content.len()),
        meta_size: size_of_len(body.meta.len()),
        padding,
    }
}

/// Whether a title ID is that of the second-stage boot loader.
fn is_boot2(id: &[u8; 8]) -> (boot: bool)
    ensures
        boot == (id@ == boot2_title_id()),
{
    let boot = id[0] == 0 && id[1] == 0 && id[2] == 0 && id[3] == 1 && id[4] == 0 && id[5] == 0
        && id[6] == 0 && id[7] == 1;
    proof {
        if boot {
            assert(id@ =~= boot2_title_id());
        } else {
            assert(boot2_title_id()[0] == 0 && boot2_title_id()[1] == 0 && boot2_title_id()[2] == 0
                && boot2_title_id()[3] == 1 && boot2_title_id()[4] == 0 && boot2_title_id()[5]
                == 0 && boot2_title_id()[6] == 0 && boot2_title_id()[7] == 1);
        }
    }
    boot
}

impl WADHeader {
    /// The header for a set of regions: their sizes, version 0, and the type
    /// that the title ID in the TMD region tells. The TMD region must hold a
    /// TMD.
    pub fn from_body(body: &WADBody) -> (r: Result<WADHeader, WADError>)
        ensures
            match tmd_parse_error(body.tmd@) {
                Some(e) => r == Err::<WADHeader, WADError>(WADError::TMDError(e)),
                None => {
                    &&& r is Ok
                    &&& r->Ok_0.header_size == 32
                    &&& r->Ok_0.wad_type == (if body.tmd@.subrange(396, 404) == boot2_title_id() {
                        WADType::ImportBoot
                    } else {
                        WADType::Installable
                    })
                    &&& r->Ok_0.wad_version == 0
                    &&& r->Ok_0.cert_chain_size == size_field(body.cert_chain@.len() as int)
                    &&& r->Ok_0.crl_size == size_field(body.crl@.len() as int)
                    &&& r->Ok_0.ticket_size == size_field(body.ticket@.len() as int)
                    &&& r->Ok_0.tmd_size == size_field(body.tmd@.len() as int)
                    &&& r->Ok_0.content_size == size_field(body.content@.len() as int)
                    &&& r->Ok_0.meta_size == size_field(body.meta@.len() as int)
                    &&& r->Ok_0.padding@ == zeros(32)
                },
            },
    {
        let tmd = match TMD::from_bytes(body.tmd.as_slice()) {
            Ok(tmd) => tmd,
            Err(e) => {
                return Err(WADError::TMDError(e));
            },
        };
        Ok(header_for(body, is_boot2(&tmd.title_id)))
    }
}

impl WADBody {
    /// The regions of a WAD from the parts of a title: ticket, TMD and
    /// contents in their binary form, the rest as it is.
    pub fn from_parts(
        cert_chain: &[u8],
        crl: &[u8],
        ticket: &Ticket,
        tmd: &TMD,
        content: &ContentRegion,
        meta: &[u8],
    ) -> (r: Result<WADBody, WADError>)
        requires
            content.wf(),
        ensures
            r is Ok,
            r->Ok_0.cert_chain@ == cert_chain@,
            r->Ok_0.crl@ == crl@,
            r->Ok_0.ticket@ == ticket.spec_to_bytes(),
            r->Ok_0.tmd@ == tmd.spec_to_bytes(),
            r->Ok_0.content@ == region_bytes(content.spec_contents()),
            r->Ok_0.meta@ == meta@,
    {
        Ok(
            WADBody {
                cert_chain: slice_to_vec(cert_chain),
                crl: slice_to_vec(crl),
                ticket: ticket.to_bytes(),
                tmd: tmd.to_bytes(),
                content: content.to_bytes(),
                meta: slice_to_vec(meta),
            },
        )
    }
}

impl WAD {
    /// A WAD from the parts of a title: the regions that `WADBody::from_parts`
    /// gives, and a header with their sizes, version 0, and the type that the
    /// title ID of the TMD tells. It never fails.
    pub fn from_parts(
        cert_chain: &[u8],
        crl: &[u8],
        ticket: &Ticket,
        tmd: &TMD,
        content: &ContentRegion,
        meta: &[u8],
    ) -> (r: Result<WAD, WADError>)
        requires
            content.wf(),
        ensures
            r is Ok,
            r->Ok_0.body.cert_chain@ == cert_chain@,
            r->Ok_0.body.crl@ == crl@,
            r->Ok_0.body.ticket@ == ticket.spec_to_bytes(),
            r->Ok_0.body.tmd@ == tmd.spec_to_bytes(),
            r->Ok_0.body.content@ == region_bytes(content.spec_contents()),
            r->Ok_0.body.meta@ == meta@,
            r->Ok_0.header.header_size == 32,
            r->Ok_0.header.wad_type == (if tmd.title_id@ == boot2_title_id() {
                WADType::ImportBoot
            } else {
                WADType::Installable
            }),
            r->Ok_0.header.wad_version == 0,
            r->Ok_0.header.cert_chain_size == size_field(cert_chain@.len() as int),
            r->Ok_0.header.crl_size == size_field(crl@.len() as int),
            r->Ok_0.header.ticket_size == size_field(r->Ok_0.body.ticket@.len() as int),
            r->Ok_0.header.tmd_size == size_field(r->Ok_0.body.tmd@.len() as int),
            r->Ok_0.header.content_size == size_field(r->Ok_0.body.content@.len() as int),
            r->Ok_0.header.meta_size == size_field(meta@.len() as int),
            r->Ok_0.header.padding@ == zeros(32),
            r->Ok_0.body.fits_header() ==> r->Ok_0.wf(),
    {
        let body = match WADBody::from_parts(cert_chain, crl, ticket, tmd, content, meta) {
            Ok(body) => body,
            Err(e) => {
                return Err(e);
            },
        };
        let header = header_for(&body, is_boot2(&tmd.title_id));
        Ok(WAD { header, body })
    }

    /// The size of the certificate chain as the header gives it.
    pub fn cert_chain_size(&self) -> (size: u32)
        ensures
            size == self.header.cert_chain_size,
    {
        self.header.cert_chain_size
    }

    /// A copy of the certificate chain.
    pub fn cert_chain(&self) -> (out: Vec<u8>)
        ensures
            out@ == self.body.cert_chain@,
    {
        slice_to_vec(self.body.cert_chain.as_slice())
    }

    /// Replaces the certificate chain and sets its size in the header, as far as 32 bits
    /// hold it.
    pub fn set_cert_chain(&mut self, cert_chain: &[u8])
        ensures
            final(self).body.cert_chain@ == cert_chain@,
            final(self).header.cert_chain_size == size_field(cert_chain@.len() as int),
            final(self).body == (WADBody { cert_chain: final(self).body.cert_chain, ..old(self).body }),
            final(self).header == (WADHeader {
                cert_chain_size: final(self).header.cert_chain_size,
                ..old(self).header
            }),
    {
        self.body.cert_chain = slice_to_vec(cert_chain);
        self.header.cert_chain_size = size_of_len(cert_chain.len());
    }

    /// The size of the CRL as the header gives it.
    pub fn crl_size(&self) -> (size: u32)
        ensures
            size == self.header.crl_size,
    {
        self.header.crl_size
    }

    /// A copy of the CRL.
    pub fn crl(&self) -> (out: Vec<u8>)
        ensures
            out@ == self.body.crl@,
    {
        slice_to_vec(self.body.crl.as_slice())
    }

    /// Replaces the CRL and sets its size in the header, as far as 32 bits
    /// hold it.
    pub fn set_crl(&mut self, crl: &[u8])
        ensures
            final(self).body.crl@ == crl@,
            final(self).header.crl_size == size_field(crl@.len() as int),
            final(self).body == (WADBody { crl: final(self).body.crl, ..old(self).body }),
            final(self).header == (WADHeader {
                crl_size: final(self).header.crl_size,
                ..old(self).header
            }),
    {
        self.body.crl = slice_to_vec(crl);
        self.header.crl_size = size_of_len(crl.len());
    }

    /// The size of the ticket as the header gives it.
    pub fn ticket_size(&self) -> (size: u32)
        ensures
            size == self.header.ticket_size,
    {
        self.header.ticket_size
    }

    /// A copy of the ticket.
    pub fn ticket(&self) -> (out: Vec<u8>)
        ensures
            out@ == self.body.ticket@,
    {
        slice_to_vec(self.body.ticket.as_slice())
    }

    /// Replaces the ticket and sets its size in the header, as far as 32 bits
    /// hold it.
    pub fn set_ticket(&mut self, ticket: &[u8])
        ensures
            final(self).body.ticket@ == ticket@,
            final(self).header.ticket_size == size_field(ticket@.len() as int),
            final(self).body == (WADBody { ticket: final(self).body.ticket, ..old(self).body }),
            final(self).header == (WADHeader {
                ticket_size: final(self).header.ticket_size,
                ..old(self).header
            }),
    {
        self.body.ticket = slice_to_vec(ticket);
        self.header.ticket_size = size_of_len(ticket.len());
    }

    /// The size of the TMD as the header gives it.
    pub fn tmd_size(&self) -> (size: u32)
        ensures
            size == self.header.tmd_size,
    {
        self.header.tmd_size
    }

    /// A copy of the TMD.
    pub fn tmd(&self) -> (out: Vec<u8>)
        ensures
            out@ == self.body.tmd@,
    {
        slice_to_vec(self.body.tmd.as_slice())
    }

    /// Replaces the TMD and sets its size in the header, as far as 32 bits
    /// hold it.
    pub fn set_tmd(&mut self, tmd: &[u8])
        ensures
            final(self).body.tmd@ == tmd@,
            final(self).header.tmd_size == size_field(tmd@.len() as int),
            final(self).body == (WADBody { tmd: final(self).body.tmd, ..old(self).body }),
            final(self).header == (WADHeader {
                tmd_size: final(self).header.tmd_size,
                ..old(self).header
            }),
    {
        self.body.tmd = slice_to_vec(tmd);
        self.header.tmd_size = size_of_len(tmd.len());
    }

    /// The size of the content region as the header gives it.
    pub fn content_size(&self) -> (size: u32)
        ensures
            size == self.header.content_size,
    {
        self.header.content_size
    }

    /// A copy of the content region.
    pub fn content(&self) -> (out: Vec<u8>)
        ensures
            out@ == self.body.content@,
    {
        slice_to_vec(self.body.content.as_slice())
    }

    /// Replaces the content region and sets its size in the header, as far as 32 bits
    /// hold it.
    pub fn set_content(&mut self, content: &[u8])
        ensures
            final(self).body.content@ == content@,
            final(self).header.content_size == size_field(content@.len() as int),
            final(self).body == (WADBody { content: final(self).body.content, ..old(self).body }),
            final(self).header == (WADHeader {
                content_size: final(self).header.content_size,
                ..old(self).header
            }),
    {
        self.body.content = slice_to_vec(content);
        self.header.content_size = size_of_len(content.len());
    }

    /// The size of the meta region as the header gives it.
    pub fn meta_size(&self) -> (size: u32)
        ensures
            size == self.header.meta_size,
    {
        self.header.meta_size
    }

    /// A copy of the meta region.
    pub fn meta(&self) -> (out: Vec<u8>)
        ensures
            out@ == self.body.meta@,
    {
        slice_to_vec(self.body.meta.as_slice())
    }

    /// Replaces the meta region and sets its size in the header, as far as 32 bits
    /// hold it.
    pub fn set_meta(&mut self, meta: &[u8])
        ensures
            final(self).body.meta@ == meta@,
            final(self).header.meta_size == size_field(meta@.len() as int),
            final(self).body == (WADBody { meta: final(self).body.meta, ..old(self).body }),
            final(self).header == (WADHeader {
                meta_size: final(self).header.meta_size,
                ..old(self).header
            }),
    {
        self.body.meta = slice_to_vec(meta);
        self.header.meta_size = size_of_len(meta.len());
    }
}

/// Where the padding after region `k` ends: the next 64-byte boundary.
pub open spec fn region_end(data: Seq<u8>, k: int) -> int {
    align_up(region_offset(data, k) + region_size(data, k), 64)
}

/// Whether position `p` lies in the padding that follows region `k`.
pub open spec fn in_padding(data: Seq<u8>, k: int, p: int) -> bool {
    0 <= k < 6 && region_offset(data, k) + region_size(data, k) <= p < region_end(data, k)
}

/// Whether `data` is laid out as a WAD is written: the regions begin right
/// after the 64 bytes of the header, the content size is whole blocks, all
/// padding is zero bytes, and the data ends with the padding of the last
/// region.
pub open spec fn is_canonical_wad(data: Seq<u8>) -> bool {
    &&& data.len() >= WAD_HEADER_LEN
    &&& region_offset(data, 0) == WAD_HEADER_LEN
    &&& be_u32(data.subrange(24, 28)) % 16 == 0
    &&& data.len() == region_end(data, 5)
    &&& forall|k: int, p: int| #[trigger] in_padding(data, k, p) ==> data[p] == 0
}

/// One region and its padding lengthen the prefix of `data` that has been
/// written.
proof fn lemma_region_step(data: Seq<u8>, k: int, written: Seq<u8>, bytes: Seq<u8>)
    requires
        0 <= k < 6,
        0 <= region_offset(data, k),
        region_size(data, k) >= 0,
        written == data.subrange(0, region_offset(data, k)),
        bytes == region(data, k),
        region_end(data, k) <= data.len(),
        forall|k: int, p: int| #[trigger] in_padding(data, k, p) ==> data[p] == 0,
    ensures
        padded(written + bytes, 64) == data.subrange(0, region_end(data, k)),
{
    let at = region_offset(data, k);
    let size = region_size(data, k);
    lemma_align_up(at + size, 64);
    assert(bytes =~= data.subrange(at, at + size));
    assert forall|p: int| at + size <= p < align_up(at + size, 64) implies data[p] == 0 by {
        assert(in_padding(data, k, p));
    }
    crate::codec::lemma_padded_prefix(data, at, size, 64);
}

impl WADHeader {
    /// The header's bytes are the first 64 that it was read from, where the
    /// content size there is whole blocks.
    pub proof fn lemma_round_trip(&self, data: Seq<u8>)
        requires
            self.reads_from(data),
            data.len() >= WAD_HEADER_LEN,
            be_u32(data.subrange(24, 28)) % 16 == 0,
        ensures
            self.spec_to_bytes() == data.subrange(0, WAD_HEADER_LEN as int),
    {
        lemma_u32_bytes(data.subrange(0, 4));
        lemma_u16_bytes(data.subrange(6, 8));
        lemma_u32_bytes(data.subrange(8, 12));
        lemma_u32_bytes(data.subrange(12, 16));
        lemma_u32_bytes(data.subrange(16, 20));
        lemma_u32_bytes(data.subrange(20, 24));
        lemma_u32_bytes(data.subrange(24, 28));
        lemma_u32_bytes(data.subrange(28, 32));
        assert(type_tag(self.wad_type) == data.subrange(4, 6));
        lemma_subrange_join(data, 0, 4, 6);
        lemma_subrange_join(data, 0, 6, 8);
        lemma_subrange_join(data, 0, 8, 12);
        lemma_subrange_join(data, 0, 12, 16);
        lemma_subrange_join(data, 0, 16, 20);
        lemma_subrange_join(data, 0, 20, 24);
        lemma_subrange_join(data, 0, 24, 28);
        lemma_subrange_join(data, 0, 28, 32);
        lemma_subrange_join(data, 0, 32, 64);
    }
}

impl WAD {
    /// Reading a WAD and writing it again gives the bytes that were read,
    /// where they are laid out as a WAD is written.
    pub proof fn lemma_round_trip(&self, data: Seq<u8>)
        requires
            self.reads_from(data),
            is_canonical_wad(data),
        ensures
            self.spec_to_bytes() == data,
    {
        reveal_with_fuel(region_offset, 6);
        self.header.lemma_round_trip(data);
        let h = self.header.spec_to_bytes();
        assert(padded(h, 64) =~= h) by {
            lemma_align_up(64, 64);
        }
        lemma_align_up(region_offset(data, 0) + region_size(data, 0), 64);
        lemma_align_up(region_offset(data, 1) + region_size(data, 1), 64);
        lemma_align_up(region_offset(data, 2) + region_size(data, 2), 64);
        lemma_align_up(region_offset(data, 3) + region_size(data, 3), 64);
        lemma_align_up(region_offset(data, 4) + region_size(data, 4), 64);
        lemma_align_up(region_offset(data, 5) + region_size(data, 5), 64);
        lemma_align_up(be_u32(data.subrange(24, 28)) as int, 16);
        let b0 = padded(h, 64);
        let b1 = padded(b0 + self.body.cert_chain@, 64);
        let b2 = padded(b1 + self.body.crl@, 64);
        let b3 = padded(b2 + self.body.ticket@, 64);
        let b4 = padded(b3 + self.body.tmd@, 64);
        let b5 = padded(b4 + self.body.content@, 64);
        let b6 = padded(b5 + self.body.meta@, 64);
        lemma_region_step(data, 0, b0, self.body.cert_chain@);
        assert(region_end(data, 0) == region_offset(data, 1));
        lemma_region_step(data, 1, b1, self.body.crl@);
        assert(region_end(data, 1) == region_offset(data, 2));
        lemma_region_step(data, 2, b2, self.body.ticket@);
        assert(region_end(data, 2) == region_offset(data, 3));
        lemma_region_step(data, 3, b3, self.body.tmd@);
        assert(region_end(data, 3) == region_offset(data, 4));
        lemma_region_step(data, 4, b4, self.body.content@);
        assert(region_end(data, 4) == region_offset(data, 5));
        lemma_region_step(data, 5, b5, self.body.meta@);
        assert(data.subrange(0, data.len() as int) == data);
        assert(self.spec_to_bytes() == b6);
    }
}

} // verus!
