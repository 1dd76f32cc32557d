//! The contents of a title as a WAD stores them: encrypted, each with its
//! record of size and digest.

use crate::codec::{
    align_up, align_up_u64, checked_align_up, lemma_align_up, pad_to, padded, put_bytes, read_vec,
    zeros,
};
use crate::digest::{hex_encode, hex_lower, same_digest, sha1, sha1_digest};
use crate::title::crypto::{
    aes128_cbc_decrypt, content_iv, content_plain, decrypt_content, encrypt_content,
};
use crate::title::tmd::{ContentRecord, ContentType};
use vstd::prelude::*;
use vstd::slice::{slice_subrange, slice_to_vec};

verus! {

#[derive(Debug, PartialEq, Eq)]
pub enum ContentError {
    /// There is no content at the position asked for; `max` is the last
    /// position that there is, or 0 where there is none.
    IndexOutOfRange { index: usize, max: usize },
    /// The contents handed over are not as many as the records.
    MissingContents { required: usize, found: usize },
    /// No record holds the Content ID.
    CIDNotFound(u32),
    /// A record holds the index already.
    IndexAlreadyExists(u16),
    /// A record holds the Content ID already.
    CIDAlreadyExists(u32),
    /// The digest of the decrypted content is not the one on record; both in
    /// hexadecimal.
    BadHash { hash: String, expected: String },
    /// The data ends before a content does, or a stored content is not a
    /// whole number of blocks.
    IO,
}

/// The contents of a title, encrypted as they are stored, and their records.
#[derive(Debug)]
pub struct ContentRegion {
    pub content_records: Vec<ContentRecord>,
    pub content_region_size: u32,
    pub content_start_offsets: Vec<u64>,
    pub contents: Vec<Vec<u8>>,
}

/// The length that a content of the record's size takes when stored: its size
/// counted up to whole 16-byte blocks.
pub open spec fn stored_len(r: ContentRecord) -> int {
    align_up(r.content_size as int, 16)
}

/// Where content `i` begins in a content region: after the contents before
/// it, each counted up to a 64-byte boundary.
pub open spec fn content_offset(records: Seq<ContentRecord>, i: int) -> int
    decreases i,
{
    if i <= 0 {
        0
    } else {
        content_offset(records, i - 1) + align_up(records[i - 1].content_size as int, 64)
    }
}

/// Whether content `i` can be taken from a region of `len` bytes: its offset
/// is one that 64 bits hold, and its blocks lie in the region. A content
/// without blocks lies in it wherever it begins.
pub open spec fn content_fits(len: int, records: Seq<ContentRecord>, i: int) -> bool {
    content_offset(records, i) <= u64::MAX && (stored_len(records[i]) == 0 || content_offset(
        records,
        i,
    ) + stored_len(records[i]) <= len)
}

/// The blocks of content `i` in a content region.
pub open spec fn content_at(data: Seq<u8>, records: Seq<ContentRecord>, i: int) -> Seq<u8> {
    if stored_len(records[i]) == 0 {
        Seq::<u8>::empty()
    } else {
        data.subrange(
            content_offset(records, i),
            content_offset(records, i) + stored_len(records[i]),
        )
    }
}

/// The sum of the sizes on record, each counted up to a 64-byte boundary.
pub open spec fn padded_total(records: Seq<ContentRecord>) -> int {
    content_offset(records, records.len() as int)
}

/// What a stored content holds: its decryption under the title key and the
/// record's index, cut to the size on record.
pub open spec fn plain_of(enc: Seq<u8>, title_key: Seq<u8>, r: ContentRecord) -> Seq<u8> {
    let dec = aes128_cbc_decrypt(title_key, content_iv(r.index), enc);
    if r.content_size < dec.len() {
        dec.subrange(0, r.content_size as int)
    } else {
        dec
    }
}

/// The position of the first record from `from` on that holds the Content ID,
/// or the number of records where none does.
pub open spec fn cid_position(records: Seq<ContentRecord>, cid: u32, from: int) -> int
    decreases records.len() - from,
{
    if from < 0 || from >= records.len() {
        records.len() as int
    } else if records[from].content_id == cid {
        from
    } else {
        cid_position(records, cid, from + 1)
    }
}

/// Whether a record other than the one at `but` holds the Content ID.
pub open spec fn cid_used_elsewhere(records: Seq<ContentRecord>, cid: u32, but: int) -> bool {
    exists|j: int| 0 <= j < records.len() && j != but && (#[trigger] records[j]).content_id == cid
}

/// Whether a record holds the Content ID.
pub open spec fn cid_used(records: Seq<ContentRecord>, cid: u32) -> bool {
    exists|j: int| 0 <= j < records.len() && (#[trigger] records[j]).content_id == cid
}

/// Whether a record holds the index.
pub open spec fn index_used(records: Seq<ContentRecord>, index: u16) -> bool {
    exists|j: int| 0 <= j < records.len() && (#[trigger] records[j]).index == index
}

/// The greatest index on record, or 0 where there is no record.
pub open spec fn max_index(records: Seq<ContentRecord>) -> int
    decreases records.len(),
{
    if records.len() == 0 {
        0
    } else if records.last().index > max_index(records.drop_last()) {
        records.last().index as int
    } else {
        max_index(records.drop_last())
    }
}

/// The position of the first record from `from` on whose index is not below
/// the number of records, or that number where there is none.
pub open spec fn first_far_index(records: Seq<ContentRecord>, from: int) -> int
    decreases records.len() - from,
{
    if from < 0 || from >= records.len() {
        records.len() as int
    } else if records[from].index >= records.len() {
        from
    } else {
        first_far_index(records, from + 1)
    }
}

/// The first index that is too far is that of a record, where one is.
pub proof fn lemma_first_far_index(records: Seq<ContentRecord>, from: int)
    requires
        0 <= from,
    ensures
        first_far_index(records, from) <= records.len(),
        first_far_index(records, from) < records.len() ==> from <= first_far_index(records, from)
            && records[first_far_index(records, from)].index >= records.len(),
        forall|i: int|
            from <= i < first_far_index(records, from) ==> (#[trigger] records[i]).index
                < records.len(),
    decreases records.len() - from,
{
    if from < records.len() && records[from].index < records.len() {
        lemma_first_far_index(records, from + 1);
    }
}

/// The contents after the first `k` of `contents` were put, in order, each at
/// the position that its record's index names, into `n` empty places.
pub open spec fn placed(
    contents: Seq<Seq<u8>>,
    records: Seq<ContentRecord>,
    n: int,
    k: int,
) -> Seq<Seq<u8>>
    decreases k,
{
    if k <= 0 {
        Seq::new(n as nat, |i: int| Seq::<u8>::empty())
    } else {
        placed(contents, records, n, k - 1).update(records[k - 1].index as int, contents[k - 1])
    }
}

/// The contents one after the other, each followed by zero bytes up to the
/// next 64-byte boundary.
pub open spec fn region_bytes(contents: Seq<Seq<u8>>) -> Seq<u8>
    decreases contents.len(),
{
    if contents.len() == 0 {
        Seq::<u8>::empty()
    } else {
        region_bytes(contents.drop_last()) + padded(contents.last(), 64)
    }
}

/// The last position that a list of `len` entries has, or 0 where it has none.
pub open spec fn last_position(len: int) -> int {
    if len <= 0 {
        0
    } else {
        len - 1
    }
}

/// The decrypted content if its digest is the one on record, and else the
/// error that names both digests.
pub fn check_content_hash(plain: Vec<u8>, digest: &[u8; 20], expected: &[u8; 20]) -> (r: Result<
    Vec<u8>,
    ContentError,
>)
    ensures
        digest@ == expected@ ==> r is Ok && r->Ok_0@ == plain@,
        digest@ != expected@ ==> match r {
            Err(ContentError::BadHash { hash, expected: e }) => hash@ == hex_lower(digest@) && e@
                == hex_lower(expected@),
            _ => false,
        },
{
    if same_digest(digest, expected) {
        Ok(plain)
    } else {
        Err(ContentError::BadHash { hash: hex_encode(digest), expected: hex_encode(expected) })
    }
}

impl ContentRegion {
    /// Whether there is one stored content for each record.
    pub open spec fn wf(&self) -> bool {
        self.contents@.len() == self.content_records@.len()
    }

    /// The stored contents as bytes.
    pub open spec fn spec_contents(&self) -> Seq<Seq<u8>> {
        Seq::new(self.contents@.len(), |i: int| self.contents@[i]@)
    }

    /// Whether the content at position `i` is whole blocks that decrypt, under
    /// the title key, to bytes with the digest on record.
    pub open spec fn content_verifies(&self, i: int, title_key: Seq<u8>) -> bool {
        &&& 0 <= i < self.contents@.len()
        &&& i < self.content_records@.len()
        &&& self.contents@[i]@.len() % 16 == 0
        &&& sha1_digest(plain_of(self.contents@[i]@, title_key, self.content_records@[i]))
            == self.content_records@[i].content_hash@
    }

    /// Whether `r` is what asking for the content at position `index` gives:
    /// the error that names the position where there is no such content, the
    /// error for a stored content that is not whole blocks, the decrypted
    /// content where its digest is the one on record, and else the error that
    /// names both digests.
    pub open spec fn content_outcome(
        &self,
        index: int,
        title_key: Seq<u8>,
        r: Result<Vec<u8>, ContentError>,
    ) -> bool {
        if index < 0 || index >= self.contents@.len() || index >= self.content_records@.len() {
            r == Err::<Vec<u8>, ContentError>(
                ContentError::IndexOutOfRange {
                    index: index as usize,
                    max: last_position(self.content_records@.len() as int) as usize,
                },
            )
        } else {
            let enc = self.contents@[index]@;
            let record = self.content_records@[index];
            let plain = plain_of(enc, title_key, record);
            if enc.len() % 16 != 0 {
                r == Err::<Vec<u8>, ContentError>(ContentError::IO)
            } else if sha1_digest(plain) == record.content_hash@ {
                r is Ok && r->Ok_0@ == plain
            } else {
                match r {
                    Err(ContentError::BadHash { hash, expected }) => hash@ == hex_lower(
                        sha1_digest(plain),
                    ) && expected@ == hex_lower(record.content_hash@),
                    _ => false,
                }
            }
        }
    }

    /// Whether every content verifies under the title key: decrypted and cut
    /// to the size on record, each has the digest on record.
    pub open spec fn all_verify(&self, title_key: Seq<u8>) -> bool {
        self.wf() && forall|i: int|
            0 <= i < self.contents@.len() ==> self.content_verifies(i, title_key)
    }

    /// Whether every content but the one at `but` verifies.
    pub open spec fn others_verify(&self, but: int, title_key: Seq<u8>) -> bool {
        self.wf() && forall|i: int|
            0 <= i < self.contents@.len() && i != but ==> self.content_verifies(i, title_key)
    }

    /// The error for a position at which there is nothing.
    fn out_of_range(&self, index: usize) -> (e: ContentError)
        ensures
            e == (ContentError::IndexOutOfRange {
                index,
                max: last_position(self.content_records@.len() as int) as usize,
            }),
    {
        let n = self.content_records.len();
        ContentError::IndexOutOfRange { index, max: if n == 0 { 0 } else { n - 1 } }
    }

    /// Takes the contents out of the content region of a WAD, as the records
    /// of its TMD lay them out.
    pub fn from_bytes(data: &[u8], content_records: Vec<ContentRecord>) -> (r: Result<
        ContentRegion,
        ContentError,
    >)
        ensures
            r is Ok <==> region_readable(data@.len() as int, content_records@),
            r is Err ==> r->Err_0 == ContentError::IO,
            r is Ok ==> r->Ok_0.content_records == content_records,
            r is Ok ==> r->Ok_0.wf(),
            r is Ok ==> r->Ok_0.content_region_size == data@.len() % 0x1_0000_0000,
            r is Ok ==> r->Ok_0.content_start_offsets@.len() == content_records@.len(),
            r is Ok ==> forall|i: int|
                0 <= i < content_records@.len() ==> (#[trigger] r->Ok_0.contents@[i])@
                    == content_at(data@, content_records@, i),
            r is Ok ==> forall|i: int|
                0 <= i < content_records@.len() ==> #[trigger] r->Ok_0.content_start_offsets@[i]
                    == content_offset(content_records@, i),
    {
        let content_region_size = (data.len() as u64 % 0x1_0000_0000) as u32;
        assert(content_region_size == data@.len() % 0x1_0000_0000);
        let n = content_records.len();
        let mut content_start_offsets: Vec<u64> = Vec::new();
        let mut contents: Vec<Vec<u8>> = Vec::new();
        let mut offset: u64 = 0;
        let mut i: usize = 0;
        while i < n
            invariant
                i <= n,
                n == content_records@.len(),
                contents@.len() == i,
                content_start_offsets@.len() == i,
                content_region_size == data@.len() % 0x1_0000_0000,
                i < n ==> offset == content_offset(content_records@, i as int),
                forall|j: int|
                    0 <= j < i ==> content_fits(data@.len() as int, content_records@, j),
                forall|j: int|
                    0 <= j < i ==> (#[trigger] contents@[j])@ == content_at(
                        data@,
                        content_records@,
                        j,
                    ),
                forall|j: int|
                    0 <= j < i ==> #[trigger] content_start_offsets@[j] == content_offset(
                        content_records@,
                        j,
                    ),
            decreases n - i,
        {
            let size = content_records[i].content_size;
            let content = match checked_align_up(size, 16) {
                None => {
                    assert(data@.len() == data.len());
                    assert(!content_fits(data@.len() as int, content_records@, i as int));
                    return Err(ContentError::IO);
                },
                Some(blocks) => {
                    if blocks == 0 {
                        Vec::new()
                    } else {
                        if blocks > data.len() as u64 || offset > data.len() as u64 - blocks {
                            assert(!content_fits(data@.len() as int, content_records@, i as int));
                            return Err(ContentError::IO);
                        }
                        read_vec(data, offset as usize, blocks as usize)
                    }
                },
            };
            contents.push(content);
            content_start_offsets.push(offset);
            if i + 1 < n {
                let next = match checked_align_up(size, 64) {
                    None => None,
                    Some(step) => if step > u64::MAX - offset {
                        None
                    } else {
                        Some(offset + step)
                    },
                };
                match next {
                    None => {
                        assert(!content_fits(data@.len() as int, content_records@, i + 1));
                        return Err(ContentError::IO);
                    },
                    Some(o) => {
                        offset = o;
                    },
                }
            }
            i += 1;
        }
        let region = ContentRegion {
            content_records,
            content_region_size,
            content_start_offsets,
            contents,
        };
        assert(region.wf());
        assert(region.content_region_size == data@.len() % 0x1_0000_0000);
        assert(region.content_start_offsets@.len() == region.content_records@.len());
        Ok(region)
    }

    /// Takes the contents out of a content region as `from_bytes` does, and
    /// where `strict` is set only out of a region that is no longer than its
    /// contents with their padding: a region with bytes after the padding of
    /// its last content is then refused.
    pub fn from_bytes_checked(
        data: &[u8],
        content_records: Vec<ContentRecord>,
        strict: bool,
    ) -> (r: Result<ContentRegion, ContentError>)
        ensures
            r is Ok <==> region_readable(data@.len() as int, content_records@) && (strict
                ==> data@.len() <= padded_total(content_records@)),
            r is Err ==> r->Err_0 == ContentError::IO,
            r is Ok ==> r->Ok_0.content_records == content_records,
            r is Ok ==> r->Ok_0.wf(),
            r is Ok ==> r->Ok_0.content_region_size == data@.len() % 0x1_0000_0000,
            r is Ok ==> r->Ok_0.content_start_offsets@.len() == content_records@.len(),
            r is Ok ==> forall|i: int|
                0 <= i < content_records@.len() ==> (#[trigger] r->Ok_0.contents@[i])@
                    == content_at(data@, content_records@, i),
            r is Ok ==> forall|i: int|
                0 <= i < content_records@.len() ==> #[trigger] r->Ok_0.content_start_offsets@[i]
                    == content_offset(content_records@, i),
    {
        if strict {
            let n = content_records.len();
            let mut total: u64 = 0;
            let mut beyond = false;
            let mut i: usize = 0;
            while i < n && !beyond
                invariant
                    i <= n,
                    n == content_records@.len(),
                    !beyond ==> total == content_offset(content_records@, i as int),
                    beyond ==> padded_total(content_records@) > u64::MAX,
                decreases n - i + (if beyond {
                        0int
                    } else {
                        1int
                    }),
            {
                proof {
                    lemma_offsets_grow(content_records@, i as int + 1, n as int);
                }
                let step = checked_align_up(content_records[i].content_size, 64);
                match step {
                    Some(s) => {
                        if s > u64::MAX - total {
                            beyond = true;
                        } else {
                            total = total + s;
                            i += 1;
                        }
                    },
                    None => {
                        proof {
                            lemma_offsets_grow(content_records@, 0, i as int);
                        }
                        beyond = true;
                    },
                }
            }
            assert(data@.len() == data.len());
            if !beyond && data.len() as u64 > total {
                return Err(ContentError::IO);
            }
        }
        ContentRegion::from_bytes(data, content_records)
    }

    /// A content region with the given records and an empty content for each.
    /// Its size is the sum of the sizes on record, each counted up to a
    /// 64-byte boundary, as far as 32 bits hold it.
    pub fn new(content_records: Vec<ContentRecord>) -> (r: Result<ContentRegion, ContentError>)
        ensures
            r is Ok,
            r->Ok_0.content_records == content_records,
            r->Ok_0.wf(),
            r->Ok_0.content_region_size == padded_total(content_records@) % 0x1_0000_0000,
            r->Ok_0.content_start_offsets@ == Seq::new(content_records@.len(), |i: int| 0u64),
            forall|i: int|
                0 <= i < content_records@.len() ==> (#[trigger] r->Ok_0.contents@[i])@
                    == Seq::<u8>::empty(),
    {
        let n = content_records.len();
        let mut total: u64 = 0;
        let mut content_start_offsets: Vec<u64> = Vec::new();
        let mut contents: Vec<Vec<u8>> = Vec::new();
        let mut i: usize = 0;
        while i < n
            invariant
                i <= n,
                n == content_records@.len(),
                total == content_offset(content_records@, i as int) % 0x1_0000_0000,
                contents@.len() == i,
                content_start_offsets@ == Seq::new(i as nat, |k: int| 0u64),
                forall|j: int| 0 <= j < i ==> (#[trigger] contents@[j])@ == Seq::<u8>::empty(),
            decreases n - i,
        {
            let low = content_records[i].content_size % 0x1_0000_0000;
            let step = align_up_u64(low, 64);
            proof {
                lemma_padded_low(content_records@[i as int].content_size as int);
                let before = content_offset(content_records@, i as int);
                let whole = align_up(content_records@[i as int].content_size as int, 64);
                lemma_align_up(content_records@[i as int].content_size as int, 64);
                vstd::arithmetic::div_mod::lemma_add_mod_noop(before, whole, 0x1_0000_0000);
                vstd::arithmetic::div_mod::lemma_mod_bound(step as int, 0x1_0000_0000);
            }
            total = (total + step % 0x1_0000_0000) % 0x1_0000_0000;
            contents.push(Vec::new());
            content_start_offsets.push(0u64);
            assert(content_start_offsets@ =~= Seq::new((i + 1) as nat, |k: int| 0u64));
            i += 1;
        }
        Ok(
            ContentRegion {
                content_records,
                content_region_size: total as u32,
                content_start_offsets,
                contents,
            },
        )
    }
}

impl ContentRegion {
    /// Whether `other` has the same region size and the same recorded offsets.
    pub open spec fn same_layout(&self, other: &ContentRegion) -> bool {
        self.content_region_size == other.content_region_size && self.content_start_offsets
            == other.content_start_offsets
    }

    /// The position of the first record that holds the Content ID, or the
    /// number of records where none does.
    fn find_cid(&self, cid: u32) -> (p: usize)
        ensures
            p == cid_position(self.content_records@, cid, 0),
            p <= self.content_records@.len(),
            p < self.content_records@.len() ==> self.content_records@[p as int].content_id == cid,
    {
        let n = self.content_records.len();
        let mut p: usize = 0;
        while p < n
            invariant
                p <= n,
                n == self.content_records@.len(),
                cid_position(self.content_records@, cid, 0) == cid_position(
                    self.content_records@,
                    cid,
                    p as int,
                ),
            decreases n - p,
        {
            if self.content_records[p].content_id == cid {
                return p;
            }
            p += 1;
        }
        p
    }

    /// Whether a record other than the one at `but` holds the Content ID.
    fn cid_taken_elsewhere(&self, cid: u32, but: usize) -> (taken: bool)
        ensures
            taken == cid_used_elsewhere(self.content_records@, cid, but as int),
    {
        let n = self.content_records.len();
        let mut j: usize = 0;
        while j < n
            invariant
                j <= n,
                n == self.content_records@.len(),
                forall|k: int|
                    0 <= k < j && k != but ==> (#[trigger] self.content_records@[k]).content_id
                        != cid,
            decreases n - j,
        {
            if j != but && self.content_records[j].content_id == cid {
                return true;
            }
            j += 1;
        }
        false
    }

    /// Whether a record holds the Content ID.
    fn cid_taken(&self, cid: u32) -> (taken: bool)
        ensures
            taken == cid_used(self.content_records@, cid),
    {
        let n = self.content_records.len();
        let mut j: usize = 0;
        while j < n
            invariant
                j <= n,
                n == self.content_records@.len(),
                forall|k: int| 0 <= k < j ==> (#[trigger] self.content_records@[k]).content_id != cid,
            decreases n - j,
        {
            if self.content_records[j].content_id == cid {
                return true;
            }
            j += 1;
        }
        false
    }

    /// Whether a record holds the index.
    fn index_taken(&self, index: u16) -> (taken: bool)
        ensures
            taken == index_used(self.content_records@, index),
    {
        let n = self.content_records.len();
        let mut j: usize = 0;
        while j < n
            invariant
                j <= n,
                n == self.content_records@.len(),
                forall|k: int| 0 <= k < j ==> (#[trigger] self.content_records@[k]).index != index,
            decreases n - j,
        {
            if self.content_records[j].index == index {
                return true;
            }
            j += 1;
        }
        false
    }

    /// The greatest index on record, or 0 where there is no record.
    fn highest_index(&self) -> (max: u16)
        ensures
            max == max_index(self.content_records@),
    {
        let n = self.content_records.len();
        let mut max: u16 = 0;
        let mut j: usize = 0;
        proof {
            assert(self.content_records@.take(0) =~= Seq::<ContentRecord>::empty());
        }
        while j < n
            invariant
                j <= n,
                n == self.content_records@.len(),
                max == max_index(self.content_records@.take(j as int)),
            decreases n - j,
        {
            proof {
                let rs = self.content_records@;
                assert(rs.take(j + 1).drop_last() == rs.take(j as int));
                assert(rs.take(j + 1).last() == rs[j as int]);
            }
            if self.content_records[j].index > max {
                max = self.content_records[j].index;
            }
            j += 1;
        }
        proof {
            assert(self.content_records@.take(n as int) == self.content_records@);
        }
        max
    }

    /// The whole region as a WAD stores it: the contents in order, each
    /// followed by zero bytes up to the next 64-byte boundary.
    pub fn to_bytes(&self) -> (out: Vec<u8>)
        requires
            self.wf(),
        ensures
            out@ == region_bytes(self.spec_contents()),
    {
        let mut buf: Vec<u8> = Vec::new();
        let n = self.content_records.len();
        let mut i: usize = 0;
        proof {
            assert(self.spec_contents().take(0) =~= Seq::<Seq<u8>>::empty());
        }
        while i < n
            invariant
                i <= n,
                n == self.contents@.len(),
                buf@ == region_bytes(self.spec_contents().take(i as int)),
            decreases n - i,
        {
            let mut content = slice_to_vec(self.contents[i].as_slice());
            pad_to(&mut content, 64);
            put_bytes(&mut buf, content.as_slice());
            proof {
                let cs = self.spec_contents();
                assert(cs.take(i + 1).drop_last() == cs.take(i as int));
                assert(cs.take(i + 1).last() == cs[i as int]);
            }
            i += 1;
        }
        proof {
            assert(self.spec_contents().take(n as int) == self.spec_contents());
        }
        buf
    }

    /// The index on the first record that holds the Content ID.
    pub fn get_index_from_cid(&self, cid: u32) -> (r: Result<usize, ContentError>)
        ensures
            ({
                let p = cid_position(self.content_records@, cid, 0);
                if p < self.content_records@.len() {
                    r == Ok::<usize, ContentError>(self.content_records@[p].index as usize)
                } else {
                    r == Err::<usize, ContentError>(ContentError::CIDNotFound(cid))
                }
            }),
    {
        let p = self.find_cid(cid);
        if p < self.content_records.len() {
            Ok(self.content_records[p].index as usize)
        } else {
            Err(ContentError::CIDNotFound(cid))
        }
    }

    /// The content at a position, encrypted as it is stored.
    pub fn get_enc_content_by_index(&self, index: usize) -> (r: Result<Vec<u8>, ContentError>)
        ensures
            index < self.contents@.len() ==> r is Ok && r->Ok_0@ == self.contents@[index as int]@,
            index >= self.contents@.len() ==> r == Err::<Vec<u8>, ContentError>(
                ContentError::IndexOutOfRange {
                    index,
                    max: last_position(self.content_records@.len() as int) as usize,
                },
            ),
    {
        if index < self.contents.len() {
            Ok(slice_to_vec(self.contents[index].as_slice()))
        } else {
            Err(self.out_of_range(index))
        }
    }

    /// The content at a position, decrypted with the title key and cut to
    /// the size on record. It is handed out only if its digest is the one on
    /// record.
    pub fn get_content_by_index(&self, index: usize, title_key: [u8; 16]) -> (r: Result<
        Vec<u8>,
        ContentError,
    >)
        ensures
            self.content_outcome(index as int, title_key@, r),
            r is Ok <==> self.content_verifies(index as int, title_key@),
    {
        if index >= self.contents.len() || index >= self.content_records.len() {
            return Err(self.out_of_range(index));
        }
        let enc = self.contents[index].as_slice();
        if enc.len() % 16 != 0 {
            return Err(ContentError::IO);
        }
        let record = self.content_records[index];
        let mut plain = decrypt_content(enc, title_key, record.index);
        if record.content_size < plain.len() as u64 {
            plain.truncate(record.content_size as usize);
        }
        let digest = sha1(plain.as_slice());
        check_content_hash(plain, &digest, &record.content_hash)
    }

    /// The content of the first record that holds the Content ID, encrypted as
    /// it is stored.
    pub fn get_enc_content_by_cid(&self, cid: u32) -> (r: Result<Vec<u8>, ContentError>)
        ensures
            ({
                let p = cid_position(self.content_records@, cid, 0);
                if p < self.content_records@.len() && p < self.contents@.len() {
                    r is Ok && r->Ok_0@ == self.contents@[p]@
                } else {
                    r == Err::<Vec<u8>, ContentError>(ContentError::CIDNotFound(cid))
                }
            }),
    {
        let p = self.find_cid(cid);
        if p < self.content_records.len() && p < self.contents.len() {
            Ok(slice_to_vec(self.contents[p].as_slice()))
        } else {
            Err(ContentError::CIDNotFound(cid))
        }
    }

    /// The content of the first record that holds the Content ID, decrypted
    /// and checked as `get_content_by_index` does.
    pub fn get_content_by_cid(&self, cid: u32, title_key: [u8; 16]) -> (r: Result<
        Vec<u8>,
        ContentError,
    >)
        ensures
            ({
                let p = cid_position(self.content_records@, cid, 0);
                if p < self.content_records@.len() {
                    self.content_outcome(p, title_key@, r)
                } else {
                    r == Err::<Vec<u8>, ContentError>(ContentError::CIDNotFound(cid))
                }
            }),
    {
        let p = self.find_cid(cid);
        if p < self.content_records.len() {
            self.get_content_by_index(p, title_key)
        } else {
            Err(ContentError::CIDNotFound(cid))
        }
    }

    /// Puts an encrypted content at a position and leaves its record as it
    /// is.
    pub fn load_enc_content(&mut self, content: &[u8], index: usize) -> (r: Result<
        (),
        ContentError,
    >)
        ensures
            index >= old(self).content_records@.len() || index >= old(self).contents@.len() ==> r
                == Err::<(), ContentError>(
                ContentError::IndexOutOfRange {
                    index,
                    max: last_position(old(self).content_records@.len() as int) as usize,
                },
            ) && *final(self) == *old(self),
            index < old(self).content_records@.len() && index < old(self).contents@.len() ==> {
                &&& r is Ok
                &&& final(self).content_records == old(self).content_records
                &&& final(self).same_layout(old(self))
                &&& final(self).contents@.len() == old(self).contents@.len()
                &&& final(self).spec_contents() == old(self).spec_contents().update(
                    index as int,
                    content@,
                )
            },
    {
        if index >= self.content_records.len() || index >= self.contents.len() {
            return Err(self.out_of_range(index));
        }
        self.contents[index] = slice_to_vec(content);
        assert(self.spec_contents() =~= old(self).spec_contents().update(index as int, content@));
        Ok(())
    }

    /// Puts an encrypted content at a position and writes the size and the
    /// digest of what it decrypts to into its record, with a new Content ID
    /// and a new type where they are given. A Content ID that another record
    /// holds is refused. Nothing changes where the call fails.
    pub fn set_enc_content(
        &mut self,
        content: &[u8],
        index: usize,
        content_size: u64,
        content_hash: [u8; 20],
        cid: Option<u32>,
        content_type: Option<ContentType>,
    ) -> (r: Result<(), ContentError>)
        ensures
            index >= old(self).content_records@.len() || index >= old(self).contents@.len() ==> r
                == Err::<(), ContentError>(
                ContentError::IndexOutOfRange {
                    index,
                    max: last_position(old(self).content_records@.len() as int) as usize,
                },
            ) && *final(self) == *old(self),
            index < old(self).content_records@.len() && index < old(self).contents@.len() ==> {
                let before = old(self).content_records@[index as int];
                if cid is Some && cid_used_elsewhere(
                    old(self).content_records@,
                    cid->0,
                    index as int,
                ) {
                    r == Err::<(), ContentError>(ContentError::CIDAlreadyExists(cid->0))
                        && *final(self) == *old(self)
                } else {
                    &&& r is Ok
                    &&& final(self).content_records@ == old(self).content_records@.update(
                        index as int,
                        ContentRecord {
                            content_id: if cid is Some {
                                cid->0
                            } else {
                                before.content_id
                            },
                            index: before.index,
                            content_type: if content_type is Some {
                                content_type->0
                            } else {
                                before.content_type
                            },
                            content_size,
                            content_hash,
                        },
                    )
                    &&& final(self).same_layout(old(self))
                    &&& final(self).contents@.len() == old(self).contents@.len()
                    &&& final(self).spec_contents() == old(self).spec_contents().update(
                        index as int,
                        content@,
                    )
                }
            },
    {
        if index >= self.content_records.len() || index >= self.contents.len() {
            return Err(self.out_of_range(index));
        }
        let mut record = self.content_records[index];
        match cid {
            Some(c) => {
                if self.cid_taken_elsewhere(c, index) {
                    return Err(ContentError::CIDAlreadyExists(c));
                }
                record.content_id = c;
            },
            None => {},
        }
        match content_type {
            Some(t) => {
                record.content_type = t;
            },
            None => {},
        }
        record.content_size = content_size;
        record.content_hash = content_hash;
        self.content_records[index] = record;
        self.contents[index] = slice_to_vec(content);
        assert(self.spec_contents() =~= old(self).spec_contents().update(index as int, content@));
        Ok(())
    }

    /// Encrypts a decrypted content and puts it at a position, if its digest
    /// is the one on record there. The record's index and size go into the
    /// encryption.
    pub fn load_content(&mut self, content: &[u8], index: usize, title_key: [u8; 16]) -> (r:
        Result<(), ContentError>)
        ensures
            index >= old(self).content_records@.len() || index >= old(self).contents@.len() ==> r
                == Err::<(), ContentError>(
                ContentError::IndexOutOfRange {
                    index,
                    max: last_position(old(self).content_records@.len() as int) as usize,
                },
            ) && *final(self) == *old(self),
            index < old(self).content_records@.len() && index < old(self).contents@.len() ==> {
                let record = old(self).content_records@[index as int];
                if sha1_digest(content@) == record.content_hash@ {
                    &&& r is Ok
                    &&& final(self).content_records == old(self).content_records
                    &&& final(self).same_layout(old(self))
                    &&& final(self).contents@.len() == old(self).contents@.len()
                    &&& final(self).spec_contents() == old(self).spec_contents().update(
                        index as int,
                        crate::title::crypto::aes128_cbc_encrypt(
                            title_key@,
                            content_iv(record.index),
                            content_plain(content@, record.content_size as int),
                        ),
                    )
                } else {
                    &&& *final(self) == *old(self)
                    &&& match r {
                        Err(ContentError::BadHash { hash, expected }) => hash@ == hex_lower(
                            sha1_digest(content@),
                        ) && expected@ == hex_lower(record.content_hash@),
                        _ => false,
                    }
                }
            },
    {
        if index >= self.content_records.len() || index >= self.contents.len() {
            return Err(self.out_of_range(index));
        }
        let record = self.content_records[index];
        let digest = sha1(content);
        if !same_digest(&digest, &record.content_hash) {
            return Err(
                ContentError::BadHash {
                    hash: hex_encode(&digest),
                    expected: hex_encode(&record.content_hash),
                },
            );
        }
        let enc = encrypt_content(content, title_key, record.index, record.content_size);
        self.contents[index] = enc;
        assert(self.spec_contents() =~= old(self).spec_contents().update(
            index as int,
            crate::title::crypto::aes128_cbc_encrypt(
                title_key@,
                content_iv(record.index),
                content_plain(content@, record.content_size as int),
            ),
        ));
        Ok(())
    }

    /// Encrypts a decrypted content under the title key and the index on its
    /// record, puts it at a position, and writes its size and digest into the
    /// record, with a new Content ID and a new type where they are given. The
    /// content then verifies, and every other content stays as it was.
    pub fn set_content(
        &mut self,
        content: &[u8],
        index: usize,
        cid: Option<u32>,
        content_type: Option<ContentType>,
        title_key: [u8; 16],
    ) -> (r: Result<(), ContentError>)
        ensures
            r is Ok && old(self).others_verify(index as int, title_key@) ==> final(self).all_verify(
                title_key@,
            ),
            index >= old(self).content_records@.len() || index >= old(self).contents@.len() ==> r
                == Err::<(), ContentError>(
                ContentError::IndexOutOfRange {
                    index,
                    max: last_position(old(self).content_records@.len() as int) as usize,
                },
            ) && *final(self) == *old(self),
            index < old(self).content_records@.len() && index < old(self).contents@.len() ==> {
                let before = old(self).content_records@[index as int];
                if cid is Some && cid_used_elsewhere(
                    old(self).content_records@,
                    cid->0,
                    index as int,
                ) {
                    r == Err::<(), ContentError>(ContentError::CIDAlreadyExists(cid->0))
                        && *final(self) == *old(self)
                } else {
                    &&& r is Ok
                    &&& final(self).content_records@.len() == old(self).content_records@.len()
                    &&& final(self).content_records@[index as int].content_id == (if cid is Some {
                        cid->0
                    } else {
                        before.content_id
                    })
                    &&& final(self).content_records@[index as int].index == before.index
                    &&& final(self).content_records@[index as int].content_type == (
                    if content_type is Some {
                        content_type->0
                    } else {
                        before.content_type
                    })
                    &&& final(self).content_records@[index as int].content_size == content@.len()
                    &&& final(self).content_records@[index as int].content_hash@ == sha1_digest(
                        content@,
                    )
                    &&& final(self).same_layout(old(self))
                    &&& final(self).contents@.len() == old(self).contents@.len()
                    &&& final(self).spec_contents() == old(self).spec_contents().update(
                        index as int,
                        crate::title::crypto::aes128_cbc_encrypt(
                            title_key@,
                            content_iv(before.index),
                            content_plain(content@, content@.len() as int),
                        ),
                    )
                    &&& final(self).content_verifies(index as int, title_key@)
                    &&& plain_of(
                        final(self).contents@[index as int]@,
                        title_key@,
                        final(self).content_records@[index as int],
                    ) == content@
                    &&& forall|j: int|
                        0 <= j < old(self).content_records@.len() && j != index ==> {
                            &&& final(self).content_records@[j] == old(self).content_records@[j]
                            &&& (old(self).content_verifies(j, title_key@) ==> final(self).content_verifies(j, title_key@))
                        }
                }
            },
    {
        if index >= self.content_records.len() || index >= self.contents.len() {
            return Err(self.out_of_range(index));
        }
        let record = self.content_records[index];
        let content_size = content.len() as u64;
        let content_hash = sha1(content);
        let enc = encrypt_content(content, title_key, record.index, content_size);
        proof {
            lemma_plain_cut(content@);
        }
        let r = self.set_enc_content(
            enc.as_slice(),
            index,
            content_size,
            content_hash,
            cid,
            content_type,
        );
        proof {
            if r is Ok {
                assert(self.contents@[index as int]@ == self.spec_contents()[index as int]);
                assert forall|j: int|
                    0 <= j < old(self).content_records@.len() && j != index && old(self).content_verifies(j, title_key@) implies self.content_verifies(
                    j,
                    title_key@,
                ) by {
                    assert(self.contents@[j]@ == self.spec_contents()[j]);
                    assert(old(self).contents@[j]@ == old(self).spec_contents()[j]);
                }
            }
        }
        r
    }

    /// Takes the content at a position out, and its record with it. The
    /// indices on the other records stay as they are.
    pub fn remove_content(&mut self, index: usize) -> (r: Result<(), ContentError>)
        ensures
            index >= old(self).content_records@.len() || index >= old(self).contents@.len() ==> r
                == Err::<(), ContentError>(
                ContentError::IndexOutOfRange {
                    index,
                    max: last_position(old(self).content_records@.len() as int) as usize,
                },
            ) && *final(self) == *old(self),
            index < old(self).content_records@.len() && index < old(self).contents@.len() ==> {
                &&& r is Ok
                &&& final(self).content_records@ == old(self).content_records@.remove(index as int)
                &&& final(self).same_layout(old(self))
                &&& final(self).contents@.len() == old(self).contents@.len() - 1
                &&& final(self).spec_contents() == old(self).spec_contents().remove(index as int)
            },
    {
        if index >= self.content_records.len() || index >= self.contents.len() {
            return Err(self.out_of_range(index));
        }
        self.contents.remove(index);
        self.content_records.remove(index);
        assert(self.spec_contents() =~= old(self).spec_contents().remove(index as int));
        Ok(())
    }

    /// Adds an encrypted content and its record at the end. An index or a
    /// Content ID that a record holds already is refused, and nothing changes.
    pub fn add_enc_content(
        &mut self,
        content: &[u8],
        index: u16,
        cid: u32,
        content_type: ContentType,
        content_size: u64,
        content_hash: [u8; 20],
    ) -> (r: Result<(), ContentError>)
        ensures
            index_used(old(self).content_records@, index) ==> r == Err::<(), ContentError>(
                ContentError::IndexAlreadyExists(index),
            ) && *final(self) == *old(self),
            !index_used(old(self).content_records@, index) && cid_used(
                old(self).content_records@,
                cid,
            ) ==> r == Err::<(), ContentError>(ContentError::CIDAlreadyExists(cid)) && *final(self)
                == *old(self),
            !index_used(old(self).content_records@, index) && !cid_used(
                old(self).content_records@,
                cid,
            ) ==> {
                &&& r is Ok
                &&& final(self).content_records@ == old(self).content_records@.push(
                    ContentRecord { content_id: cid, index, content_type, content_size, content_hash },
                )
                &&& final(self).same_layout(old(self))
                &&& final(self).contents@.len() == old(self).contents@.len() + 1
                &&& final(self).spec_contents() == old(self).spec_contents().push(content@)
            },
    {
        if self.index_taken(index) {
            return Err(ContentError::IndexAlreadyExists(index));
        }
        if self.cid_taken(cid) {
            return Err(ContentError::CIDAlreadyExists(cid));
        }
        self.contents.push(slice_to_vec(content));
        self.content_records.push(
            ContentRecord { content_id: cid, index, content_type, content_size, content_hash },
        );
        assert(self.spec_contents() =~= old(self).spec_contents().push(content@));
        Ok(())
    }

    /// Encrypts a decrypted content and adds it at the end, under the index
    /// that follows the greatest on record. The new content verifies, and
    /// every other content stays as it was.
    pub fn add_content(
        &mut self,
        content: &[u8],
        cid: u32,
        content_type: ContentType,
        title_key: [u8; 16],
    ) -> (r: Result<(), ContentError>)
        requires
            old(self).wf(),
        ensures
            r is Ok <==> max_index(old(self).content_records@) < 0xFFFF && !cid_used(
                old(self).content_records@,
                cid,
            ),
            r is Ok && old(self).all_verify(title_key@) ==> final(self).all_verify(title_key@),
            max_index(old(self).content_records@) == 0xFFFF ==> r == Err::<(), ContentError>(
                ContentError::IndexOutOfRange { index: 0x1_0000, max: 0xFFFF },
            ) && *final(self) == *old(self),
            max_index(old(self).content_records@) < 0xFFFF && cid_used(
                old(self).content_records@,
                cid,
            ) ==> r == Err::<(), ContentError>(ContentError::CIDAlreadyExists(cid)) && *final(self)
                == *old(self),
            max_index(old(self).content_records@) < 0xFFFF && !cid_used(
                old(self).content_records@,
                cid,
            ) ==> {
                let index = (max_index(old(self).content_records@) + 1) as u16;
                let n = old(self).content_records@.len() as int;
                &&& r is Ok
                &&& final(self).wf()
                &&& final(self).content_records@.len() == n + 1
                &&& final(self).content_records@.subrange(0, n) == old(self).content_records@
                &&& final(self).content_records@[n].content_id == cid
                &&& final(self).content_records@[n].index == index
                &&& final(self).content_records@[n].content_type == content_type
                &&& final(self).content_records@[n].content_size == content@.len()
                &&& final(self).content_records@[n].content_hash@ == sha1_digest(content@)
                &&& final(self).same_layout(old(self))
                &&& final(self).contents@.len() == old(self).contents@.len() + 1
                &&& final(self).spec_contents() == old(self).spec_contents().push(
                    crate::title::crypto::aes128_cbc_encrypt(
                        title_key@,
                        content_iv(index),
                        content_plain(content@, content@.len() as int),
                    ),
                )
                &&& final(self).content_verifies(n, title_key@)
                &&& plain_of(
                    final(self).contents@[n]@,
                    title_key@,
                    final(self).content_records@[n],
                ) == content@
                &&& forall|j: int|
                    0 <= j < n && old(self).content_verifies(j, title_key@) ==> final(self).content_verifies(j, title_key@)
            },
    {
        let max = self.highest_index();
        if max == 0xFFFF {
            return Err(ContentError::IndexOutOfRange { index: 0x1_0000, max: 0xFFFF });
        }
        let index = max + 1;
        proof {
            lemma_max_index_bounds(self.content_records@);
            assert(!index_used(self.content_records@, index));
            lemma_plain_cut(content@);
        }
        let content_size = content.len() as u64;
        let content_hash = sha1(content);
        let enc = encrypt_content(content, title_key, index, content_size);
        let r = self.add_enc_content(
            enc.as_slice(),
            index,
            cid,
            content_type,
            content_size,
            content_hash,
        );
        proof {
            if r is Ok {
                let n = old(self).content_records@.len() as int;
                assert(self.content_records@.subrange(0, n) =~= old(self).content_records@);
                assert(self.contents@[n]@ == self.spec_contents()[n]);
                assert forall|j: int|
                    0 <= j < n && old(self).content_verifies(
                        j,
                        title_key@,
                    ) implies self.content_verifies(j, title_key@) by {
                    assert(self.contents@[j]@ == self.spec_contents()[j]);
                    assert(old(self).contents@[j]@ == old(self).spec_contents()[j]);
                }
            }
        }
        r
    }

    /// A content region with the given records, into which each of the
    /// encrypted contents is put at the position that its record's index
    /// names.
    pub fn from_contents(contents: Vec<Vec<u8>>, content_records: Vec<ContentRecord>) -> (r:
        Result<ContentRegion, ContentError>)
        ensures
            contents@.len() != content_records@.len() ==> r == Err::<ContentRegion, ContentError>(
                ContentError::MissingContents {
                    required: content_records@.len() as usize,
                    found: contents@.len() as usize,
                },
            ),
            contents@.len() == content_records@.len() ==> {
                let n = content_records@.len() as int;
                if forall|i: int| 0 <= i < n ==> (#[trigger] content_records@[i]).index < n {
                    &&& r is Ok
                    &&& r->Ok_0.content_records == content_records
                    &&& r->Ok_0.wf()
                    &&& r->Ok_0.spec_contents() == placed(
                        Seq::new(contents@.len(), |i: int| contents@[i]@),
                        content_records@,
                        n,
                        n,
                    )
                } else {
                    r == Err::<ContentRegion, ContentError>(
                        ContentError::IndexOutOfRange {
                            index: content_records@[first_far_index(content_records@, 0)].index as usize,
                            max: last_position(n) as usize,
                        },
                    )
                }
            },
    {
        if contents.len() != content_records.len() {
            return Err(
                ContentError::MissingContents {
                    required: content_records.len(),
                    found: contents.len(),
                },
            );
        }
        let n = contents.len();
        let ghost given = Seq::new(contents@.len(), |i: int| contents@[i]@);
        let mut region = match ContentRegion::new(content_records) {
            Ok(region) => region,
            Err(e) => {
                return Err(e);
            },
        };
        assert(region.spec_contents() =~= placed(given, content_records@, n as int, 0));
        let mut i: usize = 0;
        while i < n
            invariant
                i <= n,
                n == contents@.len(),
                n == content_records@.len(),
                given == Seq::new(contents@.len(), |k: int| contents@[k]@),
                region.content_records == content_records,
                region.wf(),
                region.spec_contents() == placed(given, content_records@, n as int, i as int),
                forall|k: int| 0 <= k < i ==> (#[trigger] content_records@[k]).index < n,
                first_far_index(content_records@, 0) == first_far_index(
                    content_records@,
                    i as int,
                ),
            decreases n - i,
        {
            let target = region.content_records[i].index as usize;
            match region.load_enc_content(contents[i].as_slice(), target) {
                Ok(()) => {},
                Err(e) => {
                    return Err(e);
                },
            }
            i += 1;
        }
        proof {
            lemma_first_far_index(content_records@, 0);
        }
        Ok(region)
    }
}

/// Whether position `p` of a content region lies in the padding that follows
/// content `i`: after its blocks and before the next 64-byte boundary.
pub open spec fn is_padding(records: Seq<ContentRecord>, i: int, p: int) -> bool {
    0 <= i < records.len() && content_offset(records, i) + stored_len(records[i]) <= p
        < content_offset(records, i + 1)
}

/// Whether a content region is laid out as one is written: it ends where its
/// last content's padding ends, and all padding is zero bytes.
pub open spec fn region_is_canonical(data: Seq<u8>, records: Seq<ContentRecord>) -> bool {
    &&& data.len() == padded_total(records)
    &&& forall|i: int, p: int| #[trigger] is_padding(records, i, p) ==> data[p] == 0
}

/// The contents taken out of a region, written again, are the first bytes of
/// that region, where it is laid out as one is written.
pub proof fn lemma_region_prefix(
    contents: Seq<Seq<u8>>,
    data: Seq<u8>,
    records: Seq<ContentRecord>,
    k: int,
)
    requires
        region_is_canonical(data, records),
        contents.len() == records.len(),
        0 <= k <= records.len(),
        forall|i: int| 0 <= i < records.len() ==> content_fits(data.len() as int, records, i),
        forall|i: int| 0 <= i < records.len() ==> #[trigger] contents[i] == content_at(data, records, i),
    ensures
        0 <= content_offset(records, k) <= data.len(),
        region_bytes(contents.take(k)) == data.subrange(0, content_offset(records, k)),
    decreases k,
{
    lemma_offsets_grow(records, k, records.len() as int);
    lemma_offsets_grow(records, 0, k);
    if k == 0 {
        assert(region_bytes(contents.take(0)) =~= data.subrange(0, 0));
    } else {
        lemma_region_prefix(contents, data, records, k - 1);
        assert(contents.take(k).drop_last() == contents.take(k - 1));
        assert(contents.take(k).last() == contents[k - 1]);
        let at = content_offset(records, k - 1);
        let size = stored_len(records[k - 1]);
        crate::codec::lemma_align_16_64(records[k - 1].content_size as int);
        lemma_align_up(records[k - 1].content_size as int, 16);
        lemma_align_up(records[k - 1].content_size as int, 64);
        assert(content_fits(data.len() as int, records, k - 1));
        assert(content_offset(records, k) == at + align_up(size, 64));
        assert(align_up(at + size, 64) == at + align_up(size, 64)) by {
            lemma_offset_aligned(records, k - 1);
            lemma_align_shift(at, size);
        }
        assert(contents[k - 1] =~= data.subrange(at, at + size));
        assert forall|p: int| at + size <= p < align_up(at + size, 64) implies data[p] == 0 by {
            assert(is_padding(records, k - 1, p));
        }
        crate::codec::lemma_padded_prefix(data, at, size, 64);
        assert(padded(contents[k - 1], 64) =~= data.subrange(at, align_up(at + size, 64))) by {
            assert(data.subrange(0, at) + data.subrange(at, at + size) =~= data.subrange(
                0,
                at + size,
            ));
            assert(padded(data.subrange(0, at + size), 64) == data.subrange(
                0,
                align_up(at + size, 64),
            ));
        }
        crate::codec::lemma_subrange_join(data, 0, at, content_offset(records, k));
    }
}

/// Reading a content region and writing it again gives the bytes that were
/// read, where they are laid out as a region is written.
pub proof fn lemma_region_round_trip(region: ContentRegion, data: Seq<u8>)
    requires
        region.wf(),
        region_is_canonical(data, region.content_records@),
        forall|i: int|
            0 <= i < region.content_records@.len() ==> content_fits(
                data.len() as int,
                region.content_records@,
                i,
            ),
        forall|i: int|
            0 <= i < region.content_records@.len() ==> (#[trigger] region.contents@[i])@
                == content_at(data, region.content_records@, i),
    ensures
        region_bytes(region.spec_contents()) == data,
{
    let cs = region.spec_contents();
    let n = region.content_records@.len() as int;
    assert forall|i: int| 0 <= i < n implies #[trigger] cs[i] == content_at(
        data,
        region.content_records@,
        i,
    ) by {
        assert(cs[i] == region.contents@[i]@);
    }
    lemma_region_prefix(cs, data, region.content_records@, n);
    assert(cs.take(n) == cs);
    assert(data.subrange(0, data.len() as int) == data);
}

/// Whether every content of the records can be taken from a region of `len`
/// bytes.
pub open spec fn region_readable(len: int, records: Seq<ContentRecord>) -> bool {
    forall|i: int| 0 <= i < records.len() ==> content_fits(len, records, i)
}

/// Where the contents lie depends on the sizes on record alone.
pub proof fn lemma_offsets_by_size(a: Seq<ContentRecord>, b: Seq<ContentRecord>, i: int)
    requires
        a.len() == b.len(),
        0 <= i <= a.len(),
        forall|j: int| 0 <= j < a.len() ==> a[j].content_size == b[j].content_size,
    ensures
        content_offset(a, i) == content_offset(b, i),
    decreases i,
{
    if i > 0 {
        lemma_offsets_by_size(a, b, i - 1);
    }
}

/// Whether a region can be read depends on the sizes on record alone.
pub proof fn lemma_readable_by_size(len: int, a: Seq<ContentRecord>, b: Seq<ContentRecord>)
    requires
        a.len() == b.len(),
        forall|j: int| 0 <= j < a.len() ==> a[j].content_size == b[j].content_size,
    ensures
        region_readable(len, a) == region_readable(len, b),
{
    assert forall|i: int| 0 <= i < a.len() implies content_fits(len, a, i) == content_fits(
        len,
        b,
        i,
    ) by {
        lemma_offsets_by_size(a, b, i);
    }
}

/// Offsets do not fall from one content to a later one.
pub proof fn lemma_offsets_grow(records: Seq<ContentRecord>, i: int, k: int)
    requires
        0 <= i <= k,
    ensures
        0 <= content_offset(records, i) <= content_offset(records, k),
    decreases k,
{
    if i < k {
        lemma_offsets_grow(records, i, k - 1);
        lemma_align_up(records[k - 1].content_size as int, 64);
    } else if i > 0 {
        lemma_offsets_grow(records, i - 1, i - 1);
        lemma_align_up(records[i - 1].content_size as int, 64);
    }
}

/// Every content begins on a 64-byte boundary.
pub proof fn lemma_offset_aligned(records: Seq<ContentRecord>, i: int)
    requires
        0 <= i,
    ensures
        content_offset(records, i) % 64 == 0,
        content_offset(records, i) >= 0,
    decreases i,
{
    if i > 0 {
        lemma_offset_aligned(records, i - 1);
        lemma_align_up(records[i - 1].content_size as int, 64);
    }
}

/// Counting up to a 64-byte boundary from a boundary counts the same as
/// from zero.
pub proof fn lemma_align_shift(at: int, size: int)
    requires
        at >= 0,
        at % 64 == 0,
        size >= 0,
    ensures
        align_up(at + size, 64) == at + align_up(size, 64),
{
    assert((at + size) % 64 == size % 64);
}

/// Cutting what is encrypted for a content of its own length back to that
/// length gives the content.
pub proof fn lemma_plain_cut(content: Seq<u8>)
    ensures
        content_plain(content, content.len() as int).len() >= content.len(),
        content_plain(content, content.len() as int).len() % 16 == 0,
        content_plain(content, content.len() as int).len() > content.len() ==> content_plain(
            content,
            content.len() as int,
        ).subrange(0, content.len() as int) == content,
        content_plain(content, content.len() as int).len() == content.len() ==> content_plain(
            content,
            content.len() as int,
        ) == content,
{
    lemma_align_up(content.len() as int, 16);
    let p = content_plain(content, content.len() as int);
    if p.len() > content.len() {
        assert(p.subrange(0, content.len() as int) =~= content);
    } else {
        assert(p =~= content);
    }
}

/// No index on record is above the greatest.
pub proof fn lemma_max_index_bounds(records: Seq<ContentRecord>)
    ensures
        forall|j: int| 0 <= j < records.len() ==> (#[trigger] records[j]).index <= max_index(records),
        0 <= max_index(records) <= 0xFFFF,
    decreases records.len(),
{
    if records.len() > 0 {
        lemma_max_index_bounds(records.drop_last());
        assert forall|j: int| 0 <= j < records.len() implies (#[trigger] records[j]).index
            <= max_index(records) by {
            if j < records.len() - 1 {
                assert(records.drop_last()[j] == records[j]);
            }
        }
    }
}

/// Counting a size up to a 64-byte boundary and keeping the low 32 bits gives
/// the same as doing so with the low 32 bits of the size.
pub proof fn lemma_padded_low(size: int)
    requires
        size >= 0,
    ensures
        align_up(size, 64) % 0x1_0000_0000 == align_up(size % 0x1_0000_0000, 64) % 0x1_0000_0000,
{
    let q = size / 0x1_0000_0000;
    let low = size % 0x1_0000_0000;
    assert(size == q * 0x1_0000_0000 + low);
    assert(size % 64 == low % 64);
    assert(align_up(size, 64) == q * 0x1_0000_0000 + align_up(low, 64));
    lemma_align_up(low, 64);
    vstd::arithmetic::div_mod::lemma_mod_multiples_vanish(q, align_up(low, 64), 0x1_0000_0000);
}

} // verus!
