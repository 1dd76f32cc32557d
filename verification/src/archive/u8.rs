//! U8 archives: a flat list of file and directory nodes, a table of names, and
//! the data of the files.

use crate::codec::{
    align_up, be_u24, be_u32, checked_align_up, lemma_align_up, lemma_padded_prefix,
    lemma_subrange_join, lemma_u24_bytes, lemma_u32_bytes, pad_to, padded, put_bytes, put_u24,
    put_u32, read_array, read_u24_at, read_u32_at, read_vec, u24_be, u32_be,
};
use crate::digest::{utf8_is_valid, utf8_lossy, utf8_lossy_string};
use vstd::prelude::*;
use vstd::utf8::valid_utf8;

verus! {

/// The length of the header of an archive, up to its first node.
pub const U8_HEADER_LEN: usize = 32;

/// The length of one node.
pub const U8_NODE_LEN: usize = 12;

/// Where the archive begins behind an IMET header.
pub const IMET_U8_START: usize = 0x600;

#[derive(Debug, Clone, Copy, PartialEq, Eq, Structural)]
pub enum U8Error {
    /// The name that begins at the offset is not well-formed text.
    InvalidFileName(u64),
    /// The data opens neither with the magic number of an archive nor with an
    /// IMET header that leads to one.
    NotU8Data,
    /// The data ends before the archive does, or the archive is too large to
    /// be written.
    IO,
}

/// One node of an archive: a file with its data, or a directory.
#[derive(Debug, Clone, Copy, PartialEq, Eq, Structural)]
pub struct U8Node {
    /// 0 for a file, 1 for a directory.
    pub node_type: u8,
    /// Where the name begins in the table of names; 24 bits.
    pub name_offset: u32,
    /// For a file, where its data begins; for a directory, the index of its
    /// parent.
    pub data_offset: u32,
    /// For a file, the length of its data; for a directory, the index after
    /// that of its last descendant.
    pub size: u32,
}

/// An archive: its nodes, and for each node its name and its data.
#[derive(Debug)]
pub struct U8Archive {
    pub u8_nodes: Vec<U8Node>,
    pub file_names: Vec<Vec<u8>>,
    pub file_data: Vec<Vec<u8>>,
    pub root_node_offset: u32,
    pub header_size: u32,
    pub data_offset: u32,
    pub padding: [u8; 16],
}

/// Whether the four bytes at `at` are the magic number of an archive.
pub open spec fn magic_at(data: Seq<u8>, at: int) -> bool {
    data[at] == 0x55 && data[at + 1] == 0xAA && data[at + 2] == 0x38 && data[at + 3] == 0x2D
}

/// Whether the four bytes at `at` are the letters `IMET`.
pub open spec fn imet_at(data: Seq<u8>, at: int) -> bool {
    data[at] == 0x49 && data[at + 1] == 0x4D && data[at + 2] == 0x45 && data[at + 3] == 0x54
}

/// Where the archive begins in `data`: at 0 where the magic number stands
/// there, and at 0x600 where an IMET header stands at 0x40 or at 0x80 and the
/// magic number at 0x600.
pub open spec fn u8_start(data: Seq<u8>) -> Result<int, U8Error> {
    if data.len() < 4 {
        Err(U8Error::IO)
    } else if magic_at(data, 0) {
        Ok(0)
    } else if data.len() < 0x44 {
        Err(U8Error::IO)
    } else if !imet_at(data, 0x40) && data.len() < 0x84 {
        Err(U8Error::IO)
    } else if !imet_at(data, 0x40) && !imet_at(data, 0x80) {
        Err(U8Error::NotU8Data)
    } else if data.len() < IMET_U8_START + 4 {
        Err(U8Error::IO)
    } else if magic_at(data, IMET_U8_START as int) {
        Ok(IMET_U8_START as int)
    } else {
        Err(U8Error::NotU8Data)
    }
}

/// The node that stands in `data` at offset `at`.
pub open spec fn node_at(data: Seq<u8>, at: int) -> U8Node {
    U8Node {
        node_type: data[at],
        name_offset: be_u24(data.subrange(at + 1, at + 4)),
        data_offset: be_u32(data.subrange(at + 4, at + 8)),
        size: be_u32(data.subrange(at + 8, at + 12)),
    }
}

/// The number of nodes of the archive that begins at `start`: what the root
/// node gives as its size, and at least the root node itself.
pub open spec fn node_count(data: Seq<u8>, start: int) -> int {
    let root = node_at(data, start + U8_HEADER_LEN);
    if root.size == 0 {
        1
    } else {
        root.size as int
    }
}

/// Where the table of names begins: after the last node.
pub open spec fn names_base(data: Seq<u8>, start: int) -> int {
    start + U8_HEADER_LEN + U8_NODE_LEN * node_count(data, start)
}

/// The position of the first zero byte from `from` on, or the length of
/// `data` where there is none.
pub open spec fn nul_position(data: Seq<u8>, from: int) -> int
    decreases data.len() - from,
{
    if from < 0 || from >= data.len() {
        data.len() as int
    } else if data[from] == 0 {
        from
    } else {
        nul_position(data, from + 1)
    }
}

/// The name of a node: the bytes from its place in the table of names up to
/// the zero byte that ends it.
pub open spec fn node_name(data: Seq<u8>, base: int, node: U8Node) -> Seq<u8> {
    data.subrange(base + node.name_offset, nul_position(data, base + node.name_offset))
}

/// The data of a node: for a file that is not empty, the bytes at its offset;
/// for every other node, nothing.
pub open spec fn node_data(data: Seq<u8>, node: U8Node) -> Seq<u8> {
    if node.node_type == 0 && node.size > 0 {
        data.subrange(node.data_offset as int, node.data_offset + node.size)
    } else {
        Seq::<u8>::empty()
    }
}

/// Why a node's name and data cannot be read, if they cannot: the name is
/// not ended by a zero byte, it is not well-formed text, or the data of the
/// file does not lie in `data`.
pub open spec fn node_error(data: Seq<u8>, base: int, node: U8Node) -> Option<U8Error> {
    if nul_position(data, base + node.name_offset) >= data.len() {
        Some(U8Error::IO)
    } else if !valid_utf8(node_name(data, base, node)) {
        Some(U8Error::InvalidFileName((base + node.name_offset) as u64))
    } else if node.node_type == 0 && node.size > 0 && node.data_offset + node.size > data.len() {
        Some(U8Error::IO)
    } else {
        None
    }
}

/// The error of the first node from index `k` on whose name and data cannot
/// be read.
pub open spec fn first_node_error(data: Seq<u8>, start: int, k: int) -> Option<U8Error>
    decreases node_count(data, start) - k,
{
    if k < 0 || k >= node_count(data, start) {
        None
    } else if node_error(
        data,
        names_base(data, start),
        node_at(data, start + U8_HEADER_LEN + U8_NODE_LEN * k),
    ) is Some {
        node_error(
            data,
            names_base(data, start),
            node_at(data, start + U8_HEADER_LEN + U8_NODE_LEN * k),
        )
    } else {
        first_node_error(data, start, k + 1)
    }
}

/// Why `data` is no archive, if it is none.
pub open spec fn u8_parse_error(data: Seq<u8>) -> Option<U8Error> {
    match u8_start(data) {
        Err(e) => Some(e),
        Ok(start) => {
            if data.len() < start + U8_HEADER_LEN + U8_NODE_LEN {
                Some(U8Error::IO)
            } else if data.len() < names_base(data, start) {
                Some(U8Error::IO)
            } else {
                first_node_error(data, start, 0)
            }
        },
    }
}

/// The position of the first zero byte from `from` on, if there is one.
fn find_nul(data: &[u8], from: usize) -> (end: Option<usize>)
    ensures
        match end {
            Some(e) => e == nul_position(data@, from as int) && from <= e < data@.len(),
            None => nul_position(data@, from as int) >= data@.len(),
        },
{
    let n = data.len();
    let mut e = from;
    while e < n
        invariant
            n == data.len(),
            from <= e,
            nul_position(data@, from as int) == nul_position(data@, e as int),
        decreases n - e,
    {
        if data[e] == 0 {
            return Some(e);
        }
        e += 1;
    }
    None
}

impl U8Archive {
    /// Whether there are a name and data for each node, the data of a file as
    /// long as its node says, and no data for a directory.
    pub open spec fn wf(&self) -> bool {
        &&& self.file_names@.len() == self.u8_nodes@.len()
        &&& self.file_data@.len() == self.u8_nodes@.len()
        &&& forall|k: int|
            0 <= k < self.u8_nodes@.len() ==> (#[trigger] self.file_data@[k])@.len() == (
            if self.u8_nodes@[k].node_type == 0 {
                self.u8_nodes@[k].size as int
            } else {
                0
            })
    }

    /// Whether the archive holds what `data` holds, from `start` on: the header
    /// fields, the nodes, and the name and the data of each node.
    pub open spec fn reads_from(&self, data: Seq<u8>, start: int) -> bool {
        &&& self.root_node_offset == be_u32(data.subrange(start + 4, start + 8))
        &&& self.header_size == be_u32(data.subrange(start + 8, start + 12))
        &&& self.data_offset == be_u32(data.subrange(start + 12, start + 16))
        &&& self.padding@ == data.subrange(start + 16, start + 32)
        &&& self.u8_nodes@.len() == node_count(data, start)
        &&& self.file_names@.len() == node_count(data, start)
        &&& self.file_data@.len() == node_count(data, start)
        &&& forall|k: int|
            0 <= k < node_count(data, start) ==> {
                &&& #[trigger] self.u8_nodes@[k] == node_at(
                    data,
                    start + U8_HEADER_LEN + U8_NODE_LEN * k,
                )
                &&& self.file_names@[k]@ == node_name(
                    data,
                    names_base(data, start),
                    self.u8_nodes@[k],
                )
                &&& self.file_data@[k]@ == node_data(data, self.u8_nodes@[k])
            }
    }

    /// Reads an archive from its binary form, or from a file that holds one
    /// behind an IMET header. The offsets of the file data count from the
    /// beginning of `data`.
    pub fn from_bytes(data: &[u8]) -> (r: Result<U8Archive, U8Error>)
        ensures
            match r {
                Ok(archive) => u8_parse_error(data@) is None && archive.reads_from(
                    data@,
                    u8_start(data@)->Ok_0,
                ) && archive.wf(),
                Err(e) => u8_parse_error(data@) == Some(e),
            },
    {
        if data.len() < 4 {
            return Err(U8Error::IO);
        }
        let start: usize = if data[0] == 0x55 && data[1] == 0xAA && data[2] == 0x38 && data[3]
            == 0x2D {
            0
        } else {
            if data.len() < 0x44 {
                return Err(U8Error::IO);
            }
            let first = data[0x40] == 0x49 && data[0x41] == 0x4D && data[0x42] == 0x45
                && data[0x43] == 0x54;
            if !first {
                if data.len() < 0x84 {
                    return Err(U8Error::IO);
                }
                let second = data[0x80] == 0x49 && data[0x81] == 0x4D && data[0x82] == 0x45
                    && data[0x83] == 0x54;
                if !second {
                    return Err(U8Error::NotU8Data);
                }
            }
            if data.len() < IMET_U8_START + 4 {
                return Err(U8Error::IO);
            }
            if !(data[0x600] == 0x55 && data[0x601] == 0xAA && data[0x602] == 0x38 && data[0x603]
                == 0x2D) {
                return Err(U8Error::NotU8Data);
            }
            IMET_U8_START
        };
        assert(u8_start(data@) == Ok::<int, U8Error>(start as int));
        if data.len() - start < U8_HEADER_LEN + U8_NODE_LEN {
            return Err(U8Error::IO);
        }
        let root_node_offset = read_u32_at(data, start + 4);
        let header_size = read_u32_at(data, start + 8);
        let data_offset = read_u32_at(data, start + 12);
        let padding = read_array::<16>(data, start + 16);
        let nodes_at = start + U8_HEADER_LEN;
        let root_size = read_u32_at(data, nodes_at + 8);
        let count: u64 = if root_size == 0 {
            1
        } else {
            root_size as u64
        };
        assert(count == node_count(data@, start as int));
        if U8_NODE_LEN as u64 * count > (data.len() - nodes_at) as u64 {
            return Err(U8Error::IO);
        }
        let count = count as usize;
        let base = nodes_at + U8_NODE_LEN * count;
        assert(base == names_base(data@, start as int));
        let mut u8_nodes: Vec<U8Node> = Vec::new();
        let mut k: usize = 0;
        while k < count
            invariant
                k <= count,
                nodes_at == start + U8_HEADER_LEN,
                nodes_at + U8_NODE_LEN * count <= data.len(),
                u8_nodes@.len() == k,
                forall|j: int|
                    0 <= j < k ==> #[trigger] u8_nodes@[j] == node_at(
                        data@,
                        start + U8_HEADER_LEN + U8_NODE_LEN * j,
                    ),
            decreases count - k,
        {
            let at = nodes_at + U8_NODE_LEN * k;
            let node = U8Node {
                node_type: data[at],
                name_offset: read_u24_at(data, at + 1),
                data_offset: read_u32_at(data, at + 4),
                size: read_u32_at(data, at + 8),
            };
            u8_nodes.push(node);
            k += 1;
        }
        let mut file_names: Vec<Vec<u8>> = Vec::new();
        let mut file_data: Vec<Vec<u8>> = Vec::new();
        let mut k: usize = 0;
        while k < count
            invariant
                k <= count,
                count == node_count(data@, start as int),
                base == names_base(data@, start as int),
                base <= data.len(),
                u8_start(data@) == Ok::<int, U8Error>(start as int),
                data.len() >= start + U8_HEADER_LEN + U8_NODE_LEN,
                u8_nodes@.len() == count,
                forall|j: int|
                    0 <= j < count ==> #[trigger] u8_nodes@[j] == node_at(
                        data@,
                        start + U8_HEADER_LEN + U8_NODE_LEN * j,
                    ),
                file_names@.len() == k,
                file_data@.len() == k,
                first_node_error(data@, start as int, 0) == first_node_error(
                    data@,
                    start as int,
                    k as int,
                ),
                forall|j: int|
                    0 <= j < k ==> (#[trigger] file_names@[j])@ == node_name(
                        data@,
                        base as int,
                        u8_nodes@[j],
                    ),
                forall|j: int|
                    0 <= j < k ==> (#[trigger] file_data@[j])@ == node_data(data@, u8_nodes@[j]),
                forall|j: int|
                    0 <= j < k ==> (#[trigger] file_data@[j])@.len() == (if u8_nodes@[j].node_type
                        == 0 {
                        u8_nodes@[j].size as int
                    } else {
                        0
                    }),
            decreases count - k,
        {
            let node = u8_nodes[k];
            assert(node == node_at(data@, start + U8_HEADER_LEN + U8_NODE_LEN * k));
            assert(data@.len() == data.len());
            if node.name_offset as usize > data.len() - base {
                return Err(U8Error::IO);
            }
            let name_start = base + node.name_offset as usize;
            let name_end = match find_nul(data, name_start) {
                Some(e) => e,
                None => {
                    return Err(U8Error::IO);
                },
            };
            let name = read_vec(data, name_start, name_end - name_start);
            if !utf8_is_valid(name.as_slice()) {
                return Err(U8Error::InvalidFileName(name_start as u64));
            }
            let bytes = if node.node_type == 0 && node.size > 0 {
                if node.data_offset as u64 + node.size as u64 > data.len() as u64 {
                    return Err(U8Error::IO);
                }
                read_vec(data, node.data_offset as usize, node.size as usize)
            } else {
                Vec::new()
            };
            file_names.push(name);
            file_data.push(bytes);
            k += 1;
        }
        Ok(
            U8Archive {
                u8_nodes,
                file_names,
                file_data,
                root_node_offset,
                header_size,
                data_offset,
                padding,
            },
        )
    }
}

/// The length of the table of names before the name of node `k`: the names
/// before it, each with the zero byte that ends it.
pub open spec fn names_len(names: Seq<Seq<u8>>, k: int) -> int
    decreases k,
{
    if k <= 0 {
        0
    } else {
        names_len(names, k - 1) + names[k - 1].len() + 1
    }
}

/// The length of the file data before that of node `k`: the files before it,
/// each counted up to a 32-byte boundary.
pub open spec fn files_len(nodes: Seq<U8Node>, k: int) -> int
    decreases k,
{
    if k <= 0 {
        0
    } else {
        files_len(nodes, k - 1) + (if nodes[k - 1].node_type == 0 {
            align_up(nodes[k - 1].size as int, 32)
        } else {
            0
        })
    }
}

/// The twelve bytes of a node.
pub open spec fn node_bytes(node: U8Node) -> Seq<u8> {
    seq![node.node_type] + u24_be(node.name_offset) + u32_be(node.data_offset) + u32_be(node.size)
}

/// The bytes of the first `k` names, each ended by a zero byte.
pub open spec fn names_bytes(names: Seq<Seq<u8>>, k: int) -> Seq<u8>
    decreases k,
{
    if k <= 0 {
        Seq::<u8>::empty()
    } else {
        names_bytes(names, k - 1) + names[k - 1] + seq![0u8]
    }
}

/// The magic number of an archive.
pub open spec fn u8_magic() -> Seq<u8> {
    seq![0x55u8, 0xAAu8, 0x38u8, 0x2Du8]
}

/// Names do not get shorter as more of them are counted.
pub proof fn lemma_names_len_grows(names: Seq<Seq<u8>>, i: int, k: int)
    requires
        i <= k,
    ensures
        0 <= names_len(names, i) <= names_len(names, k),
    decreases k,
{
    if k > 0 {
        if i < k {
            lemma_names_len_grows(names, i, k - 1);
        } else {
            lemma_names_len_grows(names, i - 1, k - 1);
        }
    }
}

/// File data does not get shorter as more files are counted.
pub proof fn lemma_files_len_grows(nodes: Seq<U8Node>, i: int, k: int)
    requires
        i <= k,
    ensures
        0 <= files_len(nodes, i) <= files_len(nodes, k),
        files_len(nodes, k) % 32 == 0,
    decreases k,
{
    if k > 0 {
        if i < k {
            lemma_files_len_grows(nodes, i, k - 1);
        } else {
            lemma_files_len_grows(nodes, i - 1, k - 1);
        }
        lemma_align_up(nodes[k - 1].size as int, 32);
    }
}

impl U8Archive {
    /// The names as bytes.
    pub open spec fn spec_names(&self) -> Seq<Seq<u8>> {
        Seq::new(self.file_names@.len(), |i: int| self.file_names@[i]@)
    }

    /// The file data as bytes.
    pub open spec fn spec_data(&self) -> Seq<Seq<u8>> {
        Seq::new(self.file_data@.len(), |i: int| self.file_data@[i]@)
    }

    /// The length of the nodes and the table of names, which is what an
    /// archive calls the size of its header.
    pub open spec fn spec_header_size(&self) -> int {
        U8_NODE_LEN * self.u8_nodes@.len() + names_len(
            self.spec_names(),
            self.u8_nodes@.len() as int,
        )
    }

    /// Where the file data begins: at the first 64-byte boundary after the
    /// table of names.
    pub open spec fn spec_data_start(&self) -> int {
        align_up(self.spec_header_size() + U8_HEADER_LEN, 64)
    }

    /// Whether the archive can be written: the file data ends within what 32
    /// bits address, and every name begins within what 24 bits address.
    pub open spec fn fits(&self) -> bool {
        &&& self.spec_data_start() + files_len(self.u8_nodes@, self.u8_nodes@.len() as int)
            <= u32::MAX
        &&& self.u8_nodes@.len() > 0 ==> names_len(self.spec_names(), self.u8_nodes@.len() - 1)
            < 0x100_0000
    }

    /// Node `k` as it is written: with the place of its name in the table as
    /// the names follow each other, and, for a file, the place of its data as
    /// the files follow each other.
    pub open spec fn laid_out(&self, k: int) -> U8Node {
        let node = self.u8_nodes@[k];
        U8Node {
            node_type: node.node_type,
            name_offset: names_len(self.spec_names(), k) as u32,
            data_offset: if node.node_type == 0 {
                (self.spec_data_start() + files_len(self.u8_nodes@, k)) as u32
            } else {
                node.data_offset
            },
            size: node.size,
        }
    }

    /// The bytes of the first `k` nodes as they are written.
    pub open spec fn nodes_bytes(&self, k: int) -> Seq<u8>
        decreases k,
    {
        if k <= 0 {
            Seq::<u8>::empty()
        } else {
            self.nodes_bytes(k - 1) + node_bytes(self.laid_out(k - 1))
        }
    }

    /// The archive up to the end of the table of names.
    pub open spec fn spec_head(&self) -> Seq<u8> {
        u8_magic() + u32_be(0x20) + u32_be(self.spec_header_size() as u32) + u32_be(
            self.spec_data_start() as u32,
        ) + self.padding@ + self.nodes_bytes(self.u8_nodes@.len() as int) + names_bytes(
            self.spec_names(),
            self.u8_nodes@.len() as int,
        )
    }

    /// The archive up to the data of node `k`: the head, filled up to a
    /// 64-byte boundary, then the data of each node before `k`, each filled
    /// up to a 32-byte boundary.
    pub open spec fn spec_body(&self, k: int) -> Seq<u8>
        decreases k,
    {
        if k <= 0 {
            padded(self.spec_head(), 64)
        } else {
            padded(self.spec_body(k - 1) + self.file_data@[k - 1]@, 32)
        }
    }

    /// The binary form: the archive laid out anew, the data of the files in
    /// the order of their nodes.
    pub open spec fn spec_to_bytes(&self) -> Seq<u8> {
        self.spec_body(self.file_data@.len() as int)
    }

    /// Where each name begins in the table of names, and the length of the
    /// table; nothing where a name begins beyond what 24 bits address or the
    /// table is longer than 32 bits tell.
    fn name_offsets(&self) -> (r: Option<(Vec<u32>, u64)>)
        requires
            self.wf(),
        ensures
            r is None ==> !self.fits(),
            r is Some ==> {
                let (offsets, total) = r->0;
                &&& offsets@.len() == self.u8_nodes@.len()
                &&& total == names_len(self.spec_names(), self.u8_nodes@.len() as int)
                &&& total <= 0x1_0100_0000
                &&& self.u8_nodes@.len() > 0 ==> names_len(
                    self.spec_names(),
                    self.u8_nodes@.len() - 1,
                ) < 0x100_0000
                &&& forall|k: int|
                    0 <= k < offsets@.len() ==> #[trigger] offsets@[k] == names_len(
                        self.spec_names(),
                        k,
                    ) && offsets@[k] < 0x100_0000
            },
    {
        let n = self.u8_nodes.len();
        let ghost names = self.spec_names();
        let mut offsets: Vec<u32> = Vec::new();
        let mut total: u64 = 0;
        let mut k: usize = 0;
        while k < n
            invariant
                k <= n,
                n == self.u8_nodes@.len(),
                n == self.file_names@.len(),
                names == self.spec_names(),
                offsets@.len() == k,
                total == names_len(names, k as int),
                total <= 0x1_0100_0000,
                k > 0 ==> names_len(names, k - 1) < 0x100_0000,
                forall|j: int|
                    0 <= j < k ==> #[trigger] offsets@[j] == names_len(names, j) && offsets@[j]
                        < 0x100_0000,
            decreases n - k,
        {
            proof {
                lemma_names_len_grows(names, k as int, n - 1);
                lemma_names_len_grows(names, k as int + 1, n as int);
                lemma_files_len_grows(self.u8_nodes@, 0, n as int);
                lemma_align_up(self.spec_header_size() + U8_HEADER_LEN, 64);
                assert(names[k as int] == self.file_names@[k as int]@);
            }
            if total >= 0x100_0000 {
                return None;
            }
            let len = self.file_names[k].len();
            if len as u64 >= 0xFFFF_FFFF {
                return None;
            }
            offsets.push(total as u32);
            total = total + len as u64 + 1;
            k += 1;
        }
        Some((offsets, total))
    }

    /// Writes the binary form, with the names and the file data laid out anew
    /// in the order of the nodes.
    pub fn to_bytes(&self) -> (r: Result<Vec<u8>, U8Error>)
        requires
            self.wf(),
        ensures
            r is Ok <==> self.fits(),
            r is Ok ==> r->Ok_0@ == self.spec_to_bytes(),
            r is Err ==> r->Err_0 == U8Error::IO,
    {
        let n = self.u8_nodes.len();
        let ghost names = self.spec_names();
        let (offsets, names_total) = match self.name_offsets() {
            Some(r) => r,
            None => {
                return Err(U8Error::IO);
            },
        };
        proof {
            lemma_files_len_grows(self.u8_nodes@, 0, n as int);
            lemma_align_up(self.spec_header_size() + U8_HEADER_LEN, 64);
        }
        if n as u64 > 0xFFFF_FFFF {
            return Err(U8Error::IO);
        }
        let header_size: u64 = U8_NODE_LEN as u64 * n as u64 + names_total;
        let data_start = match checked_align_up(header_size + U8_HEADER_LEN as u64, 64) {
            Some(s) => s,
            None => {
                return Err(U8Error::IO);
            },
        };
        if data_start > u32::MAX as u64 {
            return Err(U8Error::IO);
        }
        assert(data_start == self.spec_data_start());
        let mut buf: Vec<u8> = Vec::new();
        buf.push(0x55);
        buf.push(0xAA);
        buf.push(0x38);
        buf.push(0x2D);
        assert(buf@ =~= u8_magic());
        put_u32(&mut buf, 0x20);
        put_u32(&mut buf, header_size as u32);
        put_u32(&mut buf, data_start as u32);
        put_bytes(&mut buf, &self.padding);
        let ghost fixed = buf@;
        let mut current: u64 = data_start;
        let mut k: usize = 0;
        while k < n
            invariant
                k <= n,
                n == self.u8_nodes@.len(),
                self.wf(),
                names == self.spec_names(),
                offsets@.len() == n,
                forall|j: int|
                    0 <= j < n ==> #[trigger] offsets@[j] == names_len(names, j) && offsets@[j]
                        < 0x100_0000,
                data_start == self.spec_data_start(),
                current == data_start + files_len(self.u8_nodes@, k as int),
                current <= u32::MAX,
                buf@ == fixed + self.nodes_bytes(k as int),
            decreases n - k,
        {
            let node = self.u8_nodes[k];
            let mut data_offset = node.data_offset;
            let mut next = current;
            if node.node_type == 0 {
                data_offset = current as u32;
                let step = match checked_align_up(node.size as u64, 32) {
                    Some(s) => s,
                    None => {
                        proof {
                            lemma_align_up(node.size as int, 32);
                        }
                        return Err(U8Error::IO);
                    },
                };
                next = current + step;
            }
            proof {
                lemma_files_len_grows(self.u8_nodes@, k as int + 1, n as int);
            }
            if next > u32::MAX as u64 {
                return Err(U8Error::IO);
            }
            let ghost before = buf@;
            buf.push(node.node_type);
            put_u24(&mut buf, offsets[k]);
            put_u32(&mut buf, data_offset);
            put_u32(&mut buf, node.size);
            proof {
                let laid = self.laid_out(k as int);
                assert(laid.name_offset == offsets@[k as int]);
                assert(laid.data_offset == data_offset);
                assert(buf@ =~= before + node_bytes(laid));
                assert(buf@ =~= fixed + self.nodes_bytes(k + 1));
            }
            current = next;
            k += 1;
        }
        let ghost with_nodes = buf@;
        let mut k: usize = 0;
        while k < n
            invariant
                k <= n,
                n == self.u8_nodes@.len(),
                self.wf(),
                names == self.spec_names(),
                buf@ == with_nodes + names_bytes(names, k as int),
            decreases n - k,
        {
            let ghost before = buf@;
            put_bytes(&mut buf, self.file_names[k].as_slice());
            buf.push(0u8);
            proof {
                assert(names[k as int] == self.file_names@[k as int]@);
                assert(buf@ =~= with_nodes + names_bytes(names, k + 1));
            }
            k += 1;
        }
        assert(buf@ =~= self.spec_head());
        pad_to(&mut buf, 64);
        let mut k: usize = 0;
        while k < n
            invariant
                k <= n,
                n == self.u8_nodes@.len(),
                self.wf(),
                buf@ == self.spec_body(k as int),
            decreases n - k,
        {
            put_bytes(&mut buf, self.file_data[k].as_slice());
            pad_to(&mut buf, 32);
            k += 1;
        }
        Ok(buf)
    }
}

/// The directory that holds node `i`, looked for among the nodes before
/// `below`: the last of them that is a directory and reaches beyond `i`, and
/// the root where there is none.
pub open spec fn holder(nodes: Seq<U8Node>, i: int, below: int) -> int
    decreases below,
{
    if below <= 0 {
        0
    } else if nodes[below - 1].node_type != 0 && nodes[below - 1].size > i {
        below - 1
    } else {
        holder(nodes, i, below - 1)
    }
}

/// The directory that holds node `i`: the last directory before it whose
/// last descendant is not before it. The nodes are a tree written out parent
/// first, so this is the innermost directory around the node. The root holds
/// itself.
pub open spec fn parent_of(nodes: Seq<U8Node>, i: int) -> int {
    holder(nodes, i, i)
}

/// The nodes on the way from the root to node `i`, the root left out.
pub open spec fn path_to(nodes: Seq<U8Node>, i: int) -> Seq<int>
    decreases i,
{
    if i <= 0 {
        Seq::<int>::empty()
    } else {
        proof {
            lemma_holder_below(nodes, i, i);
        }
        path_to(nodes, parent_of(nodes, i)).push(i)
    }
}

/// The holder of a node is a node before the bound of the search.
pub proof fn lemma_holder_below(nodes: Seq<U8Node>, i: int, below: int)
    ensures
        0 <= holder(nodes, i, below),
        below > 0 ==> holder(nodes, i, below) < below,
    decreases below,
{
    if below > 0 && !(nodes[below - 1].node_type != 0 && nodes[below - 1].size > i) {
        lemma_holder_below(nodes, i, below - 1);
    }
}

impl U8Archive {
    /// The number of nodes.
    pub fn node_count(&self) -> (n: usize)
        ensures
            n == self.u8_nodes@.len(),
    {
        self.u8_nodes.len()
    }

    /// Whether node `i` is a directory.
    pub fn is_directory(&self, i: usize) -> (dir: bool)
        requires
            i < self.u8_nodes@.len(),
        ensures
            dir == (self.u8_nodes@[i as int].node_type != 0),
    {
        self.u8_nodes[i].node_type != 0
    }

    /// The index of the directory that holds node `i`.
    pub fn parent_index(&self, i: usize) -> (parent: usize)
        requires
            i < self.u8_nodes@.len(),
        ensures
            parent == parent_of(self.u8_nodes@, i as int),
            parent <= i,
            i > 0 ==> parent < i,
    {
        let mut below = i;
        while below > 0
            invariant
                below <= i,
                i < self.u8_nodes@.len(),
                parent_of(self.u8_nodes@, i as int) == holder(
                    self.u8_nodes@,
                    i as int,
                    below as int,
                ),
            decreases below,
        {
            let node = self.u8_nodes[below - 1];
            if node.node_type != 0 && node.size as u64 > i as u64 {
                return below - 1;
            }
            below -= 1;
        }
        0
    }

    /// The nodes on the way from the root to node `i`, the root left out and
    /// the node itself last.
    pub fn path_indices(&self, i: usize) -> (path: Vec<usize>)
        requires
            i < self.u8_nodes@.len(),
        ensures
            path@.len() == path_to(self.u8_nodes@, i as int).len(),
            forall|k: int| 0 <= k < path@.len() ==> path@[k] == path_to(self.u8_nodes@, i as int)[k],
    {
        let ghost whole = path_to(self.u8_nodes@, i as int);
        let mut reversed: Vec<usize> = Vec::new();
        let mut at = i;
        while at > 0
            invariant
                at <= i,
                i < self.u8_nodes@.len(),
                whole == path_to(self.u8_nodes@, i as int),
                whole.len() == path_to(self.u8_nodes@, at as int).len() + reversed@.len(),
                forall|k: int|
                    0 <= k < path_to(self.u8_nodes@, at as int).len() ==> whole[k] == path_to(
                        self.u8_nodes@,
                        at as int,
                    )[k],
                forall|k: int|
                    0 <= k < reversed@.len() ==> reversed@[k] == whole[whole.len() - 1 - k],
            decreases at,
        {
            reversed.push(at);
            at = self.parent_index(at);
        }
        let n = reversed.len();
        let mut path: Vec<usize> = Vec::new();
        let mut k: usize = 0;
        while k < n
            invariant
                k <= n,
                n == reversed@.len(),
                n == whole.len(),
                path@.len() == k,
                forall|j: int| 0 <= j < n ==> reversed@[j] == whole[n - 1 - j],
                forall|j: int| 0 <= j < k ==> path@[j] == whole[j],
            decreases n - k,
        {
            path.push(reversed[n - 1 - k]);
            k += 1;
        }
        path
    }

    /// The name of node `i` as text.
    pub fn name(&self, i: usize) -> (name: String)
        requires
            i < self.file_names@.len(),
        ensures
            name@ == utf8_lossy(self.file_names@[i as int]@),
    {
        utf8_lossy_string(self.file_names[i].as_slice())
    }
}

/// The nodes of the archive that `data` opens with.
pub open spec fn data_nodes(data: Seq<u8>) -> Seq<U8Node> {
    Seq::new(
        node_count(data, 0) as nat,
        |k: int| node_at(data, U8_HEADER_LEN + U8_NODE_LEN * k),
    )
}

/// The names of the nodes of the archive that `data` opens with.
pub open spec fn data_names(data: Seq<u8>) -> Seq<Seq<u8>> {
    Seq::new(
        node_count(data, 0) as nat,
        |k: int| node_name(data, names_base(data, 0), node_at(data, U8_HEADER_LEN + U8_NODE_LEN * k)),
    )
}

/// Where the file data begins in an archive that is laid out as one is
/// written.
#[verifier::opaque]
pub open spec fn data_begin(data: Seq<u8>) -> int {
    align_up(
        U8_NODE_LEN * node_count(data, 0) + names_len(data_names(data), node_count(data, 0))
            + U8_HEADER_LEN,
        64,
    )
}

/// Whether position `p` lies in the padding after the data of file `k`.
pub open spec fn in_file_padding(data: Seq<u8>, k: int, p: int) -> bool {
    let node = data_nodes(data)[k];
    0 <= k < node_count(data, 0) && node.node_type == 0 && node.data_offset + node.size <= p
        < node.data_offset + align_up(node.size as int, 32)
}

/// Whether `data` is an archive laid out as one is written: it opens with
/// the magic number and a root node offset of 0x20, the names follow each
/// other in the order of the nodes, the header gives the true size of nodes
/// and names and the true beginning of the file data, the data of the files
/// follows in the order of the nodes from 32-byte boundaries, all padding is
/// zero bytes, the data ends with the padding of the last file, and 32 bits
/// address all of it.
#[verifier::opaque]
pub open spec fn is_canonical_u8(data: Seq<u8>) -> bool {
    let n = node_count(data, 0);
    let nodes = data_nodes(data);
    let names = data_names(data);
    &&& u8_parse_error(data) is None
    &&& u8_start(data) == Ok::<int, U8Error>(0)
    &&& data.len() <= u32::MAX
    &&& be_u32(data.subrange(4, 8)) == 0x20
    &&& be_u32(data.subrange(8, 12)) == U8_NODE_LEN * n + names_len(names, n)
    &&& be_u32(data.subrange(12, 16)) == data_begin(data)
    &&& forall|k: int| 0 <= k < n ==> (#[trigger] nodes[k]).name_offset == names_len(names, k)
    &&& forall|k: int|
        0 <= k < n && (#[trigger] nodes[k]).node_type == 0 ==> nodes[k].data_offset == data_begin(
            data,
        ) + files_len(nodes, k)
    &&& data.len() == data_begin(data) + files_len(nodes, n)
    &&& forall|p: int|
        U8_HEADER_LEN + U8_NODE_LEN * n + names_len(names, n) <= p < data_begin(data)
            ==> #[trigger] data[p] == 0
    &&& forall|k: int, p: int| #[trigger] in_file_padding(data, k, p) ==> data[p] == 0
}

/// What data laid out as an archive is written holds in its header.
pub proof fn lemma_canonical_header(data: Seq<u8>)
    requires
        is_canonical_u8(data),
    ensures
        u8_parse_error(data) is None,
        u8_start(data) == Ok::<int, U8Error>(0),
        data.len() <= u32::MAX,
        data.len() >= names_base(data, 0),
        node_count(data, 0) >= 1,
        first_node_error(data, 0, 0) is None,
        magic_at(data, 0),
        be_u32(data.subrange(4, 8)) == 0x20,
        be_u32(data.subrange(8, 12)) == U8_NODE_LEN * node_count(data, 0) + names_len(
            data_names(data),
            node_count(data, 0),
        ),
        be_u32(data.subrange(12, 16)) == data_begin(data),
        data.len() == data_begin(data) + files_len(data_nodes(data), node_count(data, 0)),
{
    reveal(is_canonical_u8);
}

/// Where data laid out as an archive is written holds the name of node `k`
/// and, for a file, its data.
pub proof fn lemma_canonical_node(data: Seq<u8>, k: int)
    requires
        is_canonical_u8(data),
        0 <= k < node_count(data, 0),
    ensures
        data_nodes(data)[k] == node_at(data, U8_HEADER_LEN + U8_NODE_LEN * k),
        data_nodes(data)[k].name_offset == names_len(data_names(data), k),
        data_nodes(data)[k].node_type == 0 ==> data_nodes(data)[k].data_offset == data_begin(data)
            + files_len(data_nodes(data), k),
{
    reveal(is_canonical_u8);
}

/// Data laid out as an archive is written holds zero bytes between the
/// table of names and the file data.
pub proof fn lemma_canonical_head_padding(data: Seq<u8>, p: int)
    requires
        is_canonical_u8(data),
        U8_HEADER_LEN + U8_NODE_LEN * node_count(data, 0) + names_len(
            data_names(data),
            node_count(data, 0),
        ) <= p < data_begin(data),
    ensures
        data[p] == 0,
{
    reveal(is_canonical_u8);
}

/// The first zero byte from `from` on is not before `from`, and is a zero
/// byte where there is one.
pub proof fn lemma_nul_position(data: Seq<u8>, from: int)
    requires
        0 <= from,
    ensures
        nul_position(data, from) <= data.len(),
        nul_position(data, from) < data.len() ==> from <= nul_position(data, from) && data[nul_position(
            data,
            from,
        )] == 0,
    decreases data.len() - from,
{
    if from < data.len() && data[from] != 0 {
        lemma_nul_position(data, from + 1);
    }
}

/// Where no node is in error from `k` on, node `j` is in none.
pub proof fn lemma_no_node_error(data: Seq<u8>, start: int, k: int, j: int)
    requires
        0 <= k <= j < node_count(data, start),
        first_node_error(data, start, k) is None,
    ensures
        node_error(
            data,
            names_base(data, start),
            node_at(data, start + U8_HEADER_LEN + U8_NODE_LEN * j),
        ) is None,
    decreases j - k,
{
    if k < j {
        lemma_no_node_error(data, start, k + 1, j);
    }
}

/// The twelve bytes of a node are those that it was read from.
pub proof fn lemma_node_bytes(data: Seq<u8>, at: int)
    requires
        0 <= at,
        at + U8_NODE_LEN <= data.len(),
    ensures
        node_bytes(node_at(data, at)) == data.subrange(at, at + U8_NODE_LEN),
        node_at(data, at).name_offset < 0x100_0000,
{
    lemma_u24_bytes(data.subrange(at + 1, at + 4));
    lemma_u32_bytes(data.subrange(at + 4, at + 8));
    lemma_u32_bytes(data.subrange(at + 8, at + 12));
    assert(seq![data[at]] =~= data.subrange(at, at + 1));
    lemma_subrange_join(data, at, at + 1, at + 4);
    lemma_subrange_join(data, at, at + 4, at + 8);
    lemma_subrange_join(data, at, at + 8, at + 12);
}

/// In data laid out as an archive is written, the names up to node `k` are
/// the bytes of the table of names up to the name of node `k`.
pub proof fn lemma_names_in_place(data: Seq<u8>, k: int)
    requires
        is_canonical_u8(data),
        0 <= k <= node_count(data, 0),
    ensures
        0 <= names_len(data_names(data), k),
        names_base(data, 0) + names_len(data_names(data), k) <= data.len(),
        names_bytes(data_names(data), k) == data.subrange(
            names_base(data, 0),
            names_base(data, 0) + names_len(data_names(data), k),
        ),
    decreases k,
{
    let names = data_names(data);
    let base = names_base(data, 0);
    lemma_canonical_header(data);
    if k == 0 {
        assert(names_bytes(names, 0) =~= data.subrange(base, base));
    } else {
        lemma_names_in_place(data, k - 1);
        lemma_canonical_node(data, k - 1);
        let node = node_at(data, U8_HEADER_LEN + U8_NODE_LEN * (k - 1));
        lemma_no_node_error(data, 0, 0, k - 1);
        let from = base + node.name_offset;
        lemma_nul_position(data, from);
        let end = nul_position(data, from);
        assert(names[k - 1] == data.subrange(from, end));
        assert(seq![0u8] =~= data.subrange(end, end + 1));
        lemma_subrange_join(data, base, from, end);
        lemma_subrange_join(data, base, end, end + 1);
    }
}

/// A file's data and the zero bytes after it, up to the next 32-byte
/// boundary, lengthen a prefix of `data` that ends on such a boundary.
pub proof fn lemma_file_step(data: Seq<u8>, at: int, size: int, before: Seq<u8>, piece: Seq<u8>)
    requires
        0 <= at,
        at % 32 == 0,
        0 <= size,
        at + align_up(size, 32) <= data.len(),
        before == data.subrange(0, at),
        piece == data.subrange(at, at + size),
        forall|p: int| at + size <= p < at + align_up(size, 32) ==> #[trigger] data[p] == 0,
    ensures
        padded(before + piece, 32) == data.subrange(0, at + align_up(size, 32)),
{
    lemma_align_up(size, 32);
    assert(align_up(at + size, 32) == at + align_up(size, 32)) by {
        assert((at + size) % 32 == size % 32);
    }
    lemma_padded_prefix(data, at, size, 32);
}

/// A directory, which has no data, leaves a prefix that ends on a 32-byte
/// boundary as it is.
pub proof fn lemma_directory_step(before: Seq<u8>)
    requires
        before.len() % 32 == 0,
    ensures
        padded(before + Seq::<u8>::empty(), 32) == before,
{
    assert(before + Seq::<u8>::empty() =~= before);
    assert(padded(before, 32) =~= before);
}

/// Where data laid out as an archive is written holds the data of file `k`,
/// and what follows it.
pub proof fn lemma_canonical_file(data: Seq<u8>, k: int)
    requires
        is_canonical_u8(data),
        0 <= k < node_count(data, 0),
        data_nodes(data)[k].node_type == 0,
    ensures
        data_nodes(data)[k].data_offset == data_begin(data) + files_len(data_nodes(data), k),
        data_nodes(data)[k].data_offset + align_up(data_nodes(data)[k].size as int, 32)
            <= data.len(),
        forall|p: int|
            data_nodes(data)[k].data_offset + data_nodes(data)[k].size <= p < data_nodes(data)[k].data_offset + align_up(data_nodes(data)[k].size as int, 32) ==> #[trigger] data[p]
                == 0,
{
    reveal(is_canonical_u8);
    let nodes = data_nodes(data);
    let n = node_count(data, 0);
    lemma_files_len_grows(nodes, k + 1, n);
    assert forall|p: int|
        nodes[k].data_offset + nodes[k].size <= p < nodes[k].data_offset + align_up(
            nodes[k].size as int,
            32,
        ) implies #[trigger] data[p] == 0 by {
        assert(in_file_padding(data, k, p));
    }
}

/// The data of node `k` and its padding lengthen the prefix of `data` that
/// has been written.
pub proof fn lemma_body_step(data: Seq<u8>, k: int, before: Seq<u8>, piece: Seq<u8>)
    requires
        is_canonical_u8(data),
        0 <= data_begin(data),
        data_begin(data) % 64 == 0,
        0 <= k < node_count(data, 0),
        data_begin(data) + files_len(data_nodes(data), k) <= data.len(),
        before == data.subrange(0, data_begin(data) + files_len(data_nodes(data), k)),
        piece == node_data(data, data_nodes(data)[k]),
    ensures
        0 <= data_begin(data) + files_len(data_nodes(data), k + 1) <= data.len(),
        padded(before + piece, 32) == data.subrange(
            0,
            data_begin(data) + files_len(data_nodes(data), k + 1),
        ),
{
    let nodes = data_nodes(data);
    let node = nodes[k];
    let begin = data_begin(data);
    let done = files_len(nodes, k);
    lemma_files_len_grows(nodes, 0, k);
    lemma_files_step(nodes, k);
    if node.node_type == 0 {
        lemma_canonical_file(data, k);
        if node.size == 0 {
            assert(piece =~= data.subrange(begin + done, begin + done));
        }
        lemma_file_step(data, begin + done, node.size as int, before, piece);
    } else {
        lemma_directory_step(before);
    }
}

/// What one node adds to the length of the file data.
pub proof fn lemma_files_step(nodes: Seq<U8Node>, k: int)
    requires
        0 <= k,
    ensures
        files_len(nodes, k + 1) == files_len(nodes, k) + (if nodes[k].node_type == 0 {
            align_up(nodes[k].size as int, 32)
        } else {
            0
        }),
{
}

impl U8Archive {
    /// An archive holds the nodes, the names and the data of the data that it
    /// was read from.
    pub proof fn lemma_same_nodes(&self, data: Seq<u8>)
        requires
            self.reads_from(data, 0),
        ensures
            self.u8_nodes@ == data_nodes(data),
            self.spec_names() == data_names(data),
            self.u8_nodes@.len() == node_count(data, 0),
            self.file_data@.len() == node_count(data, 0),
            forall|k: int|
                0 <= k < node_count(data, 0) ==> (#[trigger] self.file_data@[k])@ == node_data(
                    data,
                    data_nodes(data)[k],
                ),
    {
        assert(self.u8_nodes@ =~= data_nodes(data));
        assert forall|k: int| 0 <= k < node_count(data, 0) implies self.spec_names()[k]
            == data_names(data)[k] by {
            assert(self.u8_nodes@[k] == node_at(data, U8_HEADER_LEN + U8_NODE_LEN * k));
        }
        assert(self.spec_names() =~= data_names(data));
        assert forall|k: int| 0 <= k < node_count(data, 0) implies (
        #[trigger] self.file_data@[k])@ == node_data(data, data_nodes(data)[k]) by {
            assert(self.u8_nodes@[k] == node_at(data, U8_HEADER_LEN + U8_NODE_LEN * k));
        }
    }

    /// In an archive read from data that is laid out as an archive is
    /// written, every node is written as it was read.
    pub proof fn lemma_laid_out_same(&self, data: Seq<u8>, k: int)
        requires
            self.u8_nodes@ == data_nodes(data),
            self.spec_names() == data_names(data),
            is_canonical_u8(data),
            0 <= k < node_count(data, 0),
        ensures
            self.spec_data_start() == data_begin(data),
            self.laid_out(k) == data_nodes(data)[k],
    {
        reveal(data_begin);
        lemma_canonical_header(data);
        lemma_canonical_node(data, k);
        let n = node_count(data, 0);
        let nodes = data_nodes(data);
        lemma_node_bytes(data, U8_HEADER_LEN + U8_NODE_LEN * k);
        lemma_files_len_grows(nodes, k, n);
        lemma_files_len_grows(nodes, 0, k);
        assert(self.spec_header_size() == U8_NODE_LEN * n + names_len(data_names(data), n));
        assert(self.spec_data_start() == data_begin(data));
        let node = nodes[k];
        assert(node.name_offset < 0x100_0000);
        assert(names_len(self.spec_names(), k) as u32 == node.name_offset);
        if node.node_type == 0 {
            assert(self.spec_data_start() + files_len(self.u8_nodes@, k) <= u32::MAX);
        }
    }

    /// The bytes of the first `k` nodes as they are written are those that
    /// the nodes were read from.
    pub proof fn lemma_nodes_in_place(&self, data: Seq<u8>, k: int)
        requires
            self.u8_nodes@ == data_nodes(data),
            self.spec_names() == data_names(data),
            is_canonical_u8(data),
            0 <= k <= node_count(data, 0),
        ensures
            self.nodes_bytes(k) == data.subrange(
                U8_HEADER_LEN as int,
                U8_HEADER_LEN + U8_NODE_LEN * k,
            ),
        decreases k,
    {
        lemma_canonical_header(data);
        if k == 0 {
            assert(self.nodes_bytes(0) =~= data.subrange(32, 32));
        } else {
            self.lemma_nodes_in_place(data, k - 1);
            self.lemma_laid_out_same(data, k - 1);
            let at = U8_HEADER_LEN + U8_NODE_LEN * (k - 1);
            lemma_node_bytes(data, at);
            lemma_subrange_join(data, U8_HEADER_LEN as int, at, at + U8_NODE_LEN);
        }
    }

    /// The archive up to the end of its table of names, filled up to a
    /// 64-byte boundary, is the data up to the beginning of the file data.
    pub proof fn lemma_head_in_place(&self, data: Seq<u8>)
        requires
            self.reads_from(data, 0),
            is_canonical_u8(data),
        ensures
            self.spec_data_start() == data_begin(data),
            0 <= data_begin(data) <= data.len(),
            data_begin(data) % 64 == 0,
            self.spec_body(0) == data.subrange(0, data_begin(data)),
    {
        reveal(data_begin);
        let n = node_count(data, 0);
        self.lemma_same_nodes(data);
        lemma_canonical_header(data);
        assert(self.padding@ == data.subrange(16, 32));
        self.lemma_laid_out_same(data, 0);
        self.lemma_nodes_in_place(data, n);
        lemma_names_in_place(data, n);
        lemma_files_len_grows(data_nodes(data), 0, n);
        let header_size = U8_NODE_LEN * n + names_len(data_names(data), n);
        assert(self.spec_header_size() == header_size);
        lemma_align_up(header_size + U8_HEADER_LEN, 64);
        lemma_u32_bytes(data.subrange(4, 8));
        lemma_u32_bytes(data.subrange(8, 12));
        lemma_u32_bytes(data.subrange(12, 16));
        assert(u8_magic() =~= data.subrange(0, 4));
        let fixed = u8_magic() + u32_be(0x20) + u32_be(header_size as u32) + u32_be(
            data_begin(data) as u32,
        ) + self.padding@;
        lemma_subrange_join(data, 0, 4, 8);
        lemma_subrange_join(data, 0, 8, 12);
        lemma_subrange_join(data, 0, 12, 16);
        lemma_subrange_join(data, 0, 16, 32);
        assert(fixed == data.subrange(0, 32));
        lemma_subrange_join(data, 0, 32, 32 + U8_NODE_LEN * n);
        lemma_subrange_join(data, 0, 32 + U8_NODE_LEN * n, 32 + header_size);
        assert(self.spec_head() == data.subrange(0, 32 + header_size));
        assert forall|p: int| 32 + header_size <= p < align_up(32 + header_size, 64) implies data[p]
            == 0 by {
            lemma_canonical_head_padding(data, p);
        }
        lemma_padded_prefix(data, 0, 32 + header_size, 64);
        assert(data.subrange(0, 0) + data.subrange(0, 32 + header_size) =~= data.subrange(
            0,
            32 + header_size,
        ));
    }

    /// The archive up to the data of node `k` is the data up to there.
    pub proof fn lemma_body_in_place(&self, data: Seq<u8>, k: int)
        requires
            is_canonical_u8(data),
            0 <= data_begin(data),
            data_begin(data) % 64 == 0,
            self.spec_body(0) == data.subrange(0, data_begin(data)),
            self.file_data@.len() == node_count(data, 0),
            forall|j: int|
                0 <= j < node_count(data, 0) ==> (#[trigger] self.file_data@[j])@ == node_data(
                    data,
                    data_nodes(data)[j],
                ),
            0 <= k <= node_count(data, 0),
        ensures
            0 <= data_begin(data) + files_len(data_nodes(data), k) <= data.len(),
            self.spec_body(k) == data.subrange(
                0,
                data_begin(data) + files_len(data_nodes(data), k),
            ),
        decreases k,
    {
        if k > 0 {
            self.lemma_body_in_place(data, k - 1);
            let piece = self.file_data@[k - 1]@;
            assert(piece == node_data(data, data_nodes(data)[k - 1]));
            lemma_body_step(data, k - 1, self.spec_body(k - 1), piece);
        } else {
            lemma_canonical_header(data);
            lemma_files_len_grows(data_nodes(data), 0, node_count(data, 0));
        }
    }

    /// Reading an archive and writing it again gives the bytes that were
    /// read, where they are laid out as an archive is written.
    pub proof fn lemma_round_trip(&self, data: Seq<u8>)
        requires
            self.reads_from(data, 0),
            is_canonical_u8(data),
        ensures
            self.fits(),
            self.spec_to_bytes() == data,
    {
        let n = node_count(data, 0);
        lemma_canonical_header(data);
        self.lemma_same_nodes(data);
        self.lemma_head_in_place(data);
        self.lemma_body_in_place(data, n);
        assert(data.subrange(0, data.len() as int) == data);
        lemma_canonical_node(data, n - 1);
        lemma_node_bytes(data, U8_HEADER_LEN + U8_NODE_LEN * (n - 1));
    }
}

} // verus!
