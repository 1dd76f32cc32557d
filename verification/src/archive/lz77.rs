//! The console's LZ77 compression, of which the one type in use is 0x10.

use crate::codec::{be_u16, le_u24, read_le_u24_at, read_u16_at};
use vstd::prelude::*;

verus! {

#[derive(Debug, Clone, Copy, PartialEq, Eq, Structural)]
pub enum LZ77Error {
    /// The data names a compression type other than 0x10.
    InvalidCompressionType(u8),
    /// The data ends before the declared size is reached, or refers to bytes
    /// before the beginning of what it has given so far.
    IO,
}

/// The only compression type that the console uses.
pub const LZ77_TYPE: u8 = 0x10;

/// Where the header begins: after the letters `LZ77` where the data opens with
/// them, and else at the beginning.
pub open spec fn lz77_start(data: Seq<u8>) -> int
    recommends
        data.len() >= 4,
{
    if data[0] == 0x4c && data[1] == 0x5a && data[2] == 0x37 && data[3] == 0x37 {
        4
    } else {
        0
    }
}

/// The size that the header declares for the decompressed data.
pub open spec fn lz77_declared_size(data: Seq<u8>) -> int
    recommends
        data.len() >= lz77_start(data) + 4,
{
    le_u24(data.subrange(lz77_start(data) + 1, lz77_start(data) + 4)) as int
}

/// `out` after a back-reference: up to `n` bytes, each a copy of the byte
/// `dist` places before the end as it then is, and no byte beyond `size`.
/// Byte by byte, so that a reference may run into what it has itself written.
pub open spec fn lz77_copy(out: Seq<u8>, dist: int, n: int, size: int) -> Seq<u8>
    decreases n,
{
    if n <= 0 || out.len() >= size {
        out
    } else {
        lz77_copy(out.push(out[out.len() - dist]), dist, n - 1, size)
    }
}

/// The decompressed data, from a state of the decoder on: `ip` is the place
/// in `data`, `flag` the current flag byte and `mask` the bit of it that is
/// next, 0 where a new flag byte is due. A set bit stands for a
/// back-reference of two bytes, a clear bit for one byte as it is. `None`
/// where the data ends too early or refers to before the beginning.
pub open spec fn lz77_tokens(
    data: Seq<u8>,
    ip: int,
    flag: u8,
    mask: int,
    out: Seq<u8>,
    size: int,
) -> Option<Seq<u8>>
    decreases size - out.len(), (if mask <= 0 {
            1int
        } else {
            0int
        }),
{
    if out.len() >= size {
        Some(out)
    } else if mask <= 0 {
        if 0 <= ip < data.len() {
            lz77_tokens(data, ip + 1, data[ip], 0x80, out, size)
        } else {
            None
        }
    } else if (flag as int / mask) % 2 == 1 {
        if 0 <= ip && ip + 2 <= data.len() {
            let reference = be_u16(data.subrange(ip, ip + 2));
            let dist = reference % 0x1000 + 1;
            let n = 3 + reference / 0x1000;
            if dist > out.len() {
                None
            } else {
                proof {
                    lemma_copy_length(out, dist as int, n as int, size);
                }
                lz77_tokens(data, ip + 2, flag, mask / 2, lz77_copy(out, dist, n, size), size)
            }
        } else {
            None
        }
    } else {
        if 0 <= ip < data.len() {
            lz77_tokens(data, ip + 1, flag, mask / 2, out.push(data[ip]), size)
        } else {
            None
        }
    }
}

/// What decompressing `data` gives.
pub open spec fn lz77_result(data: Seq<u8>) -> Result<Seq<u8>, LZ77Error> {
    if data.len() < 4 {
        Err(LZ77Error::IO)
    } else if data.len() < lz77_start(data) + 1 {
        Err(LZ77Error::IO)
    } else if data[lz77_start(data)] != LZ77_TYPE {
        Err(LZ77Error::InvalidCompressionType(data[lz77_start(data)]))
    } else if data.len() < lz77_start(data) + 4 {
        Err(LZ77Error::IO)
    } else {
        match lz77_tokens(
            data,
            lz77_start(data) + 4,
            0,
            0,
            Seq::<u8>::empty(),
            lz77_declared_size(data),
        ) {
            Some(out) => Ok(out),
            None => Err(LZ77Error::IO),
        }
    }
}

/// A back-reference adds at least one byte where there is room, and none
/// beyond the size.
pub proof fn lemma_copy_length(out: Seq<u8>, dist: int, n: int, size: int)
    requires
        out.len() <= size,
    ensures
        out.len() <= lz77_copy(out, dist, n, size).len() <= size,
        n > 0 && out.len() < size ==> lz77_copy(out, dist, n, size).len() > out.len(),
    decreases n,
{
    if n > 0 && out.len() < size {
        lemma_copy_length(out.push(out[out.len() - dist]), dist, n - 1, size);
    }
}

/// Decompresses LZ77 data of type 0x10. The result is as long as the header
/// declares: the decoder stops in the middle of a flag byte or of a
/// back-reference where the size is reached.
pub fn decompress_lz77(data: &[u8]) -> (r: Result<Vec<u8>, LZ77Error>)
    ensures
        match lz77_result(data@) {
            Ok(out) => r is Ok && r->Ok_0@ == out,
            Err(e) => r == Err::<Vec<u8>, LZ77Error>(e),
        },
        r is Ok ==> r->Ok_0@.len() == lz77_declared_size(data@),
{
    if data.len() < 4 {
        return Err(LZ77Error::IO);
    }
    let start: usize = if data[0] == 0x4c && data[1] == 0x5a && data[2] == 0x37 && data[3] == 0x37 {
        4
    } else {
        0
    };
    if data.len() < start + 1 {
        return Err(LZ77Error::IO);
    }
    let compression_type = data[start];
    if compression_type != LZ77_TYPE {
        return Err(LZ77Error::InvalidCompressionType(compression_type));
    }
    if data.len() < start + 4 {
        return Err(LZ77Error::IO);
    }
    let size = read_le_u24_at(data, start + 1) as usize;
    let mut out: Vec<u8> = Vec::new();
    let mut ip: usize = start + 4;
    let mut flag: u8 = 0;
    let mut mask: u8 = 0;
    let ghost whole = lz77_tokens(data@, start + 4, 0, 0, Seq::<u8>::empty(), size as int);
    while out.len() < size
        invariant
            ip <= data.len(),
            out@.len() <= size,
            size < 0x100_0000,
            mask == 0 || mask == 1 || mask == 2 || mask == 4 || mask == 8 || mask == 16 || mask
                == 32 || mask == 64 || mask == 128,
            whole == lz77_tokens(data@, ip as int, flag, mask as int, out@, size as int),
            size == lz77_declared_size(data@),
            lz77_result(data@) == (match whole {
                Some(o) => Ok::<Seq<u8>, LZ77Error>(o),
                None => Err::<Seq<u8>, LZ77Error>(LZ77Error::IO),
            }),
        decreases size - out@.len(), (if mask == 0 {
                1int
            } else {
                0int
            }),
    {
        if mask == 0 {
            if ip >= data.len() {
                return Err(LZ77Error::IO);
            }
            flag = data[ip];
            ip += 1;
            mask = 0x80;
        } else if (flag / mask) % 2 == 1 {
            if data.len() - ip < 2 {
                return Err(LZ77Error::IO);
            }
            let reference = read_u16_at(data, ip);
            let dist = (reference % 0x1000) as usize + 1;
            let n = 3 + (reference / 0x1000) as usize;
            if dist > out.len() {
                return Err(LZ77Error::IO);
            }
            let ghost before = out@;
            let mut k: usize = 0;
            while k < n && out.len() < size
                invariant
                    k <= n,
                    0 < dist <= out@.len(),
                    before.len() <= out@.len() <= size,
                    lz77_copy(before, dist as int, n as int, size as int) == lz77_copy(
                        out@,
                        dist as int,
                        n - k,
                        size as int,
                    ),
                decreases n - k,
            {
                let byte = out[out.len() - dist];
                out.push(byte);
                k += 1;
            }
            proof {
                lemma_copy_length(before, dist as int, n as int, size as int);
            }
            ip += 2;
            mask = mask / 2;
        } else {
            if ip >= data.len() {
                return Err(LZ77Error::IO);
            }
            out.push(data[ip]);
            ip += 1;
            mask = mask / 2;
        }
    }
    Ok(out)
}

} // verus!
