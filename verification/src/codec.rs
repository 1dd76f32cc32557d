//! Fixed-width integers, byte runs and alignment as every format of the console
//! lays them out: integers most significant byte first unless a format says
//! otherwise, and regions padded with zero bytes up to a boundary.

use byteorder::{BigEndian, ByteOrder, LittleEndian};
use vstd::arithmetic::div_mod::lemma_fundamental_div_mod_converse;
use vstd::prelude::*;
use vstd::slice::{slice_subrange, slice_to_vec};

verus! {

/// The value of the first two bytes of `s`, most significant first.
pub open spec fn be_u16(s: Seq<u8>) -> u16
    recommends
        s.len() >= 2,
{
    (s[0] as int * 0x100 + s[1] as int) as u16
}

/// The value of the first three bytes of `s`, most significant first.
pub open spec fn be_u24(s: Seq<u8>) -> u32
    recommends
        s.len() >= 3,
{
    (s[0] as int * 0x1_0000 + s[1] as int * 0x100 + s[2] as int) as u32
}

/// The value of the first three bytes of `s`, least significant first.
pub open spec fn le_u24(s: Seq<u8>) -> u32
    recommends
        s.len() >= 3,
{
    (s[2] as int * 0x1_0000 + s[1] as int * 0x100 + s[0] as int) as u32
}

/// The value of the first four bytes of `s`, most significant first.
pub open spec fn be_u32(s: Seq<u8>) -> u32
    recommends
        s.len() >= 4,
{
    (s[0] as int * 0x100_0000 + s[1] as int * 0x1_0000 + s[2] as int * 0x100 + s[3] as int) as u32
}

/// The value of the first eight bytes of `s`, most significant first.
pub open spec fn be_u64(s: Seq<u8>) -> u64
    recommends
        s.len() >= 8,
{
    (be_u32(s) as int * 0x1_0000_0000 + be_u32(s.skip(4)) as int) as u64
}

/// The two bytes of `n`, most significant first.
pub open spec fn u16_be(n: u16) -> Seq<u8> {
    seq![(n / 0x100) as u8, (n % 0x100) as u8]
}

/// The three bytes of `n`, most significant first; `n` is below 2^24.
pub open spec fn u24_be(n: u32) -> Seq<u8>
    recommends
        n < 0x100_0000,
{
    seq![(n / 0x1_0000) as u8, (n / 0x100 % 0x100) as u8, (n % 0x100) as u8]
}

/// The four bytes of `n`, most significant first.
pub open spec fn u32_be(n: u32) -> Seq<u8> {
    seq![
        (n / 0x100_0000) as u8,
        (n / 0x1_0000 % 0x100) as u8,
        (n / 0x100 % 0x100) as u8,
        (n % 0x100) as u8,
    ]
}

/// The eight bytes of `n`, most significant first.
pub open spec fn u64_be(n: u64) -> Seq<u8> {
    u32_be((n / 0x1_0000_0000) as u32) + u32_be((n % 0x1_0000_0000) as u32)
}

/// `n` zero bytes.
pub open spec fn zeros(n: int) -> Seq<u8> {
    Seq::new(n as nat, |i: int| 0u8)
}

/// The array of `N` zero bytes.
pub open spec fn zeroed<const N: usize>() -> [u8; N] {
    vstd::array::spec_array_fill_for_copy_type::<u8, N>(0u8)
}

/// The least multiple of `a` that is not below `n`.
pub open spec fn align_up(n: int, a: int) -> int
    recommends
        n >= 0,
        a > 0,
{
    if n % a == 0 {
        n
    } else {
        n + a - n % a
    }
}

/// `s` followed by as many zero bytes as bring its length to a multiple of `a`.
pub open spec fn padded(s: Seq<u8>, a: int) -> Seq<u8>
    recommends
        a > 0,
{
    s + zeros(align_up(s.len() as int, a) - s.len())
}

/// The length of `s` without the zero bytes at its end.
pub open spec fn trimmed_len(s: Seq<u8>) -> int
    decreases s.len(),
{
    if s.len() == 0 {
        0
    } else if s.last() != 0 {
        s.len() as int
    } else {
        trimmed_len(s.drop_last())
    }
}

/// Whether `needle` stands in `hay` at position `at`.
pub open spec fn occurs_at(hay: Seq<u8>, needle: Seq<u8>, at: int) -> bool {
    0 <= at && at + needle.len() <= hay.len() && hay.subrange(at, at + needle.len()) == needle
}

/// Whether `needle` stands somewhere in `hay`.
pub open spec fn occurs_in(hay: Seq<u8>, needle: Seq<u8>) -> bool {
    exists|at: int| occurs_at(hay, needle, at)
}

/// `BigEndian::read_u16` of byteorder: the first two bytes of `buf`, most
/// significant first. The outside function panics on a shorter buffer.
#[verifier::external_body]
fn be_read_u16(buf: &[u8]) -> (n: u16)
    requires
        buf@.len() >= 2,
    ensures
        n == be_u16(buf@),
{
    BigEndian::read_u16(buf)
}

/// `BigEndian::read_u24` of byteorder: the first three bytes of `buf`, most
/// significant first. The outside function panics on a shorter buffer.
#[verifier::external_body]
fn be_read_u24(buf: &[u8]) -> (n: u32)
    requires
        buf@.len() >= 3,
    ensures
        n == be_u24(buf@),
{
    BigEndian::read_u24(buf)
}

/// `LittleEndian::read_u24` of byteorder: the first three bytes of `buf`, least
/// significant first. The outside function panics on a shorter buffer.
#[verifier::external_body]
fn le_read_u24(buf: &[u8]) -> (n: u32)
    requires
        buf@.len() >= 3,
    ensures
        n == le_u24(buf@),
{
    LittleEndian::read_u24(buf)
}

/// `BigEndian::read_u32` of byteorder: the first four bytes of `buf`, most
/// significant first. The outside function panics on a shorter buffer.
#[verifier::external_body]
fn be_read_u32(buf: &[u8]) -> (n: u32)
    requires
        buf@.len() >= 4,
    ensures
        n == be_u32(buf@),
{
    BigEndian::read_u32(buf)
}

/// `BigEndian::read_u64` of byteorder: the first eight bytes of `buf`, most
/// significant first. The outside function panics on a shorter buffer.
#[verifier::external_body]
fn be_read_u64(buf: &[u8]) -> (n: u64)
    requires
        buf@.len() >= 8,
    ensures
        n == be_u64(buf@),
{
    BigEndian::read_u64(buf)
}

/// `BigEndian::write_u16` of byteorder, on a buffer of two bytes: the bytes of
/// `n`, most significant first.
#[verifier::external_body]
fn be_write_u16(n: u16) -> (out: [u8; 2])
    ensures
        out@ == u16_be(n),
{
    let mut out = [0u8; 2];
    BigEndian::write_u16(&mut out, n);
    out
}

/// `BigEndian::write_u24` of byteorder, on a buffer of three bytes: the low
/// three bytes of `n`, most significant first. The outside function panics on a
/// value that three bytes cannot hold.
#[verifier::external_body]
fn be_write_u24(n: u32) -> (out: [u8; 3])
    requires
        n < 0x100_0000,
    ensures
        out@ == u24_be(n),
{
    let mut out = [0u8; 3];
    BigEndian::write_u24(&mut out, n);
    out
}

/// `BigEndian::write_u32` of byteorder, on a buffer of four bytes: the bytes of
/// `n`, most significant first.
#[verifier::external_body]
fn be_write_u32(n: u32) -> (out: [u8; 4])
    ensures
        out@ == u32_be(n),
{
    let mut out = [0u8; 4];
    BigEndian::write_u32(&mut out, n);
    out
}

/// `BigEndian::write_u64` of byteorder, on a buffer of eight bytes: the bytes of
/// `n`, most significant first.
#[verifier::external_body]
fn be_write_u64(n: u64) -> (out: [u8; 8])
    ensures
        out@ == u64_be(n),
{
    let mut out = [0u8; 8];
    BigEndian::write_u64(&mut out, n);
    out
}

/// Reads a big-endian `u16` at `pos`.
pub fn read_u16_at(data: &[u8], pos: usize) -> (n: u16)
    requires
        pos + 2 <= data.len(),
    ensures
        n == be_u16(data@.subrange(pos as int, pos + 2)),
{
    be_read_u16(slice_subrange(data, pos, pos + 2))
}

/// Reads a big-endian 24-bit integer at `pos`.
pub fn read_u24_at(data: &[u8], pos: usize) -> (n: u32)
    requires
        pos + 3 <= data.len(),
    ensures
        n == be_u24(data@.subrange(pos as int, pos + 3)),
        n < 0x100_0000,
{
    be_read_u24(slice_subrange(data, pos, pos + 3))
}

/// Reads a little-endian 24-bit integer at `pos`.
pub fn read_le_u24_at(data: &[u8], pos: usize) -> (n: u32)
    requires
        pos + 3 <= data.len(),
    ensures
        n == le_u24(data@.subrange(pos as int, pos + 3)),
        n < 0x100_0000,
{
    le_read_u24(slice_subrange(data, pos, pos + 3))
}

/// Reads a big-endian `u32` at `pos`.
pub fn read_u32_at(data: &[u8], pos: usize) -> (n: u32)
    requires
        pos + 4 <= data.len(),
    ensures
        n == be_u32(data@.subrange(pos as int, pos + 4)),
{
    be_read_u32(slice_subrange(data, pos, pos + 4))
}

/// Reads a big-endian `u64` at `pos`.
pub fn read_u64_at(data: &[u8], pos: usize) -> (n: u64)
    requires
        pos + 8 <= data.len(),
    ensures
        n == be_u64(data@.subrange(pos as int, pos + 8)),
{
    be_read_u64(slice_subrange(data, pos, pos + 8))
}

/// Copies the `N` bytes at `pos` into an array.
pub fn read_array<const N: usize>(data: &[u8], pos: usize) -> (out: [u8; N])
    requires
        pos + N <= data.len(),
    ensures
        out@ == data@.subrange(pos as int, pos + N),
{
    let mut out = [0u8; N];
    let mut i: usize = 0;
    while i < N
        invariant
            i <= N,
            pos + N <= data.len(),
            forall|k: int| 0 <= k < i ==> out@[k] == data@[pos + k],
        decreases N - i,
    {
        out[i] = data[pos + i];
        i += 1;
    }
    out
}

/// Copies the `len` bytes at `pos` into a vector.
pub fn read_vec(data: &[u8], pos: usize, len: usize) -> (out: Vec<u8>)
    requires
        pos + len <= data.len(),
    ensures
        out@ == data@.subrange(pos as int, pos + len),
{
    slice_to_vec(slice_subrange(data, pos, pos + len))
}

/// Appends `bytes` to `buf`.
pub fn put_bytes(buf: &mut Vec<u8>, bytes: &[u8])
    ensures
        final(buf)@ == old(buf)@ + bytes@,
{
    let n = bytes.len();
    let mut i: usize = 0;
    while i < n
        invariant
            i <= n,
            n == bytes.len(),
            buf@ == old(buf)@ + bytes@.subrange(0, i as int),
        decreases n - i,
    {
        buf.push(bytes[i]);
        i += 1;
    }
    assert(bytes@.subrange(0, n as int) == bytes@);
}

/// Appends `n`, most significant byte first.
pub fn put_u16(buf: &mut Vec<u8>, n: u16)
    ensures
        final(buf)@ == old(buf)@ + u16_be(n),
{
    let b = be_write_u16(n);
    put_bytes(buf, &b);
}

/// Appends the three bytes of `n`, most significant first.
pub fn put_u24(buf: &mut Vec<u8>, n: u32)
    requires
        n < 0x100_0000,
    ensures
        final(buf)@ == old(buf)@ + u24_be(n),
{
    let b = be_write_u24(n);
    put_bytes(buf, &b);
}

/// Appends `n`, most significant byte first.
pub fn put_u32(buf: &mut Vec<u8>, n: u32)
    ensures
        final(buf)@ == old(buf)@ + u32_be(n),
{
    let b = be_write_u32(n);
    put_bytes(buf, &b);
}

/// Appends `n`, most significant byte first.
pub fn put_u64(buf: &mut Vec<u8>, n: u64)
    ensures
        final(buf)@ == old(buf)@ + u64_be(n),
{
    let b = be_write_u64(n);
    put_bytes(buf, &b);
}

/// Rounds `n` up to a multiple of `a`.
pub fn align_up_u64(n: u64, a: u64) -> (r: u64)
    requires
        a > 0,
        n + a <= u64::MAX,
    ensures
        r == align_up(n as int, a as int),
        n <= r < n + a,
        r % a == 0,
{
    let rem = n % a;
    if rem == 0 {
        n
    } else {
        proof {
            lemma_align_up(n as int, a as int);
        }
        n + (a - rem)
    }
}

/// Rounds `n` up to a multiple of `a`, if 64 bits hold the result.
pub fn checked_align_up(n: u64, a: u64) -> (r: Option<u64>)
    requires
        a > 0,
    ensures
        r is Some <==> align_up(n as int, a as int) <= u64::MAX,
        r is Some ==> r->0 == align_up(n as int, a as int),
{
    let rem = n % a;
    if rem == 0 {
        Some(n)
    } else if n > u64::MAX - (a - rem) {
        None
    } else {
        Some(n + (a - rem))
    }
}

/// Appends zero bytes to `buf` until its length is a multiple of `a`.
pub fn pad_to(buf: &mut Vec<u8>, a: usize)
    requires
        a > 0,
    ensures
        final(buf)@ == padded(old(buf)@, a as int),
        final(buf)@.len() == align_up(old(buf)@.len() as int, a as int),
{
    let ghost start = buf@;
    proof {
        lemma_align_up(start.len() as int, a as int);
        assert(buf@ =~= start + zeros(0));
    }
    while buf.len() % a != 0
        invariant
            a > 0,
            start.len() <= buf.len() <= align_up(start.len() as int, a as int),
            buf@ == start + zeros(buf.len() - start.len()),
            align_up(start.len() as int, a as int) % (a as int) == 0,
            align_up(start.len() as int, a as int) < start.len() + a,
        decreases align_up(start.len() as int, a as int) - buf.len(),
    {
        proof {
            let t = align_up(start.len() as int, a as int);
            if buf.len() == t {
                assert(buf.len() % a == 0);
            }
        }
        let ghost before = buf@;
        buf.push(0u8);
        assert(buf@ =~= start + zeros(buf.len() - start.len()));
    }
    proof {
        let t = align_up(start.len() as int, a as int);
        lemma_multiple_in_window(start.len() as int, buf.len() as int, t, a as int);
    }
}

/// Two multiples of `a` less than `a` apart are the same number.
pub proof fn lemma_multiple_in_window(n: int, x: int, y: int, a: int)
    requires
        a > 0,
        n <= x <= y < n + a,
        x % a == 0,
        y % a == 0,
    ensures
        x == y,
{
    assert(x == a * (x / a) && y == a * (y / a)) by (nonlinear_arith)
        requires
            a > 0,
            x % a == 0,
            y % a == 0,
    ;
    let p = x / a;
    let q = y / a;
    if p < q {
        assert(a * q >= a * p + a) by (nonlinear_arith)
            requires
                a > 0,
                p < q,
        ;
    } else if p > q {
        assert(a * p >= a * q + a) by (nonlinear_arith)
            requires
                a > 0,
                p > q,
        ;
    }
}

/// Whether every byte of `data` is zero.
pub fn is_all_zero(data: &[u8]) -> (all: bool)
    ensures
        all == (data@ == zeros(data@.len() as int)),
{
    let n = data.len();
    let mut i: usize = 0;
    while i < n
        invariant
            i <= n,
            n == data.len(),
            forall|k: int| 0 <= k < i ==> data@[k] == 0,
        decreases n - i,
    {
        if data[i] != 0 {
            assert(zeros(data@.len() as int)[i as int] == 0);
            return false;
        }
        i += 1;
    }
    assert(data@ =~= zeros(data@.len() as int));
    true
}

/// The length of `data` without the zero bytes at its end.
pub fn trimmed_length(data: &[u8]) -> (len: usize)
    ensures
        len == trimmed_len(data@),
        len <= data.len(),
{
    let mut len = data.len();
    proof {
        assert(data@.subrange(0, len as int) == data@);
    }
    while len > 0 && data[len - 1] == 0
        invariant
            len <= data.len(),
            trimmed_len(data@) == trimmed_len(data@.subrange(0, len as int)),
        decreases len,
    {
        proof {
            let s = data@.subrange(0, len as int);
            assert(s.drop_last() == data@.subrange(0, len - 1));
        }
        len -= 1;
    }
    proof {
        let s = data@.subrange(0, len as int);
        if len > 0 {
            assert(s.last() == data@[len - 1]);
        }
    }
    len
}

/// Whether `needle` stands somewhere in `hay`.
pub fn contains_bytes(hay: &[u8], needle: &[u8]) -> (found: bool)
    ensures
        found == occurs_in(hay@, needle@),
{
    let h = hay.len();
    let n = needle.len();
    if n > h {
        assert(forall|at: int| !occurs_at(hay@, needle@, at));
        return false;
    }
    let mut at: usize = 0;
    while at <= h - n
        invariant
            n <= h,
            h == hay.len(),
            n == needle.len(),
            at <= h - n + 1,
            forall|k: int| 0 <= k < at ==> !occurs_at(hay@, needle@, k),
        decreases h - n + 1 - at,
    {
        let mut j: usize = 0;
        while j < n && hay[at + j] == needle[j]
            invariant
                j <= n,
                at + n <= h,
                h == hay.len(),
                n == needle.len(),
                forall|k: int| 0 <= k < j ==> hay@[at + k] == needle@[k],
            decreases n - j,
        {
            j += 1;
        }
        if j == n {
            assert(hay@.subrange(at as int, at + n) == needle@);
            assert(occurs_at(hay@, needle@, at as int));
            return true;
        }
        assert(hay@.subrange(at as int, at + n)[j as int] != needle@[j as int]);
        at += 1;
    }
    assert(forall|k: int| !occurs_at(hay@, needle@, k));
    false
}

/// `align_up` gives a multiple of `a` in the window of `a` values from `n` on.
pub proof fn lemma_align_up(n: int, a: int)
    requires
        n >= 0,
        a > 0,
    ensures
        n <= align_up(n, a) < n + a,
        align_up(n, a) % a == 0,
        n % a == 0 ==> align_up(n, a) == n,
{
    if n % a != 0 {
        let q = n / a;
        assert(n == a * q + n % a) by (nonlinear_arith)
            requires
                a > 0,
                q == n / a,
        ;
        assert(n + a - n % a == a * (q + 1)) by (nonlinear_arith)
            requires
                n == a * q + n % a,
        ;
        assert((a * (q + 1)) % a == 0) by (nonlinear_arith)
            requires
                a > 0,
        ;
    }
}

/// Two bytes read as a number and written back are the same two bytes.
pub proof fn lemma_u16_bytes(s: Seq<u8>)
    requires
        s.len() == 2,
    ensures
        u16_be(be_u16(s)) == s,
{
    assert(u16_be(be_u16(s)) =~= s);
}

/// A number written as two bytes and read back is the same number.
pub proof fn lemma_u16_value(n: u16)
    ensures
        be_u16(u16_be(n)) == n,
        u16_be(n).len() == 2,
{
}

/// Three bytes read as a number and written back are the same three bytes.
pub proof fn lemma_u24_bytes(s: Seq<u8>)
    requires
        s.len() == 3,
    ensures
        u24_be(be_u24(s)) == s,
        be_u24(s) < 0x100_0000,
{
    assert(u24_be(be_u24(s)) =~= s);
}

/// A number below 2^24 written as three bytes and read back is the same number.
pub proof fn lemma_u24_value(n: u32)
    requires
        n < 0x100_0000,
    ensures
        be_u24(u24_be(n)) == n,
        u24_be(n).len() == 3,
{
}

/// Four bytes read as a number and written back are the same four bytes.
pub proof fn lemma_u32_bytes(s: Seq<u8>)
    requires
        s.len() == 4,
    ensures
        u32_be(be_u32(s)) == s,
{
    let b0 = s[0] as int;
    let b1 = s[1] as int;
    let b2 = s[2] as int;
    let b3 = s[3] as int;
    let n = b0 * 0x100_0000 + b1 * 0x1_0000 + b2 * 0x100 + b3;
    assert(be_u32(s) as int == n);
    lemma_fundamental_div_mod_converse(n, 0x100_0000, b0, b1 * 0x1_0000 + b2 * 0x100 + b3);
    lemma_fundamental_div_mod_converse(n, 0x1_0000, b0 * 0x100 + b1, b2 * 0x100 + b3);
    lemma_fundamental_div_mod_converse(b0 * 0x100 + b1, 0x100, b0, b1);
    lemma_fundamental_div_mod_converse(n, 0x100, b0 * 0x1_0000 + b1 * 0x100 + b2, b3);
    lemma_fundamental_div_mod_converse(b0 * 0x1_0000 + b1 * 0x100 + b2, 0x100, b0 * 0x100 + b1, b2);
    assert(u32_be(be_u32(s)) =~= s);
}

/// A number written as four bytes and read back is the same number.
pub proof fn lemma_u32_value(n: u32)
    ensures
        be_u32(u32_be(n)) == n,
        u32_be(n).len() == 4,
{
}

/// Eight bytes read as a number and written back are the same eight bytes.
pub proof fn lemma_u64_bytes(s: Seq<u8>)
    requires
        s.len() == 8,
    ensures
        u64_be(be_u64(s)) == s,
{
    let hi = be_u32(s);
    let lo = be_u32(s.skip(4));
    lemma_u32_bytes(s.subrange(0, 4));
    lemma_u32_bytes(s.skip(4));
    assert(be_u32(s.subrange(0, 4)) == hi);
    assert(u64_be(be_u64(s)) =~= s.subrange(0, 4) + s.skip(4));
    assert(s.subrange(0, 4) + s.skip(4) =~= s);
}

/// A number written as eight bytes and read back is the same number.
pub proof fn lemma_u64_value(n: u64)
    ensures
        be_u64(u64_be(n)) == n,
        u64_be(n).len() == 8,
{
    let hi = (n / 0x1_0000_0000) as u32;
    let lo = (n % 0x1_0000_0000) as u32;
    lemma_u32_value(hi);
    lemma_u32_value(lo);
    assert(u64_be(n).skip(4) =~= u32_be(lo));
    assert(be_u32(u64_be(n)) == be_u32(u32_be(hi)));
}

/// A prefix of `data`, then a stretch that follows it, then the zero bytes
/// that `data` holds up to the next boundary, are a longer prefix of `data`.
pub proof fn lemma_padded_prefix(data: Seq<u8>, at: int, size: int, a: int)
    requires
        a > 0,
        0 <= at,
        0 <= size,
        align_up(at + size, a) <= data.len(),
        forall|p: int| at + size <= p < align_up(at + size, a) ==> data[p] == 0,
    ensures
        padded(data.subrange(0, at) + data.subrange(at, at + size), a) == data.subrange(
            0,
            align_up(at + size, a),
        ),
{
    lemma_align_up(at + size, a);
    assert(padded(data.subrange(0, at) + data.subrange(at, at + size), a) =~= data.subrange(
        0,
        align_up(at + size, a),
    ));
}

/// Counting up to a multiple of 16 and then to a multiple of 64 is counting up
/// to a multiple of 64.
pub proof fn lemma_align_16_64(n: int)
    requires
        n >= 0,
    ensures
        align_up(align_up(n, 16), 64) == align_up(n, 64),
        align_up(n, 16) <= align_up(n, 64),
{
    lemma_align_up(n, 16);
    lemma_align_up(n, 64);
    let m = align_up(n, 16);
    lemma_align_up(m, 64);
    assert(align_up(n, 64) % 16 == 0);
    assert(m <= align_up(n, 64)) by {
        if m > align_up(n, 64) {
            lemma_multiple_in_window(n, align_up(n, 64), m, 16);
        }
    }
    if align_up(m, 64) != align_up(n, 64) {
        if align_up(m, 64) < align_up(n, 64) {
            lemma_multiple_in_window(n, align_up(m, 64), align_up(n, 64), 64);
        } else {
            lemma_multiple_in_window(m, align_up(n, 64), align_up(m, 64), 64);
        }
    }
}

/// Two neighbouring stretches of a sequence join into one.
pub proof fn lemma_subrange_join(s: Seq<u8>, a: int, b: int, c: int)
    requires
        0 <= a <= b <= c <= s.len(),
    ensures
        s.subrange(a, b) + s.subrange(b, c) == s.subrange(a, c),
{
    assert(s.subrange(a, b) + s.subrange(b, c) =~= s.subrange(a, c));
}

} // verus!
