//! Little-endian file cursor. Addresses and lengths follow the superblock sizes.
use vstd::prelude::*;

use crate::error::{HDF5Error, Result};

verus! {

/// Value of two little-endian bytes.
pub open spec fn le16(b0: u8, b1: u8) -> int {
    b0 as int + 256 * (b1 as int)
}

/// Value of four little-endian bytes.
pub open spec fn le32(b0: u8, b1: u8, b2: u8, b3: u8) -> int {
    le16(b0, b1) + 65536 * le16(b2, b3)
}

/// Value of eight little-endian bytes.
pub open spec fn le64(b0: u8, b1: u8, b2: u8, b3: u8, b4: u8, b5: u8, b6: u8, b7: u8) -> int {
    le32(b0, b1, b2, b3) + 0x1_0000_0000 * le32(b4, b5, b6, b7)
}

/// Little-endian value of the `n` bytes of `d` at `p` (`n` is 1, 2, 4 or 8).
pub open spec fn le_at(d: Seq<u8>, p: int, n: int) -> int {
    if n == 1 {
        d[p] as int
    } else if n == 2 {
        le16(d[p], d[p + 1])
    } else if n == 4 {
        le32(d[p], d[p + 1], d[p + 2], d[p + 3])
    } else {
        le64(d[p], d[p + 1], d[p + 2], d[p + 3], d[p + 4], d[p + 5], d[p + 6], d[p + 7])
    }
}

/// Byte `i` (counting from the least significant) of `v`.
pub open spec fn byte_of(v: int, i: int) -> u8 {
    ((v / pow256(i)) % 256) as u8
}

/// `256` raised to `i` for the small exponents used here.
pub open spec fn pow256(i: int) -> int
    decreases i,
{
    if i <= 0 {
        1
    } else {
        256 * pow256(i - 1)
    }
}

/// The `n` little-endian bytes of `v`.
pub open spec fn le_bytes(v: int, n: int) -> Seq<u8> {
    Seq::new(n as nat, |i: int| byte_of(v, i))
}

/// A sized field: 1, 2, 4 or 8 bytes wide.
pub open spec fn field_width_ok(n: u8) -> bool {
    n == 1 || n == 2 || n == 4 || n == 8
}

/// Offsets and lengths are 4 or 8 bytes wide.
pub open spec fn size_ok(n: u8) -> bool {
    n == 4 || n == 8
}

/// Read `n` raw bytes at `p`; the new position follows them.
pub open spec fn rd_bytes(d: Seq<u8>, p: int, n: int) -> Result<(Seq<u8>, int)> {
    if 0 <= p && 0 <= n && p + n <= d.len() {
        Ok((d.subrange(p, p + n), p + n))
    } else {
        Err(HDF5Error::Truncated)
    }
}

/// Read a little-endian unsigned integer of `n` bytes (1, 2, 4 or 8) at `p`.
pub open spec fn rd_le(d: Seq<u8>, p: int, n: int) -> Result<(u64, int)> {
    if 0 <= p && p + n <= d.len() {
        Ok((le_at(d, p, n) as u64, p + n))
    } else {
        Err(HDF5Error::Truncated)
    }
}

/// Read a field whose width is given by a size byte of the format.
pub open spec fn rd_sized(d: Seq<u8>, p: int, nbytes: u8) -> Result<(u64, int)> {
    if field_width_ok(nbytes) {
        rd_le(d, p, nbytes as int)
    } else {
        Err(HDF5Error::InvalidHeader)
    }
}

/// The undefined address for the given offset size.
pub open spec fn undef_addr(offset_size: u8) -> u64 {
    if offset_size == 4 {
        0xFFFF_FFFFu64
    } else {
        0xFFFF_FFFF_FFFF_FFFFu64
    }
}

/// The `n` bytes at `addr`, as `Reader::slice_at` returns them.
pub open spec fn rd_slice(d: Seq<u8>, addr: u64, n: u64) -> Result<Seq<u8>> {
    if addr as int + n as int <= d.len() {
        Ok(d.subrange(addr as int, addr + n))
    } else {
        Err(HDF5Error::Truncated)
    }
}

/// Round `n` up to a multiple of 8, wrapping as `n.wrapping_add(7) & !7` does.
pub open spec fn spec_align8(n: u64) -> u64 {
    if n as int + 7 <= u64::MAX {
        (((n as int + 7) / 8) * 8) as u64
    } else {
        (((n as int + 7 - 0x1_0000_0000_0000_0000int) / 8) * 8) as u64
    }
}

/// Abstract state of a [`Reader`].
pub struct ReaderView {
    /// The bytes being read.
    pub data: Seq<u8>,
    /// Current position.
    pub pos: int,
    /// Width of addresses.
    pub offset_size: u8,
    /// Width of lengths.
    pub length_size: u8,
}

impl ReaderView {
    /// Position within the data, sizes of 4 or 8 bytes.
    pub open spec fn inv(self) -> bool {
        &&& 0 <= self.pos <= self.data.len()
        &&& size_ok(self.offset_size)
        &&& size_ok(self.length_size)
    }

    /// Same data and sizes, another position.
    pub open spec fn moved(self, other: ReaderView, pos: int) -> bool {
        &&& other.data == self.data
        &&& other.offset_size == self.offset_size
        &&& other.length_size == self.length_size
        &&& other.pos == pos
    }
}

/// Read cursor over a borrowed file image.
#[derive(Clone, Copy)]
pub struct Reader<'a> {
    data: &'a [u8],
    pos: usize,
    offset_size: u8,
    length_size: u8,
}

impl<'a> View for Reader<'a> {
    type V = ReaderView;

    closed spec fn view(&self) -> ReaderView {
        ReaderView {
            data: self.data@,
            pos: self.pos as int,
            offset_size: self.offset_size,
            length_size: self.length_size,
        }
    }
}

impl<'a> Reader<'a> {
    /// Cursor at position 0. Offset and length sizes must be 4 or 8.
    pub fn new(data: &'a [u8], offset_size: u8, length_size: u8) -> (res: Result<Self>)
        ensures
            !size_ok(offset_size) ==> res == Err::<Self, HDF5Error>(
                HDF5Error::UnsupportedVersion(offset_size),
            ),
            size_ok(offset_size) && !size_ok(length_size) ==> res == Err::<Self, HDF5Error>(
                HDF5Error::UnsupportedVersion(length_size),
            ),
            size_ok(offset_size) && size_ok(length_size) ==> res is Ok,
            res matches Ok(r) ==> r@.inv() && r@.data == data@ && r@.pos == 0
                && r@.offset_size == offset_size && r@.length_size == length_size,
    {
        if offset_size != 4 && offset_size != 8 {
            return Err(HDF5Error::UnsupportedVersion(offset_size));
        }
        if length_size != 4 && length_size != 8 {
            return Err(HDF5Error::UnsupportedVersion(length_size));
        }
        Ok(Reader { data, pos: 0, offset_size, length_size })
    }

    /// The same cursor moved to absolute position `pos`.
    pub fn at(self, pos: u64) -> (res: Result<Self>)
        requires
            self@.inv(),
        ensures
            pos > self@.data.len() ==> res == Err::<Self, HDF5Error>(HDF5Error::Truncated),
            pos <= self@.data.len() ==> (res matches Ok(r) && self@.moved(r@, pos as int)),
    {
        if pos > self.data.len() as u64 {
            return Err(HDF5Error::Truncated);
        }
        Ok(Reader { pos: pos as usize, ..self })
    }

    /// Current position.
    pub fn pos(&self) -> (p: usize)
        ensures
            p == self@.pos,
    {
        self.pos
    }

    /// Bytes left after the current position.
    pub fn remaining(&self) -> (n: usize)
        requires
            self@.inv(),
        ensures
            n == self@.data.len() - self@.pos,
    {
        self.data.len() - self.pos
    }

    /// Read one byte.
    pub fn u8(&mut self) -> (res: Result<u8>)
        requires
            old(self)@.inv(),
        ensures
            final(self)@.inv(),
            match rd_le(old(self)@.data, old(self)@.pos, 1) {
                Ok((v, p)) => res == Ok::<u8, HDF5Error>(v as u8) && old(self)@.moved(final(self)@, p),
                Err(e) => res == Err::<u8, HDF5Error>(e) && final(self)@ == old(self)@,
            },
    {
        if self.pos >= self.data.len() {
            return Err(HDF5Error::Truncated);
        }
        let v = self.data[self.pos];
        self.pos = self.pos + 1;
        Ok(v)
    }

    /// Read a little-endian `u16`.
    pub fn u16(&mut self) -> (res: Result<u16>)
        requires
            old(self)@.inv(),
        ensures
            final(self)@.inv(),
            match rd_le(old(self)@.data, old(self)@.pos, 2) {
                Ok((v, p)) => res == Ok::<u16, HDF5Error>(v as u16) && old(self)@.moved(final(self)@, p),
                Err(e) => res == Err::<u16, HDF5Error>(e) && final(self)@ == old(self)@,
            },
    {
        if self.data.len() - self.pos < 2 {
            return Err(HDF5Error::Truncated);
        }
        let b0 = self.data[self.pos];
        let b1 = self.data[self.pos + 1];
        self.pos = self.pos + 2;
        Ok(b0 as u16 + 256 * (b1 as u16))
    }

    /// Read a little-endian `u32`.
    pub fn u32(&mut self) -> (res: Result<u32>)
        requires
            old(self)@.inv(),
        ensures
            final(self)@.inv(),
            match rd_le(old(self)@.data, old(self)@.pos, 4) {
                Ok((v, p)) => res == Ok::<u32, HDF5Error>(v as u32) && old(self)@.moved(final(self)@, p),
                Err(e) => res == Err::<u32, HDF5Error>(e) && final(self)@ == old(self)@,
            },
    {
        if self.data.len() - self.pos < 4 {
            return Err(HDF5Error::Truncated);
        }
        let p = self.pos;
        let b0 = self.data[p] as u32;
        let b1 = self.data[p + 1] as u32;
        let b2 = self.data[p + 2] as u32;
        let b3 = self.data[p + 3] as u32;
        self.pos = p + 4;
        Ok(b0 + 256 * b1 + 65536 * (b2 + 256 * b3))
    }

    /// Read a little-endian `u64`.
    pub fn u64(&mut self) -> (res: Result<u64>)
        requires
            old(self)@.inv(),
        ensures
            final(self)@.inv(),
            match rd_le(old(self)@.data, old(self)@.pos, 8) {
                Ok((v, p)) => res == Ok::<u64, HDF5Error>(v) && old(self)@.moved(final(self)@, p),
                Err(e) => res == Err::<u64, HDF5Error>(e) && final(self)@ == old(self)@,
            },
    {
        if self.data.len() - self.pos < 8 {
            return Err(HDF5Error::Truncated);
        }
        let p = self.pos;
        let b0 = self.data[p] as u64;
        let b1 = self.data[p + 1] as u64;
        let b2 = self.data[p + 2] as u64;
        let b3 = self.data[p + 3] as u64;
        let b4 = self.data[p + 4] as u64;
        let b5 = self.data[p + 5] as u64;
        let b6 = self.data[p + 6] as u64;
        let b7 = self.data[p + 7] as u64;
        self.pos = p + 8;
        let lo = b0 + 256 * b1 + 65536 * (b2 + 256 * b3);
        let hi = b4 + 256 * b5 + 65536 * (b6 + 256 * b7);
        Ok(lo + 0x1_0000_0000 * hi)
    }

    /// Read `n` raw bytes.
    pub fn bytes(&mut self, n: usize) -> (res: Result<&'a [u8]>)
        requires
            old(self)@.inv(),
        ensures
            final(self)@.inv(),
            match rd_bytes(old(self)@.data, old(self)@.pos, n as int) {
                Ok((s, p)) => res matches Ok(b) && b@ == s && old(self)@.moved(final(self)@, p),
                Err(e) => res == Err::<&'a [u8], HDF5Error>(e) && final(self)@ == old(self)@,
            },
    {
        if n > self.data.len() - self.pos {
            return Err(HDF5Error::Truncated);
        }
        let end = self.pos + n;
        let s = &self.data[self.pos..end];
        self.pos = end;
        Ok(s)
    }

    /// Skip `n` bytes.
    pub fn skip(&mut self, n: usize) -> (res: Result<()>)
        requires
            old(self)@.inv(),
        ensures
            final(self)@.inv(),
            match rd_bytes(old(self)@.data, old(self)@.pos, n as int) {
                Ok((_, p)) => res is Ok && old(self)@.moved(final(self)@, p),
                Err(e) => res == Err::<(), HDF5Error>(e) && final(self)@ == old(self)@,
            },
    {
        let _ = self.bytes(n)?;
        Ok(())
    }

    /// Read an unsigned field of 1, 2, 4 or 8 bytes.
    pub fn sized_uint(&mut self, nbytes: u8) -> (res: Result<u64>)
        requires
            old(self)@.inv(),
        ensures
            final(self)@.inv(),
            match rd_sized(old(self)@.data, old(self)@.pos, nbytes) {
                Ok((v, p)) => res == Ok::<u64, HDF5Error>(v) && old(self)@.moved(final(self)@, p),
                Err(e) => res == Err::<u64, HDF5Error>(e) && final(self)@ == old(self)@,
            },
    {
        match nbytes {
            1 => {
                let v = self.u8()?;
                Ok(v as u64)
            },
            2 => {
                let v = self.u16()?;
                Ok(v as u64)
            },
            4 => {
                let v = self.u32()?;
                Ok(v as u64)
            },
            8 => self.u64(),
            _ => Err(HDF5Error::InvalidHeader),
        }
    }

    /// Read an address of the cursor's offset size.
    pub fn addr(&mut self) -> (res: Result<u64>)
        requires
            old(self)@.inv(),
        ensures
            final(self)@.inv(),
            match rd_le(old(self)@.data, old(self)@.pos, old(self)@.offset_size as int) {
                Ok((v, p)) => res == Ok::<u64, HDF5Error>(v) && old(self)@.moved(final(self)@, p),
                Err(e) => res == Err::<u64, HDF5Error>(e) && final(self)@ == old(self)@,
            },
    {
        self.sized_uint(self.offset_size)
    }

    /// Read a length of the cursor's length size.
    pub fn length(&mut self) -> (res: Result<u64>)
        requires
            old(self)@.inv(),
        ensures
            final(self)@.inv(),
            match rd_le(old(self)@.data, old(self)@.pos, old(self)@.length_size as int) {
                Ok((v, p)) => res == Ok::<u64, HDF5Error>(v) && old(self)@.moved(final(self)@, p),
                Err(e) => res == Err::<u64, HDF5Error>(e) && final(self)@ == old(self)@,
            },
    {
        self.sized_uint(self.length_size)
    }

    /// Whether `addr` is the undefined address for this cursor's offset size.
    pub fn is_undef(self, addr: u64) -> (b: bool)
        ensures
            b == (addr == undef_addr(self@.offset_size)),
    {
        match self.offset_size {
            4 => addr == 0xFFFF_FFFFu64,
            _ => addr == 0xFFFF_FFFF_FFFF_FFFFu64,
        }
    }

    /// The `n` bytes at absolute address `addr`.
    pub fn slice_at(&self, addr: u64, n: u64) -> (res: Result<&'a [u8]>)
        ensures
            match rd_slice(self@.data, addr, n) {
                Ok(s) => res matches Ok(b) && b@ == s,
                Err(e) => res == Err::<&'a [u8], HDF5Error>(e),
            },
    {
        let len = self.data.len() as u64;
        if addr > len || n > len - addr {
            return Err(HDF5Error::Truncated);
        }
        let start = addr as usize;
        let end = start + n as usize;
        Ok(&self.data[start..end])
    }
}

/// Append the two little-endian bytes of `v`.
pub fn push_u16(buf: &mut Vec<u8>, v: u16)
    ensures
        final(buf)@ == old(buf)@ + le_bytes(v as int, 2),
{
    buf.push((v % 256) as u8);
    buf.push((v / 256) as u8);
    proof {
        assert(pow256(1) == 256) by { reveal_with_fuel(pow256, 2); }
    }
    assert(buf@ =~= old(buf)@ + le_bytes(v as int, 2));
}

/// Append the four little-endian bytes of `v`.
pub fn push_u32(buf: &mut Vec<u8>, v: u32)
    ensures
        final(buf)@ == old(buf)@ + le_bytes(v as int, 4),
{
    buf.push((v % 256) as u8);
    buf.push(((v / 256) % 256) as u8);
    buf.push(((v / 65536) % 256) as u8);
    buf.push((v / 16777216) as u8);
    proof {
        reveal_with_fuel(pow256, 4);
        assert(v / 16777216 < 256);
    }
    assert(buf@ =~= old(buf)@ + le_bytes(v as int, 4));
}

/// Append the eight little-endian bytes of `v`.
pub fn push_u64(buf: &mut Vec<u8>, v: u64)
    ensures
        final(buf)@ == old(buf)@ + le_bytes(v as int, 8),
{
    buf.push((v % 256) as u8);
    buf.push(((v / 0x100) % 256) as u8);
    buf.push(((v / 0x1_0000) % 256) as u8);
    buf.push(((v / 0x100_0000) % 256) as u8);
    buf.push(((v / 0x1_0000_0000) % 256) as u8);
    buf.push(((v / 0x100_0000_0000) % 256) as u8);
    buf.push(((v / 0x1_0000_0000_0000) % 256) as u8);
    buf.push((v / 0x100_0000_0000_0000) as u8);
    proof {
        reveal_with_fuel(pow256, 8);
        assert(v / 0x100_0000_0000_0000 < 256);
    }
    assert(buf@ =~= old(buf)@ + le_bytes(v as int, 8));
}

/// Round up to a multiple of 8 (wrapping at `u64::MAX`).
pub fn align8(n: u64) -> (r: u64)
    ensures
        r == spec_align8(n),
{
    let r = n.wrapping_add(7) & !7u64;
    proof {
        let w = n.wrapping_add(7);
        assert(w & !7u64 == w - w % 8) by (bit_vector);
        if n as int + 7 <= u64::MAX {
            assert(w == n + 7);
        } else {
            assert(w == n + 7 - 0x1_0000_0000_0000_0000int);
        }
    }
    r
}

/// The little-endian bytes of `v` read back give `v`.
pub proof fn lemma_le_bytes_roundtrip(v: u64, n: int)
    requires
        n == 1 || n == 2 || n == 4 || n == 8,
        v < pow256(n),
    ensures
        le_bytes(v as int, n).len() == n,
        le_at(le_bytes(v as int, n), 0, n) == v,
{
    reveal_with_fuel(pow256, 9);
    let s = le_bytes(v as int, n);
    assert(pow256(0) == 1);
    assert(v as int / 1 == v);
    if n == 1 {
        assert(s[0] == v % 256);
    } else if n == 2 {
        assert(s[0] == v % 256);
        assert(s[1] == (v / 256) % 256);
        assert(v == v % 256 + 256 * ((v / 256) % 256)) by (nonlinear_arith)
            requires v < 65536;
    } else if n == 4 {
        let x = v as u32;
        assert(s[0] == x % 256);
        assert(s[1] == (x / 256) % 256);
        assert(s[2] == (x / 65536) % 256);
        assert(s[3] == (x / 16777216) % 256);
        assert(x == x % 256 + 256 * ((x / 256) % 256) + 65536 * ((x / 65536) % 256 + 256 * ((x / 16777216) % 256))) by (bit_vector);
    } else {
        assert(s[0] == v % 256);
        assert(s[1] == (v / 0x100) % 256);
        assert(s[2] == (v / 0x1_0000) % 256);
        assert(s[3] == (v / 0x100_0000) % 256);
        assert(s[4] == (v / 0x1_0000_0000) % 256);
        assert(s[5] == (v / 0x100_0000_0000) % 256);
        assert(s[6] == (v / 0x1_0000_0000_0000) % 256);
        assert(s[7] == (v / 0x100_0000_0000_0000) % 256);
        assert(v == v % 256 + 256 * ((v / 0x100) % 256) + 0x1_0000 * ((v / 0x1_0000) % 256 + 256 * ((v / 0x100_0000) % 256))
            + 0x1_0000_0000 * ((v / 0x1_0000_0000) % 256 + 256 * ((v / 0x100_0000_0000) % 256) + 0x1_0000 * ((v / 0x1_0000_0000_0000) % 256 + 256 * ((v / 0x100_0000_0000_0000) % 256)))) by (bit_vector);
    }
}

} // verus!
