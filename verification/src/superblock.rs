//! Superblock v0/v1/v2/v3 locate and parse; v2 encode.
use vstd::prelude::*;

use crate::buf::{
    le_at, le_bytes, lemma_le_bytes_roundtrip, pow256, push_u32, push_u64, rd_bytes, rd_le, size_ok, Reader,
};
use crate::checksum::{lookup3, spec_lookup3};
use crate::consts::{
    HDF5_LENGTH_SIZE, HDF5_OFFSET_SIZE, HDF5_SIGNATURE, HDF5_SUPERBLOCK_SEARCH_START,
    HDF5_SUPERBLOCK_V2, HDF5_SUPERBLOCK_V2_SIZE, HDF5_UNDEF_ADDR_8,
};
use crate::error::{HDF5Error, Result};
use crate::messages::extend_bytes;
use vstd::array::ArrayAdditionalExecFns;

verus! {

/// What the rest of the reader needs from the superblock.
#[derive(Clone, Copy, PartialEq, Eq, Structural)]
pub struct Superblock {
    /// Width of addresses.
    pub offset_size: u8,
    /// Width of lengths.
    pub length_size: u8,
    /// Address of the root group's object header.
    pub root_ohdr: u64,
    /// Root group B-tree (version 0/1 with a cached symbol table).
    pub root_btree: Option<u64>,
    /// Root group local heap (version 0/1 with a cached symbol table).
    pub root_heap: Option<u64>,
}

/// Whether the 8 bytes of `d` at `off` are the HDF5 signature.
pub open spec fn sig_at(d: Seq<u8>, off: int) -> bool {
    0 <= off && off + 8 <= d.len() && d.subrange(off, off + 8) == HDF5_SIGNATURE@
}

/// Search for the signature at `off`, `2 * off`, `4 * off`, ... while 8 bytes fit.
pub open spec fn spec_sig_search(d: Seq<u8>, off: nat) -> Result<u64>
    decreases u64::MAX - off,
{
    if off == 0 || off + 8 > d.len() || off > u64::MAX {
        Err(HDF5Error::InvalidSignature)
    } else if sig_at(d, off as int) {
        Ok(off as u64)
    } else if off * 2 > u64::MAX {
        Err(HDF5Error::InvalidSignature)
    } else {
        spec_sig_search(d, off * 2)
    }
}

/// The superblock is at 0, or at 512, 1024, 2048, ...: the first place that
/// holds the signature.
pub open spec fn spec_find_signature(d: Seq<u8>) -> Result<u64> {
    if sig_at(d, 0) {
        Ok(0)
    } else {
        spec_sig_search(d, HDF5_SUPERBLOCK_SEARCH_START as nat)
    }
}

fn sig8_at(data: &[u8], start: usize) -> (b: bool)
    requires
        start + 8 <= data@.len(),
    ensures
        b == sig_at(data@, start as int),
{
    let sig = HDF5_SIGNATURE;
    let n = data.len();
    let mut i: usize = 0;
    while i < 8
        invariant
            i <= 8,
            n == data@.len(),
            start + 8 <= data@.len(),
            sig@ == HDF5_SIGNATURE@,
            forall|j: int| 0 <= j < i ==> data@[start + j] == sig@[j],
        decreases 8 - i,
    {
        if data[start + i] != sig[i] {
            assert(data@.subrange(start as int, start + 8)[i as int] != HDF5_SIGNATURE@[i as int]);
            return false;
        }
        i = i + 1;
    }
    assert(data@.subrange(start as int, start + 8) =~= HDF5_SIGNATURE@);
    true
}

/// Offset of the superblock signature.
pub fn find_signature(data: &[u8]) -> (res: Result<u64>)
    ensures
        res == spec_find_signature(data@),
        res matches Ok(o) ==> sig_at(data@, o as int),
{
    if data.len() >= 8 && sig8_at(data, 0) {
        return Ok(0);
    }
    let mut off: u64 = HDF5_SUPERBLOCK_SEARCH_START;
    loop
        invariant
            off > 0,
            spec_find_signature(data@) == spec_sig_search(data@, off as nat),
        decreases u64::MAX - off,
    {
        if off > data.len() as u64 || data.len() - (off as usize) < 8 {
            return Err(HDF5Error::InvalidSignature);
        }
        let start = off as usize;
        if sig8_at(data, start) {
            return Ok(off);
        }
        if off > u64::MAX / 2 {
            return Err(HDF5Error::InvalidSignature);
        }
        off = off * 2;
    }
}

/// Fields of a version 2 or 3 superblock at `off`: sizes, flags, base,
/// extension, end-of-file and root addresses, then the lookup3 checksum of
/// everything before it.
pub open spec fn spec_parse_v2(d: Seq<u8>, off: u64) -> Result<Superblock> {
    if off as int + 11 > d.len() {
        Err(HDF5Error::Truncated)
    } else {
        let osize = d[off + 9];
        let lsize = d[off + 10];
        if !size_ok(osize) {
            Err(HDF5Error::UnsupportedVersion(osize))
        } else if !size_ok(lsize) {
            Err(HDF5Error::UnsupportedVersion(lsize))
        } else {
            match rd_bytes(d, off + 12, 3 * osize) {
                Err(e) => Err(e),
                Ok((_, p)) => match rd_le(d, p, osize as int) {
                    Err(e) => Err(e),
                    Ok((root, p)) => match rd_le(d, p, 4) {
                        Err(e) => Err(e),
                        Ok((stored, p)) => if spec_lookup3(d.subrange(off as int, p - 4), 0) != stored as u32 {
                            Err(HDF5Error::InvalidHeader)
                        } else {
                            Ok(
                                Superblock {
                                    offset_size: osize,
                                    length_size: lsize,
                                    root_ohdr: root,
                                    root_btree: None,
                                    root_heap: None,
                                },
                            )
                        },
                    },
                },
            }
        }
    }
}

fn parse_v2(data: &[u8], off: u64) -> (res: Result<Superblock>)
    requires
        off <= data@.len(),
    ensures
        res == spec_parse_v2(data@, off),
{
    let mut peek = Reader::new(data, 8, 8)?.at(off)?;
    let _ = peek.bytes(8)?;
    let _ver = peek.u8()?;
    let offset_size = peek.u8()?;
    let length_size = peek.u8()?;
    let mut r = Reader::new(data, offset_size, length_size)?.at(off)?;
    r.bytes(8)?;
    r.u8()?;
    r.u8()?;
    r.u8()?;
    let _flags = r.u8()?;
    let _base = r.addr()?;
    let _ext = r.addr()?;
    let _eof = r.addr()?;
    let root_ohdr = r.addr()?;
    let stored = r.u32()?;
    let start = off as usize;
    let hashed_end = r.pos() - 4;
    if lookup3(&data[start..hashed_end], 0) != stored {
        return Err(HDF5Error::InvalidHeader);
    }
    Ok(Superblock { offset_size, length_size, root_ohdr, root_btree: None, root_heap: None })
}


/// Fields of a version 0 or 1 superblock at `off`: sizes at bytes 13 and 14;
/// after the fixed part (4 bytes longer in version 1) the base, free-space,
/// end-of-file and driver addresses, then the root symbol-table entry (name
/// offset, object header, cache type, reserved, 16-byte scratch holding the
/// B-tree and heap addresses when the cache type is 1).
pub open spec fn spec_parse_v01(d: Seq<u8>, off: u64, version: u8) -> Result<Superblock> {
    if off as int + 15 > d.len() {
        Err(HDF5Error::Truncated)
    } else {
        let osize = d[off + 13];
        let lsize = d[off + 14];
        if !size_ok(osize) {
            Err(HDF5Error::UnsupportedVersion(osize))
        } else if !size_ok(lsize) {
            Err(HDF5Error::UnsupportedVersion(lsize))
        } else {
            match rd_bytes(d, off + 15, if version == 1 { 13 } else { 9 }) {
                Err(e) => Err(e),
                Ok((_, p)) => match rd_bytes(d, p, 5 * osize) {
                    Err(e) => Err(e),
                    Ok((_, p)) => match rd_le(d, p, osize as int) {
                        Err(e) => Err(e),
                        Ok((root, p)) => match rd_le(d, p, 4) {
                            Err(e) => Err(e),
                            Ok((cache, p)) => match rd_le(d, p, 4) {
                                Err(e) => Err(e),
                                Ok((_, p)) => if cache == 1 {
                                    match rd_le(d, p, osize as int) {
                                        Err(e) => Err(e),
                                        Ok((bt, p)) => match rd_le(d, p, osize as int) {
                                            Err(e) => Err(e),
                                            Ok((hp, _)) => Ok(
                                                Superblock {
                                                    offset_size: osize,
                                                    length_size: lsize,
                                                    root_ohdr: root,
                                                    root_btree: Some(bt),
                                                    root_heap: Some(hp),
                                                },
                                            ),
                                        },
                                    }
                                } else {
                                    match rd_bytes(d, p, 16) {
                                        Err(e) => Err(e),
                                        Ok(_) => Ok(
                                            Superblock {
                                                offset_size: osize,
                                                length_size: lsize,
                                                root_ohdr: root,
                                                root_btree: None,
                                                root_heap: None,
                                            },
                                        ),
                                    }
                                },
                            },
                        },
                    },
                },
            }
        }
    }
}

#[verifier::rlimit(50)]
fn parse_v01(data: &[u8], off: u64, version: u8) -> (res: Result<Superblock>)
    requires
        off <= data@.len(),
    ensures
        res == spec_parse_v01(data@, off, version),
{
    let mut peek = Reader::new(data, 8, 8)?.at(off)?;
    peek.bytes(8)?;
    peek.u8()?;
    peek.u8()?;
    peek.u8()?;
    peek.u8()?;
    peek.u8()?;
    let offset_size = peek.u8()?;
    let length_size = peek.u8()?;
    let mut r = Reader::new(data, offset_size, length_size)?.at(off)?;
    r.bytes(8)?;
    r.u8()?;
    r.u8()?;
    r.u8()?;
    r.u8()?;
    r.u8()?;
    r.u8()?;
    r.u8()?;
    r.u8()?;
    let _leaf_k = r.u16()?;
    let _int_k = r.u16()?;
    let _flags = r.u32()?;
    if version == 1 {
        let _ = r.u16()?;
        let _ = r.u16()?;
    }
    let _base = r.addr()?;
    let _free = r.addr()?;
    let _eof = r.addr()?;
    let _driver = r.addr()?;
    let _name_off = r.addr()?;
    let root_ohdr = r.addr()?;
    let cache_type = r.u32()?;
    r.u32()?;
    let mut root_btree = None;
    let mut root_heap = None;
    if cache_type == 1 {
        root_btree = Some(r.addr()?);
        root_heap = Some(r.addr()?);
    } else {
        r.skip(16)?;
    }
    Ok(Superblock { offset_size, length_size, root_ohdr, root_btree, root_heap })
}

/// The superblock of a file image: found by [`spec_find_signature`], version
/// in the byte after the signature; versions 0 and 1, and 2 and 3, share layouts.
pub open spec fn spec_parse_superblock(d: Seq<u8>) -> Result<Superblock> {
    match spec_find_signature(d) {
        Err(e) => Err(e),
        Ok(off) => if off as int + 9 > d.len() {
            Err(HDF5Error::Truncated)
        } else {
            let v = d[off + 8];
            if v == 0 || v == 1 {
                spec_parse_v01(d, off, v)
            } else if v == 2 || v == 3 {
                spec_parse_v2(d, off)
            } else {
                Err(HDF5Error::UnsupportedVersion(v))
            }
        },
    }
}

/// Locate and parse the superblock.
pub fn parse(data: &[u8]) -> (res: Result<Superblock>)
    ensures
        res == spec_parse_superblock(data@),
{
    let off = find_signature(data)?;
    let mut r = Reader::new(data, 8, 8)?.at(off)?;
    let _sig = r.bytes(8)?;
    let version = r.u8()?;
    match version {
        0 | 1 => parse_v01(data, off, version),
        2 | 3 => parse_v2(data, off),
        v => Err(HDF5Error::UnsupportedVersion(v)),
    }
}

/// Superblock version 2 with 8-byte offsets and lengths, base address 0, no
/// extension, the given end-of-file and root addresses (without checksum).
pub open spec fn spec_superblock_v2_body(root_ohdr: u64, eof: u64) -> Seq<u8> {
    HDF5_SIGNATURE@ + seq![HDF5_SUPERBLOCK_V2, HDF5_OFFSET_SIZE, HDF5_LENGTH_SIZE, 0u8] + le_bytes(0, 8)
        + le_bytes(HDF5_UNDEF_ADDR_8 as int, 8) + le_bytes(eof as int, 8) + le_bytes(root_ohdr as int, 8)
}

/// Superblock version 2 followed by the lookup3 checksum of its 44 bytes.
pub open spec fn spec_superblock_v2(root_ohdr: u64, eof: u64) -> Seq<u8> {
    let b = spec_superblock_v2_body(root_ohdr, eof);
    b + le_bytes(spec_lookup3(b, 0) as int, 4)
}

/// Encode a version-2 superblock.
pub fn encode_v2(root_ohdr: u64, eof: u64) -> (buf: [u8; 48])
    ensures
        buf@ == spec_superblock_v2(root_ohdr, eof),
{
    let mut v: Vec<u8> = Vec::new();
    let sig = HDF5_SIGNATURE;
    extend_bytes(&mut v, &sig);
    v.push(HDF5_SUPERBLOCK_V2);
    v.push(HDF5_OFFSET_SIZE);
    v.push(HDF5_LENGTH_SIZE);
    v.push(0);
    push_u64(&mut v, 0);
    push_u64(&mut v, HDF5_UNDEF_ADDR_8);
    push_u64(&mut v, eof);
    push_u64(&mut v, root_ohdr);
    assert(v@ =~= spec_superblock_v2_body(root_ohdr, eof));
    let sum = lookup3(v.as_slice(), 0);
    push_u32(&mut v, sum);
    let mut buf = [0u8; 48];
    let mut i: usize = 0;
    while i < HDF5_SUPERBLOCK_V2_SIZE
        invariant
            i <= 48,
            v@.len() == 48,
            forall|j: int| 0 <= j < i ==> buf@[j] == v@[j],
        decreases 48 - i,
    {
        buf.set(i, v[i]);
        i = i + 1;
    }
    assert(buf@ =~= v@);
    buf
}

/// A file image that starts with a superblock written by `encode_v2` is read
/// back with 8-byte offsets and lengths and the root header it names.
#[verifier::rlimit(50)]
pub proof fn law_superblock_roundtrip(d: Seq<u8>, root_ohdr: u64, eof: u64)
    requires
        d.len() >= 48,
        d.subrange(0, 48) == spec_superblock_v2(root_ohdr, eof),
    ensures
        spec_parse_superblock(d) == Ok::<Superblock, HDF5Error>(
            Superblock {
                offset_size: HDF5_OFFSET_SIZE,
                length_size: HDF5_LENGTH_SIZE,
                root_ohdr,
                root_btree: None,
                root_heap: None,
            },
        ),
{
    let body = spec_superblock_v2_body(root_ohdr, eof);
    let sb = spec_superblock_v2(root_ohdr, eof);
    let rb = le_bytes(root_ohdr as int, 8);
    let sum = le_bytes(spec_lookup3(body, 0) as int, 4);
    assert(body.len() == 44);
    assert(sb == body + sum);
    assert forall|k: int| 0 <= k < 48 implies #[trigger] d[k] == sb[k] by {
        assert(d.subrange(0, 48)[k] == sb[k]);
    }
    assert(d.subrange(0, 8) =~= HDF5_SIGNATURE@) by {
        assert forall|k: int| 0 <= k < 8 implies d.subrange(0, 8)[k] == HDF5_SIGNATURE@[k] by {
            assert(d[k] == sb[k]);
        }
    }
    assert(sig_at(d, 0));
    assert(d[8] == sb[8]);
    assert(d[9] == sb[9]);
    assert(d[10] == sb[10]);
    reveal_with_fuel(pow256, 9);
    lemma_le_bytes_roundtrip(root_ohdr, 8);
    assert(le_at(d, 36, 8) == le_at(rb, 0, 8)) by {
        assert forall|k: int| 0 <= k < 8 implies d[36 + k] == rb[k] by {
            assert(d[36 + k] == sb[36 + k]);
            assert(sb[36 + k] == body[36 + k]);
        }
        assert(d[36] == rb[0] && d[37] == rb[1] && d[38] == rb[2] && d[39] == rb[3]);
        assert(d[40] == rb[4] && d[41] == rb[5] && d[42] == rb[6] && d[43] == rb[7]);
    }
    let stored = spec_lookup3(body, 0);
    lemma_le_bytes_roundtrip(stored as u64, 4);
    assert(le_at(d, 44, 4) == le_at(sum, 0, 4)) by {
        assert(d[44] == sb[44] && sb[44] == sum[0]);
        assert(d[45] == sb[45] && sb[45] == sum[1]);
        assert(d[46] == sb[46] && sb[46] == sum[2]);
        assert(d[47] == sb[47] && sb[47] == sum[3]);
    }
    assert(d.subrange(0, 44) =~= body) by {
        assert forall|k: int| 0 <= k < 44 implies d.subrange(0, 44)[k] == body[k] by {
            assert(d[k] == sb[k]);
        }
    }
    assert(rd_bytes(d, 12, 24) is Ok);
    assert(rd_le(d, 36, 8) == Ok::<(u64, int), HDF5Error>((root_ohdr, 44)));
    assert(rd_le(d, 44, 4) == Ok::<(u64, int), HDF5Error>((stored as u64, 48)));
}

} // verus!
