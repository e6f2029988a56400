//! Object header v1 and v2 encode/decode.
use vstd::prelude::*;

use crate::buf::{
    le_at, le_bytes, lemma_le_bytes_roundtrip, pow256, push_u16, push_u32, rd_bytes, rd_le, rd_sized, size_ok,
    Reader,
};
use crate::checksum::{lookup3, spec_lookup3};
use crate::consts::{
    HDF5_MAX_WALK_DEPTH, HDF5_MSG_CONTINUATION, HDF5_MSG_NIL, HDF5_OCHK_SIGNATURE,
    HDF5_OHDR_FLAGS_CHUNK4, HDF5_OHDR_SIGNATURE, HDF5_OHDR_VERSION,
};
use crate::error::{HDF5Error, Result};
use crate::messages::extend_bytes;

verus! {

/// One header message: type, flags and body.
pub struct RawMsg {
    /// Message type.
    pub ty: u8,
    /// Message flags.
    pub flags: u8,
    /// Message body.
    pub body: Vec<u8>,
}

/// Abstract form of [`RawMsg`].
pub struct MsgView {
    /// Message type.
    pub ty: u8,
    /// Message flags.
    pub flags: u8,
    /// Message body.
    pub body: Seq<u8>,
}

impl View for RawMsg {
    type V = MsgView;

    open spec fn view(&self) -> MsgView {
        MsgView { ty: self.ty, flags: self.flags, body: self.body@ }
    }
}

/// Views of a sequence of messages.
pub open spec fn msg_views(s: Seq<RawMsg>) -> Seq<MsgView> {
    s.map_values(|m: RawMsg| m@)
}

/// One message in a version-2 chunk: type, 2-byte size, flags, body.
pub open spec fn spec_msg_v2(m: MsgView) -> Seq<u8> {
    seq![m.ty] + le_bytes((m.body.len() as u16) as int, 2) + seq![m.flags] + m.body
}

/// The messages of a version-2 chunk, concatenated.
pub open spec fn spec_chunk_bytes(msgs: Seq<MsgView>) -> Seq<u8>
    decreases msgs.len(),
{
    if msgs.len() == 0 {
        Seq::empty()
    } else {
        spec_chunk_bytes(msgs.drop_last()) + spec_msg_v2(msgs.last())
    }
}

/// Version-2 object header prefix and chunk (the checksummed part).
pub open spec fn spec_ohdr_v2_body(msgs: Seq<MsgView>) -> Seq<u8> {
    let chunk = spec_chunk_bytes(msgs);
    HDF5_OHDR_SIGNATURE@ + seq![HDF5_OHDR_VERSION, HDF5_OHDR_FLAGS_CHUNK4] + le_bytes(
        (chunk.len() as u32) as int,
        4,
    ) + chunk
}

/// Version-2 object header with one chunk holding `msgs`, 4-byte chunk size,
/// and the lookup3 checksum of everything before it.
pub open spec fn spec_ohdr_v2(msgs: Seq<MsgView>) -> Seq<u8> {
    let body = spec_ohdr_v2_body(msgs);
    body + le_bytes(spec_lookup3(body, 0) as int, 4)
}

/// Serialize messages into a version-2 object header.
pub fn encode_ohdr_v2(messages: &[RawMsg]) -> (out: Vec<u8>)
    ensures
        out@ == spec_ohdr_v2(msg_views(messages@)),
{
    let mut chunk: Vec<u8> = Vec::new();
    let mut i: usize = 0;
    while i < messages.len()
        invariant
            i <= messages@.len(),
            chunk@ == spec_chunk_bytes(msg_views(messages@).subrange(0, i as int)),
        decreases messages@.len() - i,
    {
        let m = &messages[i];
        chunk.push(m.ty);
        push_u16(&mut chunk, m.body.len() as u16);
        chunk.push(m.flags);
        extend_bytes(&mut chunk, m.body.as_slice());
        proof {
            let s = msg_views(messages@).subrange(0, i + 1);
            assert(s.drop_last() =~= msg_views(messages@).subrange(0, i as int));
            assert(s.last() == m@);
            assert(chunk@ =~= spec_chunk_bytes(s.drop_last()) + spec_msg_v2(m@));
        }
        i = i + 1;
    }
    proof {
        assert(msg_views(messages@).subrange(0, i as int) =~= msg_views(messages@));
    }
    let mut out: Vec<u8> = Vec::new();
    let sig = HDF5_OHDR_SIGNATURE;
    extend_bytes(&mut out, &sig);
    out.push(HDF5_OHDR_VERSION);
    out.push(HDF5_OHDR_FLAGS_CHUNK4);
    push_u32(&mut out, chunk.len() as u32);
    extend_bytes(&mut out, chunk.as_slice());
    assert(out@ =~= spec_ohdr_v2_body(msg_views(messages@)));
    let sum = lookup3(out.as_slice(), 0);
    push_u32(&mut out, sum);
    out
}

/// Parse messages of a version-2 chunk from `p` up to `end`, appending to `acc`.
/// A message needs at least 4 bytes; trailing gap bytes are skipped.
pub open spec fn spec_chunk_v2(d: Seq<u8>, p: int, end: int, oflags: u8, acc: Seq<MsgView>) -> Result<
    (Seq<MsgView>, int),
>
    decreases end - p,
{
    if p + 4 <= end {
        match rd_le(d, p, 1) {
            Err(e) => Err(e),
            Ok((ty, p1)) => match rd_le(d, p1, 2) {
                Err(e) => Err(e),
                Ok((size, p2)) => match rd_le(d, p2, 1) {
                    Err(e) => Err(e),
                    Ok((fl, p3)) => {
                        let r4 = if oflags & 0x04 != 0 {
                            rd_le(d, p3, 2)
                        } else {
                            Ok((0, p3))
                        };
                        match r4 {
                            Err(e) => Err(e),
                            Ok((_, p4)) => if p4 + size > end {
                                Err(HDF5Error::InvalidHeader)
                            } else {
                                match rd_bytes(d, p4, size as int) {
                                    Err(e) => Err(e),
                                    Ok((body, p5)) => {
                                        let acc2 = if ty as u8 != HDF5_MSG_NIL {
                                            acc.push(MsgView { ty: ty as u8, flags: fl as u8, body })
                                        } else {
                                            acc
                                        };
                                        spec_chunk_v2(d, p5, end, oflags, acc2)
                                    },
                                }
                            },
                        }
                    },
                },
            },
        }
    } else if p < end {
        match rd_bytes(d, p, end - p) {
            Err(e) => Err(e),
            Ok((_, p2)) => Ok((acc, p2)),
        }
    } else {
        Ok((acc, p))
    }
}

/// Parse the messages of a version-2 chunk of `chunk_len` bytes at the reader.
fn parse_chunk_v2(r: &mut Reader, chunk_len: usize, ohdr_flags: u8, msgs: &mut Vec<RawMsg>) -> (res:
    Result<()>)
    requires
        old(r)@.inv(),
        old(r)@.pos + chunk_len <= usize::MAX,
    ensures
        final(r)@.inv(),
        match spec_chunk_v2(
            old(r)@.data,
            old(r)@.pos,
            old(r)@.pos + chunk_len,
            ohdr_flags,
            msg_views(old(msgs)@),
        ) {
            Ok((ms, p)) => res is Ok && msg_views(final(msgs)@) == ms && old(r)@.moved(final(r)@, p),
            Err(e) => res == Err::<(), HDF5Error>(e),
        },
        res is Ok ==> final(r)@.pos >= old(r)@.pos,
{
    let ghost r0 = r@;
    let ghost m0 = msg_views(msgs@);
    let end = r.pos() + chunk_len;
    while end - r.pos() >= 4
        invariant
            r@.inv(),
            r0.moved(r@, r@.pos),
            r0.pos <= r@.pos <= end,
            end == r0.pos + chunk_len,
            end <= usize::MAX,
            r0 == old(r)@,
            m0 == msg_views(old(msgs)@),
            spec_chunk_v2(r0.data, r@.pos, end as int, ohdr_flags, msg_views(msgs@)) == spec_chunk_v2(
                r0.data,
                r0.pos,
                end as int,
                ohdr_flags,
                m0,
            ),
        decreases end - r@.pos,
    {
        let ghost acc = msg_views(msgs@);
        let ghost p0 = r@.pos;
        let ty = r.u8()?;
        let size = r.u16()? as usize;
        let flags = r.u8()?;
        if ohdr_flags & 0x04 != 0 {
            let _ = r.u16()?;
        }
        if r.pos() > end || size > end - r.pos() {
            return Err(HDF5Error::InvalidHeader);
        }
        let body = vstd::slice::slice_to_vec(r.bytes(size)?);
        if ty != HDF5_MSG_NIL {
            let ghost b = body@;
            msgs.push(RawMsg { ty, flags, body });
            proof {
                assert(msg_views(msgs@) =~= acc.push(MsgView { ty, flags, body: b }));
            }
        }
    }
    if r.pos() < end {
        let gap = end - r.pos();
        r.skip(gap)?;
    }
    Ok(())
}

/// Width of the chunk-0 size field selected by object-header flags.
pub open spec fn chunk0_width(flags: u8) -> u8 {
    let f = flags & 0x03;
    if f == 0 {
        1
    } else if f == 1 {
        2
    } else if f == 2 {
        4
    } else {
        8
    }
}


/// Continuation message: address and length of the continuation block.
pub open spec fn spec_parse_cont(b: Seq<u8>, osize: u8, lsize: u8) -> Result<(u64, u64)> {
    if !size_ok(osize) {
        Err(HDF5Error::UnsupportedVersion(osize))
    } else if !size_ok(lsize) {
        Err(HDF5Error::UnsupportedVersion(lsize))
    } else {
        match rd_le(b, 0, osize as int) {
            Err(e) => Err(e),
            Ok((addr, p)) => match rd_le(b, p, lsize as int) {
                Err(e) => Err(e),
                Ok((size, _)) => Ok((addr, size)),
            },
        }
    }
}

fn parse_cont(body: &[u8], offset_size: u8, length_size: u8) -> (res: Result<(u64, u64)>)
    ensures
        res == spec_parse_cont(body@, offset_size, length_size),
{
    let mut r = Reader::new(body, offset_size, length_size)?;
    let addr = r.addr()?;
    let size = r.length()?;
    Ok((addr, size))
}

/// Continuation targets of the messages, in order; continuation messages
/// whose body does not parse are ignored.
pub open spec fn spec_conts(msgs: Seq<MsgView>, osize: u8, lsize: u8) -> Seq<(u64, u64)>
    decreases msgs.len(),
{
    if msgs.len() == 0 {
        Seq::empty()
    } else {
        let m = msgs[0];
        let head = if m.ty == HDF5_MSG_CONTINUATION {
            match spec_parse_cont(m.body, osize, lsize) {
                Ok(c) => seq![c],
                Err(_) => Seq::empty(),
            }
        } else {
            Seq::empty()
        };
        head + spec_conts(msgs.drop_first(), osize, lsize)
    }
}

/// The messages that are not continuation messages, in order.
pub open spec fn spec_drop_conts(msgs: Seq<MsgView>) -> Seq<MsgView>
    decreases msgs.len(),
{
    if msgs.len() == 0 {
        Seq::empty()
    } else {
        let head = if msgs[0].ty != HDF5_MSG_CONTINUATION {
            seq![msgs[0]]
        } else {
            Seq::empty()
        };
        head + spec_drop_conts(msgs.drop_first())
    }
}

/// Split the messages into continuation targets (returned) and the rest (kept).
fn take_conts(msgs: &mut Vec<RawMsg>, offset_size: u8, length_size: u8) -> (conts: Vec<(u64, u64)>)
    ensures
        conts@ == spec_conts(msg_views(old(msgs)@), offset_size, length_size),
        msg_views(final(msgs)@) == spec_drop_conts(msg_views(old(msgs)@)),
{
    let ghost m0 = msg_views(msgs@);
    let mut rest: Vec<RawMsg> = Vec::new();
    std::mem::swap(&mut rest, msgs);
    let mut conts: Vec<(u64, u64)> = Vec::new();
    assert(msg_views(msgs@) =~= Seq::<MsgView>::empty());
    while rest.len() > 0
        invariant
            msg_views(msgs@) + spec_drop_conts(msg_views(rest@)) == spec_drop_conts(m0),
            conts@ + spec_conts(msg_views(rest@), offset_size, length_size) == spec_conts(
                m0,
                offset_size,
                length_size,
            ),
        decreases rest@.len(),
    {
        let ghost before = msg_views(rest@);
        let ghost kept = msg_views(msgs@);
        let ghost found = conts@;
        let m = rest.remove(0);
        proof {
            assert(msg_views(rest@) =~= before.drop_first());
            assert(before[0] == m@);
        }
        if m.ty == HDF5_MSG_CONTINUATION {
            match parse_cont(m.body.as_slice(), offset_size, length_size) {
                Ok(c) => {
                    conts.push(c);
                    assert(conts@ + spec_conts(msg_views(rest@), offset_size, length_size) =~= found
                        + spec_conts(before, offset_size, length_size));
                },
                Err(_) => {
                    assert(conts@ + spec_conts(msg_views(rest@), offset_size, length_size) =~= found
                        + spec_conts(before, offset_size, length_size));
                },
            }
            assert(msg_views(msgs@) + spec_drop_conts(msg_views(rest@)) =~= kept + spec_drop_conts(
                before,
            ));
        } else {
            msgs.push(m);
            assert(msg_views(msgs@) =~= kept.push(before[0]));
            assert(msg_views(msgs@) + spec_drop_conts(msg_views(rest@)) =~= kept + spec_drop_conts(
                before,
            ));
            assert(conts@ + spec_conts(msg_views(rest@), offset_size, length_size) =~= found
                + spec_conts(before, offset_size, length_size));
        }
    }
    assert(msg_views(msgs@) =~= spec_drop_conts(m0));
    assert(conts@ =~= spec_conts(m0, offset_size, length_size));
    conts
}


/// Checksum test at the end of a chunk that ends at `p` (after the stored sum):
/// lookup3 of the bytes from `start` up to the stored sum must equal it.
pub open spec fn checksum_ok(d: Seq<u8>, start: int, p: int, stored: u64) -> bool {
    spec_lookup3(d.subrange(start, p - 4), 0) == stored as u32
}

/// A continuation block (`OCHK`) at `addr` of `size` bytes: its messages are
/// appended to `acc`, and its checksum is verified.
pub open spec fn spec_ochk(
    d: Seq<u8>,
    addr: u64,
    size: u64,
    osize: u8,
    lsize: u8,
    oflags: u8,
    acc: Seq<MsgView>,
) -> Result<Seq<MsgView>> {
    if !size_ok(osize) {
        Err(HDF5Error::UnsupportedVersion(osize))
    } else if !size_ok(lsize) {
        Err(HDF5Error::UnsupportedVersion(lsize))
    } else if addr > d.len() {
        Err(HDF5Error::Truncated)
    } else {
        match rd_bytes(d, addr as int, 4) {
            Err(e) => Err(e),
            Ok((sig, p)) => if sig != HDF5_OCHK_SIGNATURE@ {
                Err(HDF5Error::InvalidHeader)
            } else {
                let chunk_len = (if size >= 8 { size - 8 } else { 0 }) as usize;
                if p + chunk_len > usize::MAX {
                    Err(HDF5Error::Truncated)
                } else {
                    match spec_chunk_v2(d, p, p + chunk_len, oflags, acc) {
                        Err(e) => Err(e),
                        Ok((ms, p2)) => match rd_le(d, p2, 4) {
                            Err(e) => Err(e),
                            Ok((stored, p3)) => if !checksum_ok(d, addr as int, p3, stored) {
                                Err(HDF5Error::InvalidHeader)
                            } else {
                                Ok(ms)
                            },
                        },
                    }
                }
            },
        }
    }
}

/// Compare four bytes with a signature.
fn sig_eq(s: &[u8], sig: [u8; 4]) -> (b: bool)
    ensures
        b == (s@ == sig@),
{
    if s.len() != 4 {
        return false;
    }
    let b = s[0] == sig[0] && s[1] == sig[1] && s[2] == sig[2] && s[3] == sig[3];
    proof {
        if b {
            assert(s@ =~= sig@);
        }
    }
    b
}

fn parse_ochk(
    data: &[u8],
    addr: u64,
    size: u64,
    offset_size: u8,
    length_size: u8,
    ohdr_flags: u8,
    msgs: &mut Vec<RawMsg>,
) -> (res: Result<()>)
    ensures
        match spec_ochk(data@, addr, size, offset_size, length_size, ohdr_flags, msg_views(old(msgs)@)) {
            Ok(ms) => res is Ok && msg_views(final(msgs)@) == ms,
            Err(e) => res == Err::<(), HDF5Error>(e),
        },
{
    let mut r = Reader::new(data, offset_size, length_size)?.at(addr)?;
    let sig = r.bytes(4)?;
    if !sig_eq(sig, HDF5_OCHK_SIGNATURE) {
        return Err(HDF5Error::InvalidHeader);
    }
    let chunk_len = (if size >= 8 { size - 8 } else { 0 }) as usize;
    if chunk_len > usize::MAX - r.pos() {
        return Err(HDF5Error::Truncated);
    }
    parse_chunk_v2(&mut r, chunk_len, ohdr_flags, msgs)?;
    let stored = r.u32()?;
    let start = addr as usize;
    let hashed_end = r.pos() - 4;
    if lookup3(&data[start..hashed_end], 0) != stored {
        return Err(HDF5Error::InvalidHeader);
    }
    Ok(())
}

/// Follow the continuation messages of a version-2 header: each target block
/// is read in order, then continuations found so far are followed again one
/// level deeper; more than `HDF5_MAX_WALK_DEPTH` levels is an error.
pub open spec fn spec_expand(
    d: Seq<u8>,
    osize: u8,
    lsize: u8,
    oflags: u8,
    msgs: Seq<MsgView>,
    depth: nat,
) -> Result<Seq<MsgView>>
    decreases HDF5_MAX_WALK_DEPTH + 1 - depth, 1nat, 0nat,
{
    if depth > HDF5_MAX_WALK_DEPTH {
        Err(HDF5Error::InvalidHeader)
    } else {
        spec_expand_list(
            d,
            osize,
            lsize,
            oflags,
            spec_conts(msgs, osize, lsize),
            0,
            spec_drop_conts(msgs),
            depth,
        )
    }
}

/// Follow the continuation targets `conts[i..]` starting from messages `acc`.
pub open spec fn spec_expand_list(
    d: Seq<u8>,
    osize: u8,
    lsize: u8,
    oflags: u8,
    conts: Seq<(u64, u64)>,
    i: nat,
    acc: Seq<MsgView>,
    depth: nat,
) -> Result<Seq<MsgView>>
    decreases HDF5_MAX_WALK_DEPTH + 1 - depth, 0nat, conts.len() - i,
{
    if i >= conts.len() || depth > HDF5_MAX_WALK_DEPTH {
        Ok(acc)
    } else {
        match spec_ochk(d, conts[i as int].0, conts[i as int].1, osize, lsize, oflags, acc) {
            Err(e) => Err(e),
            Ok(acc2) => match spec_expand(d, osize, lsize, oflags, acc2, depth + 1) {
                Err(e) => Err(e),
                Ok(acc3) => spec_expand_list(d, osize, lsize, oflags, conts, i + 1, acc3, depth),
            },
        }
    }
}

fn expand_continuations(
    data: &[u8],
    offset_size: u8,
    length_size: u8,
    ohdr_flags: u8,
    msgs: &mut Vec<RawMsg>,
    depth: usize,
) -> (res: Result<()>)
    ensures
        match spec_expand(data@, offset_size, length_size, ohdr_flags, msg_views(old(msgs)@), depth as nat) {
            Ok(ms) => res is Ok && msg_views(final(msgs)@) == ms,
            Err(e) => res == Err::<(), HDF5Error>(e),
        },
    decreases HDF5_MAX_WALK_DEPTH + 1 - depth,
{
    if depth > HDF5_MAX_WALK_DEPTH {
        return Err(HDF5Error::InvalidHeader);
    }
    let ghost m0 = msg_views(msgs@);
    let cont = take_conts(msgs, offset_size, length_size);
    let mut i: usize = 0;
    while i < cont.len()
        invariant
            i <= cont@.len(),
            depth <= HDF5_MAX_WALK_DEPTH,
            cont@ == spec_conts(m0, offset_size, length_size),
            m0 == msg_views(old(msgs)@),
            spec_expand(data@, offset_size, length_size, ohdr_flags, m0, depth as nat)
                == spec_expand_list(
                data@,
                offset_size,
                length_size,
                ohdr_flags,
                cont@,
                i as nat,
                msg_views(msgs@),
                depth as nat,
            ),
        decreases cont@.len() - i,
    {
        let (addr, size) = cont[i];
        parse_ochk(data, addr, size, offset_size, length_size, ohdr_flags, msgs)?;
        expand_continuations(data, offset_size, length_size, ohdr_flags, msgs, depth + 1)?;
        i = i + 1;
    }
    Ok(())
}


/// Version-2 object header at `addr`: signature, version 2, flags (optional
/// times and attribute-phase fields), chunk-0 size of 1 to 8 bytes, the chunk,
/// its checksum, then the continuation blocks.
pub open spec fn spec_parse_ohdr_v2(d: Seq<u8>, addr: u64, osize: u8, lsize: u8) -> Result<
    Seq<MsgView>,
> {
    if !size_ok(osize) {
        Err(HDF5Error::UnsupportedVersion(osize))
    } else if !size_ok(lsize) {
        Err(HDF5Error::UnsupportedVersion(lsize))
    } else if addr > d.len() {
        Err(HDF5Error::Truncated)
    } else {
        match rd_bytes(d, addr as int, 4) {
            Err(e) => Err(e),
            Ok((sig, p)) => if sig != HDF5_OHDR_SIGNATURE@ {
                Err(HDF5Error::InvalidHeader)
            } else {
                match rd_le(d, p, 1) {
                    Err(e) => Err(e),
                    Ok((ver, p)) => if ver != 2 {
                        Err(HDF5Error::UnsupportedVersion(ver as u8))
                    } else {
                        match rd_le(d, p, 1) {
                            Err(e) => Err(e),
                            Ok((fl, p)) => {
                                let flags = fl as u8;
                                match rd_bytes(d, p, if flags & 0x20 != 0 { 16 } else { 0 }) {
                                    Err(e) => Err(e),
                                    Ok((_, p)) => match rd_bytes(d, p, if flags & 0x10 != 0 { 4 } else { 0 }) {
                                        Err(e) => Err(e),
                                        Ok((_, p)) => match rd_sized(d, p, chunk0_width(flags)) {
                                            Err(e) => Err(e),
                                            Ok((c0, p)) => {
                                                let chunk0 = c0 as usize;
                                                if p + chunk0 > usize::MAX {
                                                    Err(HDF5Error::Truncated)
                                                } else {
                                                    match spec_chunk_v2(d, p, p + chunk0, flags, Seq::empty()) {
                                                        Err(e) => Err(e),
                                                        Ok((ms, p2)) => match rd_le(d, p2, 4) {
                                                            Err(e) => Err(e),
                                                            Ok((stored, p3)) => if !checksum_ok(d, addr as int, p3, stored) {
                                                                Err(HDF5Error::InvalidHeader)
                                                            } else {
                                                                spec_expand(d, osize, lsize, flags, ms, 0)
                                                            },
                                                        },
                                                    }
                                                }
                                            },
                                        },
                                    },
                                }
                            },
                        }
                    },
                }
            },
        }
    }
}

#[verifier::rlimit(50)]
fn parse_ohdr_v2(data: &[u8], addr: u64, offset_size: u8, length_size: u8) -> (res: Result<
    Vec<RawMsg>,
>)
    ensures
        match spec_parse_ohdr_v2(data@, addr, offset_size, length_size) {
            Ok(ms) => res matches Ok(v) && msg_views(v@) == ms,
            Err(e) => res matches Err(e2) && e2 == e,
        },
{
    let mut r = Reader::new(data, offset_size, length_size)?.at(addr)?;
    let sig = r.bytes(4)?;
    if !sig_eq(sig, HDF5_OHDR_SIGNATURE) {
        return Err(HDF5Error::InvalidHeader);
    }
    let version = r.u8()?;
    if version != 2 {
        return Err(HDF5Error::UnsupportedVersion(version));
    }
    let flags = r.u8()?;
    if flags & 0x20 != 0 {
        r.skip(16)?;
    } else {
        r.skip(0)?;
    }
    if flags & 0x10 != 0 {
        r.skip(4)?;
    } else {
        r.skip(0)?;
    }
    let f = flags & 0x03;
    let width: u8 = if f == 0 {
        1
    } else if f == 1 {
        2
    } else if f == 2 {
        4
    } else {
        8
    };
    let chunk0 = r.sized_uint(width)? as usize;
    if chunk0 > usize::MAX - r.pos() {
        return Err(HDF5Error::Truncated);
    }
    let mut msgs: Vec<RawMsg> = Vec::new();
    assert(msg_views(msgs@) =~= Seq::<MsgView>::empty());
    parse_chunk_v2(&mut r, chunk0, flags, &mut msgs)?;
    let stored = r.u32()?;
    let start = addr as usize;
    let hashed_end = r.pos() - 4;
    if lookup3(&data[start..hashed_end], 0) != stored {
        return Err(HDF5Error::InvalidHeader);
    }
    expand_continuations(data, offset_size, length_size, flags, &mut msgs, 0)?;
    Ok(msgs)
}


/// Up to `k` version-1 messages from `p`, stopping when fewer than 8 bytes of
/// the header remain before `end`: 2-byte type (low byte kept), 2-byte size,
/// flags, 3 reserved bytes, body. Nil messages are dropped.
pub open spec fn spec_v1_msgs(d: Seq<u8>, p: int, end: int, k: nat, acc: Seq<MsgView>) -> Result<
    (Seq<MsgView>, int),
>
    decreases k,
{
    if k == 0 || p + 8 > end {
        Ok((acc, p))
    } else {
        match rd_le(d, p, 2) {
            Err(e) => Err(e),
            Ok((ty, p)) => match rd_le(d, p, 2) {
                Err(e) => Err(e),
                Ok((size, p)) => match rd_le(d, p, 1) {
                    Err(e) => Err(e),
                    Ok((fl, p)) => match rd_bytes(d, p, 3) {
                        Err(e) => Err(e),
                        Ok((_, p)) => match rd_bytes(d, p, size as int) {
                            Err(e) => Err(e),
                            Ok((body, p)) => {
                                let acc2 = if ty as u8 != HDF5_MSG_NIL {
                                    acc.push(MsgView { ty: ty as u8, flags: fl as u8, body })
                                } else {
                                    acc
                                };
                                spec_v1_msgs(d, p, end, (k - 1) as nat, acc2)
                            },
                        },
                    },
                },
            },
        }
    }
}

fn parse_msgs_v1(r: &mut Reader, end: usize, nmsgs: usize, msgs: &mut Vec<RawMsg>) -> (res: Result<()>)
    requires
        old(r)@.inv(),
    ensures
        final(r)@.inv(),
        match spec_v1_msgs(old(r)@.data, old(r)@.pos, end as int, nmsgs as nat, msg_views(old(msgs)@)) {
            Ok((ms, p)) => res is Ok && msg_views(final(msgs)@) == ms && old(r)@.moved(final(r)@, p),
            Err(e) => res == Err::<(), HDF5Error>(e),
        },
{
    let ghost r0 = r@;
    let ghost m0 = msg_views(msgs@);
    let mut k: usize = nmsgs;
    while k > 0
        invariant
            r@.inv(),
            r0.moved(r@, r@.pos),
            r0 == old(r)@,
            m0 == msg_views(old(msgs)@),
            k <= nmsgs,
            spec_v1_msgs(r0.data, r@.pos, end as int, k as nat, msg_views(msgs@)) == spec_v1_msgs(
                r0.data,
                r0.pos,
                end as int,
                nmsgs as nat,
                m0,
            ),
        ensures
            r@.inv(),
            r0.moved(r@, r@.pos),
            spec_v1_msgs(r0.data, r0.pos, end as int, nmsgs as nat, m0) == Ok::<
                (Seq<MsgView>, int),
                HDF5Error,
            >((msg_views(msgs@), r@.pos)),
        decreases k,
    {
        if r.pos() > end || end - r.pos() < 8 {
            break;
        }
        let ghost acc = msg_views(msgs@);
        let ty = r.u16()? as u8;
        let size = r.u16()? as usize;
        let flags = r.u8()?;
        r.skip(3)?;
        let body = vstd::slice::slice_to_vec(r.bytes(size)?);
        if ty != HDF5_MSG_NIL {
            let ghost b = body@;
            msgs.push(RawMsg { ty, flags, body });
            proof {
                assert(msg_views(msgs@) =~= acc.push(MsgView { ty, flags, body: b }));
            }
        }
        k = k - 1;
    }
    Ok(())
}

/// Version-1 object header at `addr`: version 1, reserved byte, message count,
/// reference count, header size, 4 padding bytes, the messages, then the
/// headers named by continuation messages, each one level deeper; more than
/// `HDF5_MAX_WALK_DEPTH` levels is an error.
pub open spec fn spec_parse_ohdr_v1(d: Seq<u8>, addr: u64, osize: u8, lsize: u8, depth: nat) -> Result<
    Seq<MsgView>,
>
    decreases HDF5_MAX_WALK_DEPTH + 1 - depth, 1nat, 0nat,
{
    if depth > HDF5_MAX_WALK_DEPTH {
        Err(HDF5Error::InvalidHeader)
    } else if !size_ok(osize) {
        Err(HDF5Error::UnsupportedVersion(osize))
    } else if !size_ok(lsize) {
        Err(HDF5Error::UnsupportedVersion(lsize))
    } else if addr > d.len() {
        Err(HDF5Error::Truncated)
    } else {
        match rd_le(d, addr as int, 1) {
            Err(e) => Err(e),
            Ok((ver, p)) => if ver != 1 {
                Err(HDF5Error::UnsupportedVersion(ver as u8))
            } else {
                match rd_le(d, p, 1) {
                    Err(e) => Err(e),
                    Ok((_, p)) => match rd_le(d, p, 2) {
                        Err(e) => Err(e),
                        Ok((nmsgs, p)) => match rd_le(d, p, 4) {
                            Err(e) => Err(e),
                            Ok((_, p)) => match rd_le(d, p, 4) {
                                Err(e) => Err(e),
                                Ok((hsize, p)) => match rd_bytes(d, p, 4) {
                                    Err(e) => Err(e),
                                    Ok((_, p)) => if p + hsize > usize::MAX {
                                        Err(HDF5Error::Truncated)
                                    } else {
                                        match spec_v1_msgs(d, p, p + hsize, nmsgs as nat, Seq::empty()) {
                                            Err(e) => Err(e),
                                            Ok((ms, _)) => spec_v1_list(
                                                d,
                                                spec_conts(ms, osize, lsize),
                                                0,
                                                spec_drop_conts(ms),
                                                osize,
                                                lsize,
                                                depth,
                                            ),
                                        }
                                    },
                                },
                            },
                        },
                    },
                }
            },
        }
    }
}

/// Append the messages of the version-1 headers at `conts[i..]` to `acc`.
pub open spec fn spec_v1_list(
    d: Seq<u8>,
    conts: Seq<(u64, u64)>,
    i: nat,
    acc: Seq<MsgView>,
    osize: u8,
    lsize: u8,
    depth: nat,
) -> Result<Seq<MsgView>>
    decreases HDF5_MAX_WALK_DEPTH + 1 - depth, 0nat, conts.len() - i,
{
    if i >= conts.len() || depth > HDF5_MAX_WALK_DEPTH {
        Ok(acc)
    } else {
        match spec_parse_ohdr_v1(d, conts[i as int].0, osize, lsize, depth + 1) {
            Err(e) => Err(e),
            Ok(extra) => spec_v1_list(d, conts, i + 1, acc + extra, osize, lsize, depth),
        }
    }
}

fn parse_ohdr_v1(data: &[u8], addr: u64, offset_size: u8, length_size: u8, depth: usize) -> (res:
    Result<Vec<RawMsg>>)
    ensures
        match spec_parse_ohdr_v1(data@, addr, offset_size, length_size, depth as nat) {
            Ok(ms) => res matches Ok(v) && msg_views(v@) == ms,
            Err(e) => res matches Err(e2) && e2 == e,
        },
    decreases HDF5_MAX_WALK_DEPTH + 1 - depth,
{
    if depth > HDF5_MAX_WALK_DEPTH {
        return Err(HDF5Error::InvalidHeader);
    }
    let mut r = Reader::new(data, offset_size, length_size)?.at(addr)?;
    let version = r.u8()?;
    if version != 1 {
        return Err(HDF5Error::UnsupportedVersion(version));
    }
    r.u8()?;
    let nmsgs = r.u16()? as usize;
    let _refcnt = r.u32()?;
    let header_size = r.u32()? as usize;
    r.skip(4)?;
    if header_size > usize::MAX - r.pos() {
        return Err(HDF5Error::Truncated);
    }
    let end = r.pos() + header_size;
    let mut msgs: Vec<RawMsg> = Vec::new();
    assert(msg_views(msgs@) =~= Seq::<MsgView>::empty());
    parse_msgs_v1(&mut r, end, nmsgs, &mut msgs)?;
    let ghost ms = msg_views(msgs@);
    let cont = take_conts(&mut msgs, offset_size, length_size);
    let mut i: usize = 0;
    while i < cont.len()
        invariant
            i <= cont@.len(),
            depth <= HDF5_MAX_WALK_DEPTH,
            cont@ == spec_conts(ms, offset_size, length_size),
            spec_parse_ohdr_v1(data@, addr, offset_size, length_size, depth as nat) == spec_v1_list(
                data@,
                cont@,
                0,
                spec_drop_conts(ms),
                offset_size,
                length_size,
                depth as nat,
            ),
            spec_v1_list(data@, cont@, 0, spec_drop_conts(ms), offset_size, length_size, depth as nat)
                == spec_v1_list(
                data@,
                cont@,
                i as nat,
                msg_views(msgs@),
                offset_size,
                length_size,
                depth as nat,
            ),
        decreases cont@.len() - i,
    {
        let (caddr, _csz) = cont[i];
        let mut extra = parse_ohdr_v1(data, caddr, offset_size, length_size, depth + 1)?;
        let ghost before = msg_views(msgs@);
        let ghost ev = msg_views(extra@);
        msgs.append(&mut extra);
        assert(msg_views(msgs@) =~= before + ev);
        i = i + 1;
    }
    Ok(msgs)
}

/// Object header at `addr`: version 2 when it starts with `OHDR`, else version 1.
pub open spec fn spec_parse_ohdr(d: Seq<u8>, addr: u64, osize: u8, lsize: u8) -> Result<Seq<MsgView>> {
    if !size_ok(osize) {
        Err(HDF5Error::UnsupportedVersion(osize))
    } else if !size_ok(lsize) {
        Err(HDF5Error::UnsupportedVersion(lsize))
    } else if addr > d.len() || d.len() - addr < 4 {
        Err(HDF5Error::Truncated)
    } else if d.subrange(addr as int, addr + 4) == HDF5_OHDR_SIGNATURE@ {
        spec_parse_ohdr_v2(d, addr, osize, lsize)
    } else {
        spec_parse_ohdr_v1(d, addr, osize, lsize, 0)
    }
}

/// Parse the object header at `addr` into its messages (continuations followed).
pub fn parse_ohdr(data: &[u8], addr: u64, offset_size: u8, length_size: u8) -> (res: Result<
    Vec<RawMsg>,
>)
    ensures
        match spec_parse_ohdr(data@, addr, offset_size, length_size) {
            Ok(ms) => res matches Ok(v) && msg_views(v@) == ms,
            Err(e) => res matches Err(e2) && e2 == e,
        },
{
    let mut r = Reader::new(data, offset_size, length_size)?.at(addr)?;
    if r.remaining() < 4 {
        return Err(HDF5Error::Truncated);
    }
    let sig = r.bytes(4)?;
    if sig_eq(sig, HDF5_OHDR_SIGNATURE) {
        parse_ohdr_v2(data, addr, offset_size, length_size)
    } else {
        parse_ohdr_v1(data, addr, offset_size, length_size, 0)
    }
}

/// Messages a version-2 header can carry and give back: no placeholder or
/// continuation messages, bodies shorter than 64 KiB.
pub open spec fn writable_msgs(msgs: Seq<MsgView>) -> bool {
    forall|i: int|
        0 <= i < msgs.len() ==> (#[trigger] msgs[i]).ty != HDF5_MSG_NIL && msgs[i].ty != HDF5_MSG_CONTINUATION
            && msgs[i].body.len() < 65536
}

/// A chunk of messages with bodies under 64 KiB takes at most 65539 bytes
/// per message.
pub proof fn lemma_chunk_bytes_bound(msgs: Seq<MsgView>)
    requires
        writable_msgs(msgs),
    ensures
        spec_chunk_bytes(msgs).len() <= 65539 * msgs.len(),
    decreases msgs.len(),
{
    if msgs.len() > 0 {
        assert(writable_msgs(msgs.drop_last())) by {
            assert forall|i: int| 0 <= i < msgs.drop_last().len() implies ({
                let m = #[trigger] msgs.drop_last()[i];
                m.ty != HDF5_MSG_NIL && m.ty != HDF5_MSG_CONTINUATION && m.body.len() < 65536
            }) by {
                assert(msgs.drop_last()[i] == msgs[i]);
            }
        }
        lemma_chunk_bytes_bound(msgs.drop_last());
        assert(msgs[msgs.len() - 1].body.len() < 65536);
    }
}

/// The chunk bytes start with the first message.
proof fn lemma_chunk_bytes_front(ms: Seq<MsgView>)
    requires
        ms.len() > 0,
    ensures
        spec_chunk_bytes(ms) == spec_msg_v2(ms[0]) + spec_chunk_bytes(ms.drop_first()),
    decreases ms.len(),
{
    if ms.len() == 1 {
        assert(ms.drop_last() =~= Seq::<MsgView>::empty());
        assert(ms.drop_first() =~= Seq::<MsgView>::empty());
        assert(spec_chunk_bytes(ms.drop_last()) =~= Seq::<u8>::empty());
        assert(spec_chunk_bytes(ms.drop_first()) =~= Seq::<u8>::empty());
        assert(ms.last() == ms[0]);
        assert(spec_chunk_bytes(ms) == spec_chunk_bytes(ms.drop_last()) + spec_msg_v2(ms.last()));
        assert(spec_chunk_bytes(ms) =~= spec_msg_v2(ms[0]));
    } else {
        lemma_chunk_bytes_front(ms.drop_last());
        assert(ms.drop_last().drop_first() =~= ms.drop_first().drop_last());
        assert(ms.drop_first().last() == ms.last());
        assert(ms.drop_last()[0] == ms[0]);
    }
}

/// A message's bytes are at least its 4-byte prefix long.
proof fn lemma_msg_len(m: MsgView)
    ensures
        spec_msg_v2(m).len() == 4 + m.body.len(),
{
}

/// Parsing the bytes of writable messages gives them back, after `acc`.
proof fn lemma_chunk_parse(d: Seq<u8>, p: int, end: int, fl: u8, acc: Seq<MsgView>, rest: Seq<MsgView>)
    requires
        fl & 0x04 == 0,
        writable_msgs(rest),
        0 <= p <= end <= d.len(),
        d.subrange(p, end) == spec_chunk_bytes(rest),
    ensures
        spec_chunk_v2(d, p, end, fl, acc) == Ok::<(Seq<MsgView>, int), HDF5Error>((acc + rest, end)),
    decreases rest.len(),
{
    if rest.len() == 0 {
        assert(acc + rest =~= acc);
        assert(d.subrange(p, end).len() == 0);
    } else {
        let m = rest[0];
        let tail = rest.drop_first();
        lemma_chunk_bytes_front(rest);
        lemma_msg_len(m);
        let mb = spec_msg_v2(m);
        let n = m.body.len();
        let sr = d.subrange(p, end);
        assert(sr == mb + spec_chunk_bytes(tail));
        assert(sr.len() == mb.len() + spec_chunk_bytes(tail).len());
        assert(p + 4 <= end);
        assert(d[p] == sr[0] && sr[0] == mb[0]);
        assert(d[p + 1] == sr[1] && sr[1] == mb[1]);
        assert(d[p + 2] == sr[2] && sr[2] == mb[2]);
        assert(d[p + 3] == sr[3] && sr[3] == mb[3]);
        assert(mb[0] == m.ty);
        assert(mb[3] == m.flags);
        reveal_with_fuel(pow256, 3);
        lemma_le_bytes_roundtrip(n as u64, 2);
        let lb = le_bytes((n as u16) as int, 2);
        assert(mb[1] == lb[0] && mb[2] == lb[1]);
        assert(le_at(d, p + 1, 2) == le_at(lb, 0, 2));
        assert(le_at(d, p + 1, 2) == n);
        assert forall|k: int| 0 <= k < n implies #[trigger] d.subrange(p + 4, p + 4 + n)[k] == m.body[k] by {
            assert(d[p + 4 + k] == sr[4 + k]);
            assert(sr[4 + k] == mb[4 + k]);
        }
        assert(d.subrange(p + 4, p + 4 + n) =~= m.body);
        assert forall|k: int| 0 <= k < end - (p + 4 + n) implies #[trigger] d.subrange(p + 4 + n, end)[k]
            == spec_chunk_bytes(tail)[k] by {
            assert(d[p + 4 + n + k] == sr[4 + n + k]);
        }
        assert(d.subrange(p + 4 + n, end) =~= spec_chunk_bytes(tail));
        assert(writable_msgs(tail)) by {
            assert forall|i: int| 0 <= i < tail.len() implies (#[trigger] tail[i]).ty != HDF5_MSG_NIL
                && tail[i].ty != HDF5_MSG_CONTINUATION && tail[i].body.len() < 65536 by {
                assert(tail[i] == rest[i + 1]);
            }
        }
        assert(m.ty != HDF5_MSG_NIL);
        lemma_chunk_parse(d, p + 4 + n, end, fl, acc.push(m), tail);
        assert(acc.push(m) + tail =~= acc + rest);
        assert(MsgView { ty: m.ty, flags: m.flags, body: m.body } == m);
    }
}

/// Without continuation messages there is nothing to follow and nothing to drop.
proof fn lemma_no_conts(msgs: Seq<MsgView>, osize: u8, lsize: u8)
    requires
        forall|i: int| 0 <= i < msgs.len() ==> (#[trigger] msgs[i]).ty != HDF5_MSG_CONTINUATION,
    ensures
        spec_conts(msgs, osize, lsize) == Seq::<(u64, u64)>::empty(),
        spec_drop_conts(msgs) == msgs,
    decreases msgs.len(),
{
    if msgs.len() > 0 {
        let t = msgs.drop_first();
        assert forall|i: int| 0 <= i < t.len() implies (#[trigger] t[i]).ty != HDF5_MSG_CONTINUATION by {
            assert(t[i] == msgs[i + 1]);
        }
        lemma_no_conts(t, osize, lsize);
        assert(msgs[0].ty != HDF5_MSG_CONTINUATION);
        assert(seq![msgs[0]] + t =~= msgs);
        assert(Seq::<(u64, u64)>::empty() + Seq::<(u64, u64)>::empty() =~= Seq::<(u64, u64)>::empty());
    }
}

/// Where the fields of a written header stand in a file image.
#[verifier::spinoff_prover]
#[verifier::rlimit(30)]
proof fn lemma_ohdr_fields(d: Seq<u8>, addr: u64, msgs: Seq<MsgView>)
    requires
        spec_chunk_bytes(msgs).len() <= u32::MAX,
        addr + spec_ohdr_v2(msgs).len() <= d.len(),
        d.subrange(addr as int, addr + spec_ohdr_v2(msgs).len()) == spec_ohdr_v2(msgs),
    ensures
        spec_ohdr_v2(msgs).len() == 14 + spec_chunk_bytes(msgs).len(),
        d.subrange(addr as int, addr + 4) == HDF5_OHDR_SIGNATURE@,
        le_at(d, addr + 4, 1) == HDF5_OHDR_VERSION,
        le_at(d, addr + 5, 1) == HDF5_OHDR_FLAGS_CHUNK4,
        le_at(d, addr + 6, 4) == spec_chunk_bytes(msgs).len(),
        d.subrange(addr + 10, addr + 10 + spec_chunk_bytes(msgs).len()) == spec_chunk_bytes(msgs),
        le_at(d, addr + 10 + spec_chunk_bytes(msgs).len(), 4) == spec_lookup3(
            d.subrange(addr as int, addr + 10 + spec_chunk_bytes(msgs).len()),
            0,
        ),
{
    let chunk = spec_chunk_bytes(msgs);
    let body = spec_ohdr_v2_body(msgs);
    let bytes = spec_ohdr_v2(msgs);
    let n = chunk.len() as int;
    let a = addr as int;
    let sig = HDF5_OHDR_SIGNATURE@;
    let sz = le_bytes((n as u32) as int, 4);
    let sum = le_bytes(spec_lookup3(body, 0) as int, 4);
    assert(body == sig + seq![HDF5_OHDR_VERSION, HDF5_OHDR_FLAGS_CHUNK4] + sz + chunk);
    assert(bytes == body + sum);
    assert forall|k: int| 0 <= k < 14 + n implies #[trigger] d[a + k] == bytes[k] by {
        assert(d.subrange(a, a + bytes.len())[k] == bytes[k]);
    }
    assert(d.subrange(a, a + 4) =~= sig) by {
        assert forall|k: int| 0 <= k < 4 implies d.subrange(a, a + 4)[k] == sig[k] by {
            assert(d[a + k] == bytes[k]);
        }
    }
    assert(d[a + 4] == bytes[4]);
    assert(d[a + 5] == bytes[5]);
    reveal_with_fuel(pow256, 5);
    lemma_le_bytes_roundtrip(n as u64, 4);
    assert(le_at(d, a + 6, 4) == le_at(sz, 0, 4)) by {
        assert(d[a + 6] == bytes[6] && bytes[6] == sz[0]);
        assert(d[a + 7] == bytes[7] && bytes[7] == sz[1]);
        assert(d[a + 8] == bytes[8] && bytes[8] == sz[2]);
        assert(d[a + 9] == bytes[9] && bytes[9] == sz[3]);
    }
    assert(d.subrange(a + 10, a + 10 + n) =~= chunk) by {
        assert forall|k: int| 0 <= k < n implies d.subrange(a + 10, a + 10 + n)[k] == chunk[k] by {
            assert(d[a + 10 + k] == bytes[10 + k]);
        }
    }
    let stored = spec_lookup3(body, 0);
    lemma_le_bytes_roundtrip(stored as u64, 4);
    assert(le_at(d, a + 10 + n, 4) == le_at(sum, 0, 4)) by {
        assert(d[a + 10 + n] == bytes[10 + n] && bytes[10 + n] == sum[0]);
        assert(d[a + 11 + n] == bytes[11 + n] && bytes[11 + n] == sum[1]);
        assert(d[a + 12 + n] == bytes[12 + n] && bytes[12 + n] == sum[2]);
        assert(d[a + 13 + n] == bytes[13 + n] && bytes[13 + n] == sum[3]);
    }
    assert(d.subrange(a, a + 10 + n) =~= body) by {
        assert forall|k: int| 0 <= k < 10 + n implies d.subrange(a, a + 10 + n)[k] == body[k] by {
            assert(d[a + k] == bytes[k]);
        }
    }
}

/// Following the continuations of messages that have none gives them back.
proof fn lemma_expand_none(d: Seq<u8>, osize: u8, lsize: u8, fl: u8, msgs: Seq<MsgView>)
    requires
        writable_msgs(msgs),
    ensures
        spec_expand(d, osize, lsize, fl, msgs, 0) == Ok::<Seq<MsgView>, HDF5Error>(msgs),
{
    assert forall|i: int| 0 <= i < msgs.len() implies (#[trigger] msgs[i]).ty != HDF5_MSG_CONTINUATION by {
        assert(writable_msgs(msgs));
    }
    lemma_no_conts(msgs, osize, lsize);
}

/// The version-2 reader gives back the messages of a written header.
#[verifier::rlimit(100)]
proof fn lemma_parse_v2_written(d: Seq<u8>, addr: u64, msgs: Seq<MsgView>, osize: u8, lsize: u8)
    requires
        size_ok(osize),
        size_ok(lsize),
        writable_msgs(msgs),
        spec_chunk_bytes(msgs).len() <= u32::MAX,
        addr + spec_ohdr_v2(msgs).len() <= d.len(),
        d.len() <= usize::MAX,
        d.subrange(addr as int, addr + spec_ohdr_v2(msgs).len()) == spec_ohdr_v2(msgs),
    ensures
        spec_parse_ohdr_v2(d, addr, osize, lsize) == Ok::<Seq<MsgView>, HDF5Error>(msgs),
{
    let n = spec_chunk_bytes(msgs).len() as int;
    let a = addr as int;
    lemma_ohdr_fields(d, addr, msgs);
    let fl: u8 = HDF5_OHDR_FLAGS_CHUNK4;
    assert(fl & 0x20 == 0) by (bit_vector)
        requires
            fl == 2,
    ;
    assert(fl & 0x10 == 0) by (bit_vector)
        requires
            fl == 2,
    ;
    assert(fl & 0x04 == 0) by (bit_vector)
        requires
            fl == 2,
    ;
    assert(fl & 0x03 == 2) by (bit_vector)
        requires
            fl == 2,
    ;
    assert(chunk0_width(fl) == 4);
    assert(rd_bytes(d, a, 4) == Ok::<(Seq<u8>, int), HDF5Error>((HDF5_OHDR_SIGNATURE@, a + 4)));
    assert(rd_le(d, a + 4, 1) == Ok::<(u64, int), HDF5Error>((2, a + 5)));
    assert(rd_le(d, a + 5, 1) == Ok::<(u64, int), HDF5Error>((2, a + 6)));
    assert(rd_bytes(d, a + 6, 0) == Ok::<(Seq<u8>, int), HDF5Error>((d.subrange(a + 6, a + 6), a + 6)));
    assert(rd_sized(d, a + 6, 4) == Ok::<(u64, int), HDF5Error>((n as u64, a + 10)));
    lemma_chunk_parse(d, a + 10, a + 10 + n, fl, Seq::empty(), msgs);
    assert(Seq::<MsgView>::empty() + msgs =~= msgs);
    let stored = le_at(d, a + 10 + n, 4) as u64;
    assert(rd_le(d, a + 10 + n, 4) == Ok::<(u64, int), HDF5Error>((stored, a + 14 + n)));
    assert(checksum_ok(d, a, a + 14 + n, stored));
    lemma_expand_none(d, osize, lsize, fl, msgs);
}

/// An object header written by `encode_ohdr_v2` reads back as the messages it
/// was written from, wherever in a file image it stands.
pub proof fn law_ohdr_v2_roundtrip(d: Seq<u8>, addr: u64, msgs: Seq<MsgView>, osize: u8, lsize: u8)
    requires
        size_ok(osize),
        size_ok(lsize),
        writable_msgs(msgs),
        spec_chunk_bytes(msgs).len() <= u32::MAX,
        addr + spec_ohdr_v2(msgs).len() <= d.len(),
        d.len() <= usize::MAX,
        d.subrange(addr as int, addr + spec_ohdr_v2(msgs).len()) == spec_ohdr_v2(msgs),
    ensures
        spec_parse_ohdr(d, addr, osize, lsize) == Ok::<Seq<MsgView>, HDF5Error>(msgs),
{
    lemma_ohdr_fields(d, addr, msgs);
    lemma_parse_v2_written(d, addr, msgs, osize, lsize);
}

} // verus!
