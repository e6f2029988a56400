//! Version-1 group B-trees, symbol-table nodes, local heaps, global heaps.
use vstd::prelude::*;

use crate::buf::{rd_bytes, rd_le, rd_slice, size_ok, Reader};
use crate::consts::{
    HDF5_BTREE_CHUNK, HDF5_BTREE_GROUP, HDF5_GCOL_SIGNATURE, HDF5_HEAP_SIGNATURE, HDF5_MAX_WALK_DEPTH,
    HDF5_SNOD_SIGNATURE, HDF5_TREE_SIGNATURE,
};
use crate::error::{HDF5Error, Result};
use crate::messages::{cstr_from_heap, lemma_rd_lengths_err_stable, rd_lengths, spec_cstr_from_heap};
use vstd::string::StringSliceAdditionalSpecFns;
use vstd::utf8::decode_utf8;

verus! {

/// Compare four bytes with a signature.
pub fn sig4_eq(s: &[u8], sig: [u8; 4]) -> (b: bool)
    ensures
        b == (s@ == sig@),
{
    if s.len() != 4 {
        return false;
    }
    let b = s[0] == sig[0] && s[1] == sig[1] && s[2] == sig[2] && s[3] == sig[3];
    proof {
        if b {
            assert(s@ =~= sig@);
        }
    }
    b
}

/// Local heap at `addr`: `HEAP`, version 0, 3 reserved bytes, data-segment
/// size, free-list offset, data-segment address; the result is the segment.
pub open spec fn spec_read_local_heap(d: Seq<u8>, addr: u64, osize: u8, lsize: u8) -> Result<Seq<u8>> {
    if !size_ok(osize) {
        Err(HDF5Error::UnsupportedVersion(osize))
    } else if !size_ok(lsize) {
        Err(HDF5Error::UnsupportedVersion(lsize))
    } else if addr > d.len() {
        Err(HDF5Error::Truncated)
    } else {
        match rd_bytes(d, addr as int, 4) {
            Err(e) => Err(e),
            Ok((sig, p)) => if sig != HDF5_HEAP_SIGNATURE@ {
                Err(HDF5Error::InvalidHeader)
            } else {
                match rd_le(d, p, 1) {
                    Err(e) => Err(e),
                    Ok((ver, p)) => if ver != 0 {
                        Err(HDF5Error::UnsupportedVersion(ver as u8))
                    } else {
                        match rd_bytes(d, p, 3) {
                            Err(e) => Err(e),
                            Ok((_, p)) => match rd_le(d, p, lsize as int) {
                                Err(e) => Err(e),
                                Ok((seg_size, p)) => match rd_le(d, p, lsize as int) {
                                    Err(e) => Err(e),
                                    Ok((_, p)) => match rd_le(d, p, osize as int) {
                                        Err(e) => Err(e),
                                        Ok((seg_addr, _)) => rd_slice(d, seg_addr, seg_size),
                                    },
                                },
                            },
                        }
                    },
                }
            },
        }
    }
}

/// Data segment of the local heap at `addr`.
pub fn read_local_heap<'a>(data: &'a [u8], addr: u64, offset_size: u8, length_size: u8) -> (res:
    Result<&'a [u8]>)
    ensures
        match spec_read_local_heap(data@, addr, offset_size, length_size) {
            Ok(s) => res matches Ok(h) && h@ == s,
            Err(e) => res matches Err(e2) && e2 == e,
        },
{
    let mut r = Reader::new(data, offset_size, length_size)?.at(addr)?;
    let sig = r.bytes(4)?;
    if !sig4_eq(sig, HDF5_HEAP_SIGNATURE) {
        return Err(HDF5Error::InvalidHeader);
    }
    let version = r.u8()?;
    if version != 0 {
        return Err(HDF5Error::UnsupportedVersion(version));
    }
    r.skip(3)?;
    let seg_size = r.length()?;
    let _free = r.length()?;
    let seg_addr = r.addr()?;
    Reader::new(data, offset_size, length_size)?.slice_at(seg_addr, seg_size)
}

/// A child of an old-style group: link name and object-header address.
pub struct GroupChild {
    /// Link name.
    pub name: String,
    /// Address of the child's object header.
    pub ohdr: u64,
}

/// Abstract group child: name bytes and object-header address.
pub type ChildView = (Seq<u8>, u64);

/// Whether `c` is the child `v`: its name holds the characters of `v.0`.
pub open spec fn child_is(c: GroupChild, v: ChildView) -> bool {
    c.name@ == decode_utf8(v.0) && c.ohdr == v.1
}

/// Whether the children are, in order, those of `vs`.
pub open spec fn children_are(cs: Seq<GroupChild>, vs: Seq<ChildView>) -> bool {
    cs.len() == vs.len() && forall|i: int| 0 <= i < cs.len() ==> #[trigger] child_is(cs[i], vs[i])
}

/// One symbol-table entry at `p` (name offset, object header, cache type,
/// reserved, 16 scratch bytes): the child when its name in `heap` is not empty.
pub open spec fn spec_snod_entry(d: Seq<u8>, p: int, heap: Seq<u8>, osize: u8) -> Result<
    (Option<ChildView>, int),
> {
    match rd_le(d, p, osize as int) {
        Err(e) => Err(e),
        Ok((name_off, p)) => match rd_le(d, p, osize as int) {
            Err(e) => Err(e),
            Ok((ohdr, p)) => match rd_bytes(d, p, 24) {
                Err(e) => Err(e),
                Ok((_, p)) => match spec_cstr_from_heap(heap, name_off) {
                    Err(e) => Err(e),
                    Ok(name) => Ok((if name.len() != 0 { Some((name, ohdr)) } else { None }, p)),
                },
            },
        },
    }
}

/// `k` symbol-table entries from `p`, the children appended to `acc`.
pub open spec fn spec_snod_entries(
    d: Seq<u8>,
    p: int,
    k: nat,
    heap: Seq<u8>,
    osize: u8,
    acc: Seq<ChildView>,
) -> Result<Seq<ChildView>>
    decreases k,
{
    if k == 0 {
        Ok(acc)
    } else {
        match spec_snod_entry(d, p, heap, osize) {
            Err(e) => Err(e),
            Ok((c, p)) => spec_snod_entries(
                d,
                p,
                (k - 1) as nat,
                heap,
                osize,
                match c {
                    Some(v) => acc.push(v),
                    None => acc,
                },
            ),
        }
    }
}

fn read_snod_entry(r: &mut Reader, heap: &[u8]) -> (res: Result<Option<GroupChild>>)
    requires
        old(r)@.inv(),
    ensures
        final(r)@.inv(),
        match spec_snod_entry(old(r)@.data, old(r)@.pos, heap@, old(r)@.offset_size) {
            Ok((c, p)) => res matches Ok(x) && old(r)@.moved(final(r)@, p) && match c {
                Some(v) => x matches Some(g) && child_is(g, v),
                None => x is None,
            },
            Err(e) => res matches Err(e2) && e2 == e,
        },
{
    let name_off = r.addr()?;
    let ohdr = r.addr()?;
    let ghost p2 = r@.pos;
    let _cache = r.u32()?;
    r.u32()?;
    r.skip(16)?;
    assert(rd_bytes(old(r)@.data, p2, 24) matches Ok((_, q)) && q == r@.pos);
    let name = cstr_from_heap(heap, name_off)?;
    let ghost t = spec_cstr_from_heap(heap@, name_off)->Ok_0;
    let hl = heap.len();
    proof {
        vstd::utf8::decode_utf8_encode_utf8(t);
        let rest = heap@.subrange(name_off as int, heap@.len() as int);
        crate::messages::lemma_first_zero_bound(rest, 0);
        assert(t.len() <= hl);
    }
    let nm = name.as_str();
    assert(nm.spec_bytes() == t);
    let n = nm.len();
    assert(n == t.len());
    if n != 0 {
        Ok(Some(GroupChild { name, ohdr }))
    } else {
        Ok(None)
    }
}

/// Symbol-table node at `addr`: `SNOD`, version 1, reserved byte, number of
/// symbols, then the entries.
pub open spec fn spec_read_snod(d: Seq<u8>, addr: u64, heap: Seq<u8>, osize: u8, lsize: u8) -> Result<
    Seq<ChildView>,
> {
    if !size_ok(osize) {
        Err(HDF5Error::UnsupportedVersion(osize))
    } else if !size_ok(lsize) {
        Err(HDF5Error::UnsupportedVersion(lsize))
    } else if addr > d.len() {
        Err(HDF5Error::Truncated)
    } else {
        match rd_bytes(d, addr as int, 4) {
            Err(e) => Err(e),
            Ok((sig, p)) => if sig != HDF5_SNOD_SIGNATURE@ {
                Err(HDF5Error::InvalidHeader)
            } else {
                match rd_le(d, p, 1) {
                    Err(e) => Err(e),
                    Ok((ver, p)) => if ver != 1 {
                        Err(HDF5Error::UnsupportedVersion(ver as u8))
                    } else {
                        match rd_le(d, p, 1) {
                            Err(e) => Err(e),
                            Ok((_, p)) => match rd_le(d, p, 2) {
                                Err(e) => Err(e),
                                Ok((nsym, p)) => spec_snod_entries(d, p, nsym as nat, heap, osize, Seq::empty()),
                            },
                        }
                    },
                }
            },
        }
    }
}

fn read_snod(data: &[u8], addr: u64, heap: &[u8], offset_size: u8, length_size: u8) -> (res: Result<
    Vec<GroupChild>,
>)
    ensures
        match spec_read_snod(data@, addr, heap@, offset_size, length_size) {
            Ok(vs) => res matches Ok(cs) && children_are(cs@, vs),
            Err(e) => res matches Err(e2) && e2 == e,
        },
{
    let mut r = Reader::new(data, offset_size, length_size)?.at(addr)?;
    let sig = r.bytes(4)?;
    if !sig4_eq(sig, HDF5_SNOD_SIGNATURE) {
        return Err(HDF5Error::InvalidHeader);
    }
    let version = r.u8()?;
    if version != 1 {
        return Err(HDF5Error::UnsupportedVersion(version));
    }
    r.u8()?;
    let nsym = r.u16()? as usize;
    let ghost r0 = r@;
    let mut out: Vec<GroupChild> = Vec::new();
    let ghost acc: Seq<ChildView> = Seq::empty();
    let mut k: usize = nsym;
    while k > 0
        invariant
            r@.inv(),
            r0.moved(r@, r@.pos),
            r0.offset_size == offset_size,
            r0.data == data@,
            spec_read_snod(data@, addr, heap@, offset_size, length_size) == spec_snod_entries(
                r0.data,
                r0.pos,
                nsym as nat,
                heap@,
                offset_size,
                Seq::empty(),
            ),
            k <= nsym,
            children_are(out@, acc),
            spec_snod_entries(r0.data, r@.pos, k as nat, heap@, offset_size, acc) == spec_snod_entries(
                r0.data,
                r0.pos,
                nsym as nat,
                heap@,
                offset_size,
                Seq::empty(),
            ),
        decreases k,
    {
        let ghost p0 = r@.pos;
        let ghost old_out = out@;
        let c = read_snod_entry(&mut r, heap)?;
        match c {
            Some(g) => {
                let ghost v = match spec_snod_entry(r0.data, p0, heap@, offset_size) {
                    Ok((Some(v), _)) => v,
                    _ => arbitrary(),
                };
                out.push(g);
                proof {
                    let old_acc = acc;
                    acc = acc.push(v);
                    assert forall|i: int| 0 <= i < out@.len() implies #[trigger] child_is(
                        out@[i],
                        acc[i],
                    ) by {
                        if i < out@.len() - 1 {
                            assert(out@[i] == old_out[i]);
                            assert(acc[i] == old_acc[i]);
                        }
                    }
                }
            },
            None => {},
        }
        k = k - 1;
    }
    Ok(out)
}


/// Children lists concatenate.
pub proof fn lemma_children_append(
    a: Seq<GroupChild>,
    va: Seq<ChildView>,
    b: Seq<GroupChild>,
    vb: Seq<ChildView>,
)
    requires
        children_are(a, va),
        children_are(b, vb),
    ensures
        children_are(a + b, va + vb),
{
    assert forall|i: int| 0 <= i < (a + b).len() implies #[trigger] child_is((a + b)[i], (va + vb)[i]) by {
        if i < a.len() {
            assert(child_is(a[i], va[i]));
        } else {
            assert(child_is(b[i - a.len()], vb[i - a.len()]));
        }
    }
}

/// Version-1 group B-tree node at `addr`: `TREE`, node type 0, level, entries
/// used, sibling addresses, then `used` (key, child) pairs; children of
/// level-0 nodes are symbol-table nodes, of higher levels B-tree nodes one
/// level deeper. More than `HDF5_MAX_WALK_DEPTH` levels is an error.
pub open spec fn spec_walk_group(
    d: Seq<u8>,
    addr: u64,
    heap: Seq<u8>,
    osize: u8,
    lsize: u8,
    depth: nat,
) -> Result<Seq<ChildView>>
    decreases HDF5_MAX_WALK_DEPTH + 1 - depth, 1nat, 0nat,
{
    if depth > HDF5_MAX_WALK_DEPTH {
        Err(HDF5Error::InvalidHeader)
    } else if !size_ok(osize) {
        Err(HDF5Error::UnsupportedVersion(osize))
    } else if !size_ok(lsize) {
        Err(HDF5Error::UnsupportedVersion(lsize))
    } else if addr > d.len() {
        Err(HDF5Error::Truncated)
    } else {
        match rd_bytes(d, addr as int, 4) {
            Err(e) => Err(e),
            Ok((sig, p)) => if sig != HDF5_TREE_SIGNATURE@ {
                Err(HDF5Error::InvalidHeader)
            } else {
                match rd_le(d, p, 1) {
                    Err(e) => Err(e),
                    Ok((ty, p)) => if ty != HDF5_BTREE_GROUP {
                        Err(HDF5Error::InvalidHeader)
                    } else {
                        match rd_le(d, p, 1) {
                            Err(e) => Err(e),
                            Ok((level, p)) => match rd_le(d, p, 2) {
                                Err(e) => Err(e),
                                Ok((used, p)) => match rd_bytes(d, p, 2 * osize) {
                                    Err(e) => Err(e),
                                    Ok((_, p)) => spec_group_entries(
                                        d,
                                        p,
                                        used as nat,
                                        level as u8,
                                        heap,
                                        osize,
                                        lsize,
                                        depth,
                                        Seq::empty(),
                                    ),
                                },
                            },
                        }
                    },
                }
            },
        }
    }
}

/// `k` (key, child) pairs of a group B-tree node from `p`, children appended to `acc`.
pub open spec fn spec_group_entries(
    d: Seq<u8>,
    p: int,
    k: nat,
    level: u8,
    heap: Seq<u8>,
    osize: u8,
    lsize: u8,
    depth: nat,
    acc: Seq<ChildView>,
) -> Result<Seq<ChildView>>
    decreases HDF5_MAX_WALK_DEPTH + 1 - depth, 0nat, k,
{
    if k == 0 || depth > HDF5_MAX_WALK_DEPTH {
        Ok(acc)
    } else {
        match rd_le(d, p, lsize as int) {
            Err(e) => Err(e),
            Ok((_, p)) => match rd_le(d, p, osize as int) {
                Err(e) => Err(e),
                Ok((child, p)) => {
                    let sub = if level == 0 {
                        spec_read_snod(d, child, heap, osize, lsize)
                    } else {
                        spec_walk_group(d, child, heap, osize, lsize, depth + 1)
                    };
                    match sub {
                        Err(e) => Err(e),
                        Ok(cs) => spec_group_entries(
                            d,
                            p,
                            (k - 1) as nat,
                            level,
                            heap,
                            osize,
                            lsize,
                            depth,
                            acc + cs,
                        ),
                    }
                },
            },
        }
    }
}

/// Children of the old-style group whose B-tree is at `btree_addr`.
pub fn walk_group_btree(
    data: &[u8],
    btree_addr: u64,
    heap: &[u8],
    offset_size: u8,
    length_size: u8,
    depth: usize,
) -> (res: Result<Vec<GroupChild>>)
    ensures
        match spec_walk_group(data@, btree_addr, heap@, offset_size, length_size, depth as nat) {
            Ok(vs) => res matches Ok(cs) && children_are(cs@, vs),
            Err(e) => res matches Err(e2) && e2 == e,
        },
    decreases HDF5_MAX_WALK_DEPTH + 1 - depth,
{
    if depth > HDF5_MAX_WALK_DEPTH {
        return Err(HDF5Error::InvalidHeader);
    }
    let mut r = Reader::new(data, offset_size, length_size)?.at(btree_addr)?;
    let sig = r.bytes(4)?;
    if !sig4_eq(sig, HDF5_TREE_SIGNATURE) {
        return Err(HDF5Error::InvalidHeader);
    }
    let node_type = r.u8()?;
    if node_type != HDF5_BTREE_GROUP {
        return Err(HDF5Error::InvalidHeader);
    }
    let level = r.u8()?;
    let used = r.u16()? as usize;
    let ghost p_sib = r@.pos;
    let _left = r.addr()?;
    let _right = r.addr()?;
    assert(rd_bytes(data@, p_sib, 2 * offset_size) matches Ok((_, q)) && q == r@.pos);
    let ghost r0 = r@;
    let mut children: Vec<GroupChild> = Vec::new();
    let ghost acc: Seq<ChildView> = Seq::empty();
    let mut k: usize = used;
    while k > 0
        invariant
            r@.inv(),
            r0.moved(r@, r@.pos),
            r0.data == data@,
            r0.offset_size == offset_size,
            r0.length_size == length_size,
            depth <= HDF5_MAX_WALK_DEPTH,
            k <= used,
            children_are(children@, acc),
            spec_walk_group(data@, btree_addr, heap@, offset_size, length_size, depth as nat)
                == spec_group_entries(
                data@,
                r0.pos,
                used as nat,
                level,
                heap@,
                offset_size,
                length_size,
                depth as nat,
                Seq::empty(),
            ),
            spec_group_entries(
                data@,
                r@.pos,
                k as nat,
                level,
                heap@,
                offset_size,
                length_size,
                depth as nat,
                acc,
            ) == spec_group_entries(
                data@,
                r0.pos,
                used as nat,
                level,
                heap@,
                offset_size,
                length_size,
                depth as nat,
                Seq::empty(),
            ),
        decreases k,
    {
        let _key = r.length()?;
        let child = r.addr()?;
        let mut sub = if level == 0 {
            read_snod(data, child, heap, offset_size, length_size)?
        } else {
            walk_group_btree(data, child, heap, offset_size, length_size, depth + 1)?
        };
        let ghost vs = if level == 0 {
            spec_read_snod(data@, child, heap@, offset_size, length_size)->Ok_0
        } else {
            spec_walk_group(data@, child, heap@, offset_size, length_size, (depth + 1) as nat)->Ok_0
        };
        let ghost before = children@;
        let ghost sv = sub@;
        children.append(&mut sub);
        proof {
            lemma_children_append(before, acc, sv, vs);
            acc = acc + vs;
        }
        k = k - 1;
    }
    Ok(children)
}


/// Objects of a global heap collection from `p` to `end`: 2-byte index,
/// reference count, reserved, size, data padded to 8 bytes (when the padding is
/// present). The data of the object with index `index`; index 0 (free space)
/// or running out of objects is an error.
pub open spec fn spec_gheap_scan(d: Seq<u8>, p: int, end: int, index: u32, lsize: u8) -> Result<Seq<u8>>
    decreases d.len() - p,
{
    if p + 8 >= end {
        Err(HDF5Error::InvalidHeader)
    } else {
        match rd_le(d, p, 2) {
            Err(e) => Err(e),
            Ok((obj_index, p1)) => match rd_le(d, p1, 2) {
                Err(e) => Err(e),
                Ok((_, p2)) => match rd_le(d, p2, 4) {
                    Err(e) => Err(e),
                    Ok((_, p3)) => match rd_le(d, p3, lsize as int) {
                        Err(e) => Err(e),
                        Ok((sz, p4)) => {
                            let obj_size = sz as usize;
                            match rd_bytes(d, p4, obj_size as int) {
                                Err(e) => Err(e),
                                Ok((payload, p5)) => {
                                    let pad = (8 - obj_size % 8) % 8;
                                    let p6 = if pad > 0 && d.len() - p5 >= pad {
                                        p5 + pad
                                    } else {
                                        p5
                                    };
                                    if obj_index == index {
                                        Ok(payload)
                                    } else if obj_index == 0 {
                                        Err(HDF5Error::InvalidHeader)
                                    } else {
                                        spec_gheap_scan(d, p6, end, index, lsize)
                                    }
                                },
                            }
                        },
                    },
                },
            },
        }
    }
}

/// Object `index` of the global heap collection at `collection`: `GCOL`,
/// version 1, 3 reserved bytes, collection size, then the objects up to the end
/// of the collection (or of the file).
pub open spec fn spec_read_gheap(d: Seq<u8>, collection: u64, index: u32, osize: u8, lsize: u8) -> Result<
    Seq<u8>,
> {
    if !size_ok(osize) {
        Err(HDF5Error::UnsupportedVersion(osize))
    } else if !size_ok(lsize) {
        Err(HDF5Error::UnsupportedVersion(lsize))
    } else if collection > d.len() {
        Err(HDF5Error::Truncated)
    } else {
        match rd_bytes(d, collection as int, 4) {
            Err(e) => Err(e),
            Ok((sig, p)) => if sig != HDF5_GCOL_SIGNATURE@ {
                Err(HDF5Error::InvalidHeader)
            } else {
                match rd_le(d, p, 1) {
                    Err(e) => Err(e),
                    Ok((ver, p)) => if ver != 1 {
                        Err(HDF5Error::UnsupportedVersion(ver as u8))
                    } else {
                        match rd_bytes(d, p, 3) {
                            Err(e) => Err(e),
                            Ok((_, p)) => match rd_le(d, p, lsize as int) {
                                Err(e) => Err(e),
                                Ok((cs, p)) => {
                                    let stop = collection + (cs as usize);
                                    let end = if stop < d.len() { stop } else { d.len() as int };
                                    spec_gheap_scan(d, p, end, index, lsize)
                                },
                            },
                        }
                    },
                }
            },
        }
    }
}

/// Data of object `index` in the global heap collection at `collection`.
#[verifier::rlimit(50)]
pub fn read_gheap_object(data: &[u8], collection: u64, index: u32, offset_size: u8, length_size: u8) -> (res:
    Result<Vec<u8>>)
    ensures
        match spec_read_gheap(data@, collection, index, offset_size, length_size) {
            Ok(s) => res matches Ok(v) && v@ == s,
            Err(e) => res matches Err(e2) && e2 == e,
        },
{
    let mut r = Reader::new(data, offset_size, length_size)?.at(collection)?;
    let sig = r.bytes(4)?;
    if !sig4_eq(sig, HDF5_GCOL_SIGNATURE) {
        return Err(HDF5Error::InvalidHeader);
    }
    let version = r.u8()?;
    if version != 1 {
        return Err(HDF5Error::UnsupportedVersion(version));
    }
    r.skip(3)?;
    let col_size = r.length()? as usize;
    let start = collection as usize;
    let stop = start.saturating_add(col_size);
    let end = if stop < data.len() { stop } else { data.len() };
    let ghost r0 = r@;
    while r.pos() < end && end - r.pos() > 8
        invariant
            r@.inv(),
            r0.moved(r@, r@.pos),
            r0.data == data@,
            r0.length_size == length_size,
            end <= data@.len(),
            spec_read_gheap(data@, collection, index, offset_size, length_size) == spec_gheap_scan(
                data@,
                r@.pos,
                end as int,
                index,
                length_size,
            ),
        decreases data@.len() - r@.pos,
    {
        let obj_index = r.u16()? as u32;
        let _refcnt = r.u16()?;
        r.u32()?;
        let obj_size = r.length()? as usize;
        let payload = vstd::slice::slice_to_vec(r.bytes(obj_size)?);
        let pad = (8 - (obj_size % 8)) % 8;
        if pad > 0 && r.remaining() >= pad {
            r.skip(pad)?;
        }
        if obj_index == index {
            return Ok(payload);
        }
        if obj_index == 0 {
            return Err(HDF5Error::InvalidHeader);
        }
    }
    Err(HDF5Error::InvalidHeader)
}

/// One chunk of a chunked dataset, as its B-tree leaf records it.
pub struct ChunkRec {
    /// Stored size of the chunk in bytes.
    pub size: u32,
    /// Filters skipped for this chunk.
    pub filter_mask: u32,
    /// Element offset of the chunk in each dimension.
    pub offset: Vec<u64>,
    /// Address of the chunk's bytes.
    pub addr: u64,
}

/// Abstract value of a [`ChunkRec`].
pub struct ChunkView {
    /// Stored size in bytes.
    pub size: u32,
    /// Filter mask.
    pub filter_mask: u32,
    /// Element offsets.
    pub offset: Seq<u64>,
    /// Address of the bytes.
    pub addr: u64,
}

impl View for ChunkRec {
    type V = ChunkView;

    open spec fn view(&self) -> ChunkView {
        ChunkView { size: self.size, filter_mask: self.filter_mask, offset: self.offset@, addr: self.addr }
    }
}

/// Chunk records by their views.
pub open spec fn chunks_view(s: Seq<ChunkRec>) -> Seq<ChunkView> {
    s.map_values(|c: ChunkRec| c@)
}

/// Chunk B-tree node at `addr`: `TREE`, node type 1, level, entries used,
/// two sibling addresses, then the entries; each entry is a key (chunk size,
/// filter mask, `ndims` 8-byte offsets) and a child address: a chunk at
/// level 0, a lower node otherwise. The chunks in key order.
pub open spec fn spec_walk_chunks(
    d: Seq<u8>,
    addr: u64,
    ndims: nat,
    osize: u8,
    lsize: u8,
    depth: nat,
) -> Result<Seq<ChunkView>>
    decreases HDF5_MAX_WALK_DEPTH + 1 - depth, 1nat, 0nat,
{
    if depth > HDF5_MAX_WALK_DEPTH {
        Err(HDF5Error::InvalidHeader)
    } else if !size_ok(osize) {
        Err(HDF5Error::UnsupportedVersion(osize))
    } else if !size_ok(lsize) {
        Err(HDF5Error::UnsupportedVersion(lsize))
    } else if addr > d.len() {
        Err(HDF5Error::Truncated)
    } else {
        match rd_bytes(d, addr as int, 4) {
            Err(e) => Err(e),
            Ok((sig, p)) => if sig != HDF5_TREE_SIGNATURE@ {
                Err(HDF5Error::InvalidHeader)
            } else {
                match rd_le(d, p, 1) {
                    Err(e) => Err(e),
                    Ok((ty, p)) => if ty != HDF5_BTREE_CHUNK {
                        Err(HDF5Error::InvalidHeader)
                    } else {
                        match rd_le(d, p, 1) {
                            Err(e) => Err(e),
                            Ok((level, p)) => match rd_le(d, p, 2) {
                                Err(e) => Err(e),
                                Ok((used, p)) => match rd_bytes(d, p, 2 * osize) {
                                    Err(e) => Err(e),
                                    Ok((_, p)) => spec_chunk_entries(
                                        d,
                                        p,
                                        used as nat,
                                        level as u8,
                                        ndims,
                                        osize,
                                        lsize,
                                        depth,
                                        Seq::empty(),
                                    ),
                                },
                            },
                        }
                    },
                }
            },
        }
    }
}

/// The remaining `k` entries of a chunk B-tree node from `p`, after `acc`.
pub open spec fn spec_chunk_entries(
    d: Seq<u8>,
    p: int,
    k: nat,
    level: u8,
    ndims: nat,
    osize: u8,
    lsize: u8,
    depth: nat,
    acc: Seq<ChunkView>,
) -> Result<Seq<ChunkView>>
    decreases HDF5_MAX_WALK_DEPTH + 1 - depth, 0nat, k,
{
    if k == 0 || depth > HDF5_MAX_WALK_DEPTH {
        Ok(acc)
    } else {
        match rd_le(d, p, 4) {
            Err(e) => Err(e),
            Ok((size, p)) => match rd_le(d, p, 4) {
                Err(e) => Err(e),
                Ok((mask, p)) => match rd_lengths(d, p, ndims, 8) {
                    Err(e) => Err(e),
                    Ok((offset, p)) => match rd_le(d, p, osize as int) {
                        Err(e) => Err(e),
                        Ok((child, p)) => {
                            let sub = if level == 0 {
                                Ok(
                                    seq![
                                        ChunkView {
                                            size: size as u32,
                                            filter_mask: mask as u32,
                                            offset,
                                            addr: child,
                                        },
                                    ],
                                )
                            } else {
                                spec_walk_chunks(d, child, ndims, osize, lsize, depth + 1)
                            };
                            match sub {
                                Err(e) => Err(e),
                                Ok(cs) => spec_chunk_entries(
                                    d,
                                    p,
                                    (k - 1) as nat,
                                    level,
                                    ndims,
                                    osize,
                                    lsize,
                                    depth,
                                    acc + cs,
                                ),
                            }
                        },
                    },
                },
            },
        }
    }
}

/// Read `n` 8-byte little-endian values with the reader.
fn read_u64s(r: &mut Reader, n: usize) -> (res: Result<Vec<u64>>)
    requires
        old(r)@.inv(),
    ensures
        final(r)@.inv(),
        match rd_lengths(old(r)@.data, old(r)@.pos, n as nat, 8) {
            Ok((s, p)) => res matches Ok(v) && v@ == s && old(r)@.moved(final(r)@, p),
            Err(e) => res == Err::<Vec<u64>, HDF5Error>(e),
        },
{
    let ghost r0 = r@;
    let mut out: Vec<u64> = Vec::new();
    let mut i: usize = 0;
    while i < n
        invariant
            i <= n,
            r@.inv(),
            rd_lengths(r0.data, r0.pos, i as nat, 8) == Ok::<(Seq<u64>, int), HDF5Error>((out@, r@.pos)),
            r0.moved(r@, r@.pos),
            r0 == old(r)@,
        decreases n - i,
    {
        let v = match r.u64() {
            Ok(v) => v,
            Err(e) => {
                proof {
                    assert(rd_lengths(r0.data, r0.pos, (i + 1) as nat, 8) == Err::<(Seq<u64>, int), HDF5Error>(e));
                    lemma_rd_lengths_err_stable(r0.data, r0.pos, (i + 1) as nat, n as nat, 8);
                }
                return Err(e);
            },
        };
        out.push(v);
        i = i + 1;
    }
    Ok(out)
}

/// The chunks indexed by the chunk B-tree at `btree_addr`, in key order.
pub fn walk_chunk_btree(
    data: &[u8],
    btree_addr: u64,
    ndims: usize,
    offset_size: u8,
    length_size: u8,
    depth: usize,
) -> (res: Result<Vec<ChunkRec>>)
    ensures
        match spec_walk_chunks(data@, btree_addr, ndims as nat, offset_size, length_size, depth as nat) {
            Ok(vs) => res matches Ok(cs) && chunks_view(cs@) == vs,
            Err(e) => res matches Err(e2) && e2 == e,
        },
    decreases HDF5_MAX_WALK_DEPTH + 1 - depth,
{
    if depth > HDF5_MAX_WALK_DEPTH {
        return Err(HDF5Error::InvalidHeader);
    }
    let mut r = Reader::new(data, offset_size, length_size)?.at(btree_addr)?;
    let sig = r.bytes(4)?;
    if !sig4_eq(sig, HDF5_TREE_SIGNATURE) {
        return Err(HDF5Error::InvalidHeader);
    }
    let node_type = r.u8()?;
    if node_type != HDF5_BTREE_CHUNK {
        return Err(HDF5Error::InvalidHeader);
    }
    let level = r.u8()?;
    let used = r.u16()? as usize;
    let ghost p_sib = r@.pos;
    let _left = r.addr()?;
    let _right = r.addr()?;
    assert(rd_bytes(data@, p_sib, 2 * offset_size) matches Ok((_, q)) && q == r@.pos);
    let ghost r0 = r@;
    let mut chunks: Vec<ChunkRec> = Vec::new();
    let ghost acc: Seq<ChunkView> = Seq::empty();
    let mut k: usize = used;
    while k > 0
        invariant
            r@.inv(),
            r0.moved(r@, r@.pos),
            r0.data == data@,
            r0.offset_size == offset_size,
            r0.length_size == length_size,
            depth <= HDF5_MAX_WALK_DEPTH,
            k <= used,
            chunks_view(chunks@) == acc,
            spec_walk_chunks(data@, btree_addr, ndims as nat, offset_size, length_size, depth as nat)
                == spec_chunk_entries(
                data@,
                r0.pos,
                used as nat,
                level,
                ndims as nat,
                offset_size,
                length_size,
                depth as nat,
                Seq::empty(),
            ),
            spec_chunk_entries(
                data@,
                r@.pos,
                k as nat,
                level,
                ndims as nat,
                offset_size,
                length_size,
                depth as nat,
                acc,
            ) == spec_chunk_entries(
                data@,
                r0.pos,
                used as nat,
                level,
                ndims as nat,
                offset_size,
                length_size,
                depth as nat,
                Seq::empty(),
            ),
        decreases k,
    {
        let size = r.u32()?;
        let mask = r.u32()?;
        let offset = read_u64s(&mut r, ndims)?;
        let child = r.addr()?;
        if level == 0 {
            let ghost before = chunks@;
            let c = ChunkRec { size, filter_mask: mask, offset, addr: child };
            let ghost cv = c@;
            chunks.push(c);
            proof {
                assert(chunks_view(chunks@) =~= chunks_view(before) + seq![cv]);
                acc = acc + seq![cv];
            }
        } else {
            let mut sub = walk_chunk_btree(data, child, ndims, offset_size, length_size, depth + 1)?;
            let ghost before = chunks@;
            let ghost sv = sub@;
            chunks.append(&mut sub);
            proof {
                assert(chunks_view(chunks@) =~= chunks_view(before) + chunks_view(sv));
                acc = acc + chunks_view(sv);
            }
        }
        k = k - 1;
    }
    Ok(chunks)
}

} // verus!
