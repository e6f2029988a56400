//! Serialize a [`FileModel`] to a superblock-v2 HDF5 image.
//!
//! Layout: the superblock, then every dataset's payload, every dataset's
//! object header, and every group's object header (deepest groups first),
//! each at the next multiple of 8.
use crate::table::sorted_keys;
use vstd::prelude::*;

use crate::buf::{le_bytes, push_u32, push_u64};
use crate::consts::{
    HDF5_LAYOUT_CHUNKED, HDF5_LAYOUT_VERSION, HDF5_UNDEF_ADDR_8, HDF5_MSG_ATTRIBUTE, HDF5_MSG_DATASPACE,
    HDF5_MSG_DATATYPE, HDF5_MSG_FILL, HDF5_MSG_FLAG_CONSTANT, HDF5_MSG_GROUP_INFO, HDF5_MSG_LAYOUT,
    HDF5_MSG_LINK, HDF5_MSG_LINK_INFO,
};
use crate::error::{HDF5Error, Result};
use crate::messages::{
    encode_dataspace, encode_fill, encode_group_info, encode_hard_link_bytes, encode_ieee_f32le,
    encode_ieee_f64le, encode_integer, encode_layout_contiguous, encode_link_info, encode_opaque,
    encode_string_attr, extend_bytes, spec_dataspace, spec_fill, spec_group_info, spec_hard_link,
    spec_ieee_f32le, spec_ieee_f64le, spec_integer, spec_layout_contiguous, spec_link_info, spec_opaque,
    spec_string_attr,
};
use crate::model::{
    attrs_view, groups_view, kids_view, DTypeKind, DatasetRec, DatasetView, FileModel, ModelView,
};
use crate::ohdr::{encode_ohdr_v2, msg_views, spec_ohdr_v2, MsgView, RawMsg};
use crate::paths::slash;
use crate::superblock::{encode_v2, spec_superblock_v2};
use crate::table::{
    count_lt, find, has_key, keys, lemma_count_lt, put, put_entry, table_find, table_put, table_view,
};
use vstd::pervasive::VecAdditionalExecFns;
use vstd::string::StringSliceAdditionalSpecFns;
use vstd::utf8::encode_utf8;

verus! {

/// `img` followed by the zero bytes that bring its length to a multiple of 8.
pub open spec fn align_img(img: Seq<u8>) -> Seq<u8> {
    img + Seq::new(((8 - img.len() % 8) % 8) as nat, |i: int| 0u8)
}

/// A message of type `ty` with `flags` and `body`.
pub open spec fn msg(ty: u8, flags: u8, body: Seq<u8>) -> MsgView {
    MsgView { ty, flags, body }
}

/// Datatype message body written for a kind; none for kinds this crate does not write.
pub open spec fn spec_dtype_body(k: DTypeKind) -> Option<Seq<u8>> {
    match k {
        DTypeKind::Float64 => Some(spec_ieee_f64le()),
        DTypeKind::Float32 => Some(spec_ieee_f32le()),
        DTypeKind::Int8 => Some(spec_integer(1, true)),
        DTypeKind::Int16 => Some(spec_integer(2, true)),
        DTypeKind::Int32 => Some(spec_integer(4, true)),
        DTypeKind::Int64 => Some(spec_integer(8, true)),
        DTypeKind::UInt8 => Some(spec_integer(1, false)),
        DTypeKind::UInt16 => Some(spec_integer(2, false)),
        DTypeKind::UInt32 => Some(spec_integer(4, false)),
        DTypeKind::UInt64 => Some(spec_integer(8, false)),
        DTypeKind::Opaque(n) => Some(spec_opaque(n as u32)),
        DTypeKind::Other { .. } => None,
    }
}

/// Attribute messages for string attributes `a`, in order.
pub open spec fn spec_attr_msgs(a: Seq<(Seq<char>, Seq<char>)>) -> Result<Seq<MsgView>>
    decreases a.len(),
{
    if a.len() == 0 {
        Ok(Seq::empty())
    } else {
        match spec_attr_msgs(a.drop_last()) {
            Err(e) => Err(e),
            Ok(ms) => match spec_string_attr(encode_utf8(a.last().0), encode_utf8(a.last().1)) {
                Err(e) => Err(e),
                Ok(b) => Ok(ms.push(msg(HDF5_MSG_ATTRIBUTE, 0, b))),
            },
        }
    }
}

/// Object header of a dataset whose payload is at `addr`: dataspace (first
/// dimension unlimited), datatype, fill value, contiguous layout, then its
/// string attributes. Filtered or chunked records, and kinds this crate does
/// not write, are errors.
pub open spec fn spec_dataset_ohdr(ds: DatasetView, addr: u64) -> Result<Seq<u8>> {
    if ds.filtered {
        Err(HDF5Error::FilteredNotSupported)
    } else if ds.chunked {
        Err(HDF5Error::ChunkedNotSupported)
    } else {
        match spec_dataspace(ds.shape, true) {
            Err(e) => Err(e),
            Ok(space) => match spec_dtype_body(ds.kind) {
                None => Err(HDF5Error::UnsupportedDtype),
                Some(dt) => match spec_attr_msgs(ds.attrs) {
                    Err(e) => Err(e),
                    Ok(am) => Ok(
                        spec_ohdr_v2(
                            seq![
                                msg(HDF5_MSG_DATASPACE, HDF5_MSG_FLAG_CONSTANT, space),
                                msg(HDF5_MSG_DATATYPE, HDF5_MSG_FLAG_CONSTANT, dt),
                                msg(HDF5_MSG_FILL, 0, spec_fill()),
                                msg(HDF5_MSG_LAYOUT, 0, spec_layout_contiguous(addr, ds.data.len() as u64)),
                            ] + am,
                        ),
                    ),
                },
            },
        }
    }
}

/// Image after placing the payloads of `ds`, each at the next multiple of 8,
/// and their addresses.
pub open spec fn spec_place_data(img: Seq<u8>, ds: Seq<(Seq<u8>, DatasetView)>) -> (Seq<u8>, Seq<u64>)
    decreases ds.len(),
{
    if ds.len() == 0 {
        (img, Seq::empty())
    } else {
        let (i1, a1) = spec_place_data(img, ds.drop_last());
        let p = align_img(i1);
        (p + ds.last().1.data, a1.push(p.len() as u64))
    }
}

/// Image and address table after placing the object headers of `ds`, whose
/// payloads are at `addrs`.
pub open spec fn spec_place_ds_ohdrs(
    img: Seq<u8>,
    tbl: Seq<(Seq<u8>, u64)>,
    ds: Seq<(Seq<u8>, DatasetView)>,
    addrs: Seq<u64>,
) -> Result<(Seq<u8>, Seq<(Seq<u8>, u64)>)>
    decreases ds.len(),
{
    if ds.len() == 0 {
        Ok((img, tbl))
    } else {
        match spec_place_ds_ohdrs(img, tbl, ds.drop_last(), addrs) {
            Err(e) => Err(e),
            Ok((i1, t1)) => match spec_dataset_ohdr(ds.last().1, addrs[ds.len() - 1]) {
                Err(e) => Err(e),
                Ok(b) => {
                    let p = align_img(i1);
                    Ok((p + b, put(t1, ds.last().0, p.len() as u64)))
                },
            },
        }
    }
}

/// Number of `/` bytes in `p`.
pub open spec fn slash_count(p: Seq<u8>) -> nat
    decreases p.len(),
{
    if p.len() == 0 {
        0
    } else {
        slash_count(p.drop_last()) + if p.last() == slash() {
            1nat
        } else {
            0nat
        }
    }
}

/// Depth of a group path: the root is 0, each component adds one.
pub open spec fn depth_of(p: Seq<u8>) -> nat {
    slash_count(p) + if p.len() > 0 {
        1nat
    } else {
        0nat
    }
}

/// The paths of `ks` at depth `d`, in order.
pub open spec fn at_depth(ks: Seq<Seq<u8>>, d: nat) -> Seq<Seq<u8>>
    decreases ks.len(),
{
    if ks.len() == 0 {
        Seq::empty()
    } else if depth_of(ks.last()) == d {
        at_depth(ks.drop_last(), d).push(ks.last())
    } else {
        at_depth(ks.drop_last(), d)
    }
}

/// Greatest depth among `ks` (0 for none).
pub open spec fn max_depth(ks: Seq<Seq<u8>>) -> nat
    decreases ks.len(),
{
    if ks.len() == 0 {
        0
    } else if depth_of(ks.last()) > max_depth(ks.drop_last()) {
        depth_of(ks.last())
    } else {
        max_depth(ks.drop_last())
    }
}

/// Paths of `ks` from depth `d` down to the root, each depth in order.
pub open spec fn depth_order(ks: Seq<Seq<u8>>, d: int) -> Seq<Seq<u8>>
    decreases d + 1,
{
    if d < 0 {
        Seq::empty()
    } else {
        at_depth(ks, d as nat) + depth_order(ks, d - 1)
    }
}

/// Order in which group headers are written: deepest first, ties in path order.
pub open spec fn group_order(ks: Seq<Seq<u8>>) -> Seq<Seq<u8>> {
    depth_order(ks, max_depth(ks) as int)
}

/// Path of child `name` of group `g`.
pub open spec fn kid_path(g: Seq<u8>, name: Seq<u8>) -> Seq<u8> {
    if g.len() == 0 {
        name
    } else {
        g + seq![slash()] + name
    }
}

/// Link messages to the children `kids` of group `g`, whose headers are
/// found in `tbl`; a child without a header is an error.
pub open spec fn spec_link_msgs(tbl: Seq<(Seq<u8>, u64)>, g: Seq<u8>, kids: Seq<Seq<u8>>) -> Result<
    Seq<MsgView>,
>
    decreases kids.len(),
{
    if kids.len() == 0 {
        Ok(Seq::empty())
    } else {
        match spec_link_msgs(tbl, g, kids.drop_last()) {
            Err(e) => Err(e),
            Ok(ms) => match find(tbl, kid_path(g, kids.last())) {
                None => Err(HDF5Error::InvalidHeader),
                Some(a) => match spec_hard_link(kids.last(), a) {
                    Err(e) => Err(e),
                    Ok(b) => Ok(ms.push(msg(HDF5_MSG_LINK, 0, b))),
                },
            },
        }
    }
}

/// Object header of group `g`: link info, group info, then a hard link per child.
pub open spec fn spec_group_ohdr(tbl: Seq<(Seq<u8>, u64)>, g: Seq<u8>, kids: Seq<Seq<u8>>) -> Result<Seq<u8>> {
    match spec_link_msgs(tbl, g, kids) {
        Err(e) => Err(e),
        Ok(links) => Ok(
            spec_ohdr_v2(
                seq![msg(HDF5_MSG_LINK_INFO, 0, spec_link_info()), msg(HDF5_MSG_GROUP_INFO, 0, spec_group_info())]
                    + links,
            ),
        ),
    }
}

/// Image and address table after placing the headers of the groups `order`.
pub open spec fn spec_place_groups(
    img: Seq<u8>,
    tbl: Seq<(Seq<u8>, u64)>,
    groups: Seq<(Seq<u8>, Seq<Seq<u8>>)>,
    order: Seq<Seq<u8>>,
) -> Result<(Seq<u8>, Seq<(Seq<u8>, u64)>)>
    decreases order.len(),
{
    if order.len() == 0 {
        Ok((img, tbl))
    } else {
        match spec_place_groups(img, tbl, groups, order.drop_last()) {
            Err(e) => Err(e),
            Ok((i1, t1)) => match find(groups, order.last()) {
                None => Err(HDF5Error::InvalidHeader),
                Some(kids) => match spec_group_ohdr(t1, order.last(), kids) {
                    Err(e) => Err(e),
                    Ok(b) => {
                        let p = align_img(i1);
                        Ok((p + b, put(t1, order.last(), p.len() as u64)))
                    },
                },
            },
        }
    }
}

/// The file image of a graph: payloads, dataset headers and group headers
/// placed after a 48-byte superblock that names the root group's header and
/// the end of the file.
pub open spec fn spec_encode(m: ModelView) -> Result<Seq<u8>> {
    let start = Seq::new(48, |i: int| 0u8);
    let (img1, addrs) = spec_place_data(start, m.datasets);
    match spec_place_ds_ohdrs(img1, Seq::empty(), m.datasets, addrs) {
        Err(e) => Err(e),
        Ok((img2, t2)) => match spec_place_groups(img2, t2, m.groups, group_order(keys(m.groups))) {
            Err(e) => Err(e),
            Ok((img3, t3)) => match find(t3, Seq::empty()) {
                None => Err(HDF5Error::InvalidHeader),
                Some(root) => Ok(
                    spec_superblock_v2(root, img3.len() as u64) + img3.subrange(48, img3.len() as int),
                ),
            },
        },
    }
}

/// Pad `img` with zeros to a multiple of 8.
fn align_vec(img: &mut Vec<u8>)
    ensures
        final(img)@ == align_img(old(img)@),
{
    let need = (8 - img.len() % 8) % 8;
    let mut k: usize = 0;
    while k < need
        invariant
            k <= need,
            need == (8 - old(img)@.len() % 8) % 8,
            img@ =~= old(img)@ + Seq::new(k as nat, |i: int| 0u8),
        decreases need - k,
    {
        img.push(0);
        k = k + 1;
    }
}

/// Datatype message body for a kind.
fn dtype_body(k: DTypeKind) -> (res: Option<Vec<u8>>)
    ensures
        match spec_dtype_body(k) {
            Some(b) => res matches Some(v) && v@ == b,
            None => res is None,
        },
{
    match k {
        DTypeKind::Float64 => Some(encode_ieee_f64le()),
        DTypeKind::Float32 => Some(encode_ieee_f32le()),
        DTypeKind::Int8 => Some(encode_integer(1, true)),
        DTypeKind::Int16 => Some(encode_integer(2, true)),
        DTypeKind::Int32 => Some(encode_integer(4, true)),
        DTypeKind::Int64 => Some(encode_integer(8, true)),
        DTypeKind::UInt8 => Some(encode_integer(1, false)),
        DTypeKind::UInt16 => Some(encode_integer(2, false)),
        DTypeKind::UInt32 => Some(encode_integer(4, false)),
        DTypeKind::UInt64 => Some(encode_integer(8, false)),
        DTypeKind::Opaque(n) => Some(encode_opaque(n as u32)),
        DTypeKind::Other { .. } => None,
    }
}

/// Object header of dataset `ds` whose payload is at `addr`.
#[verifier::rlimit(30)]
fn dataset_ohdr(ds: &DatasetRec, addr: u64) -> (res: Result<Vec<u8>>)
    ensures
        match spec_dataset_ohdr(ds@, addr) {
            Ok(b) => res matches Ok(v) && v@ == b,
            Err(e) => res == Err::<Vec<u8>, HDF5Error>(e),
        },
{
    if ds.filtered {
        return Err(HDF5Error::FilteredNotSupported);
    }
    if ds.chunked {
        return Err(HDF5Error::ChunkedNotSupported);
    }
    let mut msgs: Vec<RawMsg> = Vec::new();
    let space = encode_dataspace(ds.shape.as_slice(), true)?;
    let ghost sv = space@;
    msgs.push(RawMsg { ty: HDF5_MSG_DATASPACE, flags: HDF5_MSG_FLAG_CONSTANT, body: space });
    let dtype = match dtype_body(ds.kind) {
        Some(b) => b,
        None => return Err(HDF5Error::UnsupportedDtype),
    };
    let ghost dv = dtype@;
    msgs.push(RawMsg { ty: HDF5_MSG_DATATYPE, flags: HDF5_MSG_FLAG_CONSTANT, body: dtype });
    msgs.push(RawMsg { ty: HDF5_MSG_FILL, flags: 0, body: encode_fill() });
    msgs.push(
        RawMsg {
            ty: HDF5_MSG_LAYOUT,
            flags: 0,
            body: encode_layout_contiguous(addr, ds.data.len() as u64),
        },
    );
    let ghost head = msg_views(msgs@);
    assert(head =~= seq![
        msg(HDF5_MSG_DATASPACE, HDF5_MSG_FLAG_CONSTANT, sv),
        msg(HDF5_MSG_DATATYPE, HDF5_MSG_FLAG_CONSTANT, dv),
        msg(HDF5_MSG_FILL, 0, spec_fill()),
        msg(HDF5_MSG_LAYOUT, 0, spec_layout_contiguous(addr, ds@.data.len() as u64)),
    ]);
    let ghost a = attrs_view(ds.attrs@);
    let mut i: usize = 0;
    assert(a.take(0) =~= Seq::<(Seq<char>, Seq<char>)>::empty());
    assert(msg_views(msgs@) =~= head + Seq::<MsgView>::empty());
    assert(spec_dataset_ohdr(ds@, addr) == match spec_attr_msgs(a) {
        Err(e) => Err(e),
        Ok(am) => Ok(spec_ohdr_v2(head + am)),
    });
    while i < ds.attrs.len()
        invariant
            i <= ds.attrs@.len(),
            a == attrs_view(ds.attrs@),
            spec_dataset_ohdr(ds@, addr) == match spec_attr_msgs(a) {
                Err(e) => Err(e),
                Ok(am) => Ok::<Seq<u8>, HDF5Error>(spec_ohdr_v2(head + am)),
            },
            spec_attr_msgs(a.take(i as int)) matches Ok(am) && msg_views(msgs@) == head + am,
        decreases ds.attrs@.len() - i,
    {
        proof {
            assert(a.take(i + 1).drop_last() =~= a.take(i as int));
        }
        let body = match encode_string_attr(ds.attrs[i].0.as_str(), ds.attrs[i].1.as_str()) {
            Ok(b) => b,
            Err(e) => {
                proof {
                    lemma_attr_msgs_err_stable(a, i + 1);
                }
                return Err(e);
            },
        };
        let ghost before = msgs@;
        msgs.push(RawMsg { ty: HDF5_MSG_ATTRIBUTE, flags: 0, body });
        proof {
            let am = spec_attr_msgs(a.take(i as int))->Ok_0;
            assert(msg_views(msgs@) =~= msg_views(before).push(msg(HDF5_MSG_ATTRIBUTE, 0, body@)));
            assert(msg_views(msgs@) =~= head + am.push(msg(HDF5_MSG_ATTRIBUTE, 0, body@)));
        }
        i = i + 1;
    }
    proof {
        assert(a.take(ds.attrs@.len() as int) =~= a);
    }
    Ok(encode_ohdr_v2(msgs.as_slice()))
}

/// Once the attribute messages of a prefix fail, those of the whole list fail the same way.
proof fn lemma_attr_msgs_err_stable(a: Seq<(Seq<char>, Seq<char>)>, k: int)
    requires
        0 <= k <= a.len(),
        spec_attr_msgs(a.take(k)) is Err,
    ensures
        spec_attr_msgs(a) == spec_attr_msgs(a.take(k)),
    decreases a.len() - k,
{
    if k < a.len() {
        assert(a.take(k + 1).drop_last() =~= a.take(k));
        lemma_attr_msgs_err_stable(a, k + 1);
    } else {
        assert(a.take(k) =~= a);
    }
}

/// Storing into a raw address table stores into its view.
proof fn lemma_addr_put(t: Seq<(Vec<u8>, u64)>, k: Vec<u8>, v: u64)
    ensures
        table_view(put_entry(t, k, v)) == put(table_view(t), k@, v),
{
    lemma_count_lt(table_view(t), k@);
    let c = count_lt(table_view(t), k@) as int;
    if has_key(table_view(t), k@) {
        assert(table_view(put_entry(t, k, v)) =~= table_view(t).update(c, (k@, v)));
    } else {
        assert(table_view(put_entry(t, k, v)) =~= table_view(t).insert(c, (k@, v)));
    }
}

/// Path of child `name` of group `g`.
fn join_kid(g: &[u8], name: &[u8]) -> (v: Vec<u8>)
    ensures
        v@ == kid_path(g@, name@),
{
    if g.len() == 0 {
        return vstd::slice::slice_to_vec(name);
    }
    let mut v = vstd::slice::slice_to_vec(g);
    v.push(0x2f);
    extend_bytes(&mut v, name);
    v
}

/// Object header of group `g` with children `kids`.
fn group_ohdr(tbl: &Vec<(Vec<u8>, u64)>, g: &[u8], kids: &Vec<Vec<u8>>) -> (res: Result<Vec<u8>>)
    ensures
        match spec_group_ohdr(table_view(tbl@), g@, kids_view(kids@)) {
            Ok(b) => res matches Ok(v) && v@ == b,
            Err(e) => res == Err::<Vec<u8>, HDF5Error>(e),
        },
{
    let ghost t = table_view(tbl@);
    let ghost kv = kids_view(kids@);
    let mut msgs: Vec<RawMsg> = Vec::new();
    msgs.push(RawMsg { ty: HDF5_MSG_LINK_INFO, flags: 0, body: encode_link_info() });
    msgs.push(RawMsg { ty: HDF5_MSG_GROUP_INFO, flags: 0, body: encode_group_info() });
    let ghost head = msg_views(msgs@);
    assert(head =~= seq![msg(HDF5_MSG_LINK_INFO, 0, spec_link_info()), msg(HDF5_MSG_GROUP_INFO, 0, spec_group_info())]);
    let mut i: usize = 0;
    assert(kv.take(0) =~= Seq::<Seq<u8>>::empty());
    assert(msg_views(msgs@) =~= head + Seq::<MsgView>::empty());
    while i < kids.len()
        invariant
            i <= kids@.len(),
            t == table_view(tbl@),
            kv == kids_view(kids@),
            spec_group_ohdr(t, g@, kv) == match spec_link_msgs(t, g@, kv) {
                Err(e) => Err(e),
                Ok(links) => Ok::<Seq<u8>, HDF5Error>(spec_ohdr_v2(head + links)),
            },
            spec_link_msgs(t, g@, kv.take(i as int)) matches Ok(ls) && msg_views(msgs@) == head + ls,
        decreases kids@.len() - i,
    {
        proof {
            assert(kv.take(i + 1).drop_last() =~= kv.take(i as int));
            assert(kv.take(i + 1).last() == kids@[i as int]@);
        }
        let cp = join_kid(g, kids[i].as_slice());
        let (c, found) = table_find(tbl, cp.as_slice());
        if !found {
            proof {
                lemma_link_msgs_err_stable(t, g@, kv, i + 1);
            }
            return Err(HDF5Error::InvalidHeader);
        }
        let a = tbl[c].1;
        let body = match encode_hard_link_bytes(kids[i].as_slice(), a) {
            Ok(b) => b,
            Err(e) => {
                proof {
                    lemma_link_msgs_err_stable(t, g@, kv, i + 1);
                }
                return Err(e);
            },
        };
        let ghost before = msgs@;
        let ghost bv = body@;
        msgs.push(RawMsg { ty: HDF5_MSG_LINK, flags: 0, body });
        proof {
            let ls = spec_link_msgs(t, g@, kv.take(i as int))->Ok_0;
            assert(msg_views(msgs@) =~= msg_views(before).push(msg(HDF5_MSG_LINK, 0, bv)));
            assert(msg_views(msgs@) =~= head + ls.push(msg(HDF5_MSG_LINK, 0, bv)));
        }
        i = i + 1;
    }
    proof {
        assert(kv.take(kids@.len() as int) =~= kv);
    }
    Ok(encode_ohdr_v2(msgs.as_slice()))
}

/// Once the link messages of a prefix of the children fail, those of all fail the same way.
proof fn lemma_link_msgs_err_stable(t: Seq<(Seq<u8>, u64)>, g: Seq<u8>, kids: Seq<Seq<u8>>, k: int)
    requires
        0 <= k <= kids.len(),
        spec_link_msgs(t, g, kids.take(k)) is Err,
    ensures
        spec_link_msgs(t, g, kids) == spec_link_msgs(t, g, kids.take(k)),
    decreases kids.len() - k,
{
    if k < kids.len() {
        assert(kids.take(k + 1).drop_last() =~= kids.take(k));
        lemma_link_msgs_err_stable(t, g, kids, k + 1);
    } else {
        assert(kids.take(k) =~= kids);
    }
}

/// At most one `/` per byte.
proof fn lemma_slash_count_bound(p: Seq<u8>)
    ensures
        slash_count(p) <= p.len(),
    decreases p.len(),
{
    if p.len() > 0 {
        lemma_slash_count_bound(p.drop_last());
    }
}

/// Depth of a group path.
fn path_depth(p: &[u8]) -> (d: u128)
    ensures
        d == depth_of(p@),
        d <= p@.len() + 1,
{
    let mut c: u128 = 0;
    let mut i: usize = 0;
    assert(p@.take(0) =~= Seq::<u8>::empty());
    while i < p.len()
        invariant
            i <= p@.len(),
            c == slash_count(p@.take(i as int)),
            c <= i,
        decreases p@.len() - i,
    {
        assert(p@.take(i + 1).drop_last() =~= p@.take(i as int));
        if p[i] == 0x2f {
            c = c + 1;
        }
        i = i + 1;
    }
    assert(p@.take(p@.len() as int) =~= p@);
    if p.len() > 0 {
        c + 1
    } else {
        c
    }
}

/// Group paths by their view.
pub open spec fn group_keys(groups: Seq<(Vec<u8>, Vec<Vec<u8>>)>) -> Seq<Seq<u8>> {
    keys(groups_view(groups))
}

/// Keys of the groups at the indices `order`.
pub open spec fn keys_at(groups: Seq<(Vec<u8>, Vec<Vec<u8>>)>, order: Seq<usize>) -> Seq<Seq<u8>> {
    order.map_values(|i: usize| groups[i as int].0@)
}

/// Indices of the groups in the order their headers are written.
fn group_order_idx(groups: &Vec<(Vec<u8>, Vec<Vec<u8>>)>) -> (order: Vec<usize>)
    ensures
        keys_at(groups@, order@) == group_order(group_keys(groups@)),
        forall|j: int| 0 <= j < order@.len() ==> #[trigger] order@[j] < groups@.len(),
{
    let ghost ks = group_keys(groups@);
    let n = groups.len();
    let mut depths: Vec<u128> = Vec::new();
    let mut maxd: u128 = 0;
    let mut i: usize = 0;
    assert(ks.take(0) =~= Seq::<Seq<u8>>::empty());
    while i < n
        invariant
            n == groups@.len(),
            ks == group_keys(groups@),
            i <= n,
            depths@.len() == i,
            forall|j: int| 0 <= j < i ==> #[trigger] depths@[j] == depth_of(ks[j]),
            maxd == max_depth(ks.take(i as int)),
            maxd <= usize::MAX + 1,
        decreases n - i,
    {
        assert(ks.take(i + 1).drop_last() =~= ks.take(i as int));
        assert(ks[i as int] == groups@[i as int].0@);
        let pl = groups[i].0.len();
        let d = path_depth(groups[i].0.as_slice());
        assert(d <= pl + 1);
        depths.push(d);
        if d > maxd {
            maxd = d;
        }
        i = i + 1;
    }
    assert(ks.take(n as int) =~= ks);
    let mut order: Vec<usize> = Vec::new();
    let mut e: u128 = 0;
    assert(keys_at(groups@, order@) =~= Seq::<Seq<u8>>::empty());
    while e <= maxd
        invariant
            n == groups@.len(),
            ks == group_keys(groups@),
            depths@.len() == n,
            forall|j: int| 0 <= j < n ==> #[trigger] depths@[j] == depth_of(ks[j]),
            maxd == max_depth(ks),
            maxd <= usize::MAX + 1,
            e <= maxd + 1,
            keys_at(groups@, order@) + depth_order(ks, maxd - e) == group_order(ks),
            forall|j: int| 0 <= j < order@.len() ==> #[trigger] order@[j] < n,
        decreases maxd + 1 - e,
    {
        let d = maxd - e;
        let ghost before = keys_at(groups@, order@);
        let mut k: usize = 0;
        assert(ks.take(0) =~= Seq::<Seq<u8>>::empty());
        assert(keys_at(groups@, order@) =~= before + at_depth(ks.take(0), d as nat));
        while k < n
            invariant
                n == groups@.len(),
                ks == group_keys(groups@),
                depths@.len() == n,
                forall|j: int| 0 <= j < n ==> #[trigger] depths@[j] == depth_of(ks[j]),
                k <= n,
                keys_at(groups@, order@) == before + at_depth(ks.take(k as int), d as nat),
                forall|j: int| 0 <= j < order@.len() ==> #[trigger] order@[j] < n,
            decreases n - k,
        {
            assert(ks.take(k + 1).drop_last() =~= ks.take(k as int));
            assert(ks.take(k + 1).last() == ks[k as int]);
            if depths[k] == d {
                let ghost ob = order@;
                order.push(k);
                proof {
                    assert(keys_at(groups@, order@) =~= keys_at(groups@, ob).push(groups@[k as int].0@));
                    assert(ks[k as int] == groups@[k as int].0@);
                }
            }
            k = k + 1;
        }
        assert(ks.take(n as int) =~= ks);
        proof {
            assert(depth_order(ks, maxd - e) == at_depth(ks, d as nat) + depth_order(ks, maxd - e - 1));
            assert(keys_at(groups@, order@) + depth_order(ks, maxd - e - 1) =~= before + depth_order(ks, maxd - e));
        }
        e = e + 1;
    }
    proof {
        assert(depth_order(ks, -1) =~= Seq::<Seq<u8>>::empty());
        assert(keys_at(groups@, order@) + depth_order(ks, maxd - e) =~= keys_at(groups@, order@));
    }
    order
}

/// Once placing the headers of a prefix of the datasets fails, placing all fails the same way.
proof fn lemma_place_ds_err_stable(
    img: Seq<u8>,
    tbl: Seq<(Seq<u8>, u64)>,
    ds: Seq<(Seq<u8>, DatasetView)>,
    addrs: Seq<u64>,
    k: int,
)
    requires
        0 <= k <= ds.len(),
        spec_place_ds_ohdrs(img, tbl, ds.take(k), addrs) is Err,
    ensures
        spec_place_ds_ohdrs(img, tbl, ds, addrs) == spec_place_ds_ohdrs(img, tbl, ds.take(k), addrs),
    decreases ds.len() - k,
{
    if k < ds.len() {
        assert(ds.take(k + 1).drop_last() =~= ds.take(k));
        lemma_place_ds_err_stable(img, tbl, ds, addrs, k + 1);
    } else {
        assert(ds.take(k) =~= ds);
    }
}

/// Once placing the headers of a prefix of the groups fails, placing all fails the same way.
proof fn lemma_place_groups_err_stable(
    img: Seq<u8>,
    tbl: Seq<(Seq<u8>, u64)>,
    groups: Seq<(Seq<u8>, Seq<Seq<u8>>)>,
    order: Seq<Seq<u8>>,
    k: int,
)
    requires
        0 <= k <= order.len(),
        spec_place_groups(img, tbl, groups, order.take(k)) is Err,
    ensures
        spec_place_groups(img, tbl, groups, order) == spec_place_groups(img, tbl, groups, order.take(k)),
    decreases order.len() - k,
{
    if k < order.len() {
        assert(order.take(k + 1).drop_last() =~= order.take(k));
        lemma_place_groups_err_stable(img, tbl, groups, order, k + 1);
    } else {
        assert(order.take(k) =~= order);
    }
}

/// Serialize a graph to a superblock-v2 file image. A graph without a root
/// group is `InvalidHeader`.
#[verifier::rlimit(50)]
pub fn encode(model: &FileModel) -> (res: Result<Vec<u8>>)
    requires
        sorted_keys(model@.groups),
        sorted_keys(model@.datasets),
    ensures
        match spec_encode(model@) {
            Ok(b) => res matches Ok(v) && v@ == b,
            Err(e) => res == Err::<Vec<u8>, HDF5Error>(e),
        },
{
    let ghost dv = model@.datasets;
    let ghost gv = model@.groups;
    let mut img: Vec<u8> = vec![0u8; 48];
    let ghost start = img@;
    assert(start =~= Seq::new(48, |i: int| 0u8));
    let n = model.datasets.len();
    let mut addrs: Vec<u64> = Vec::new();
    let mut i: usize = 0;
    assert(dv.take(0) =~= Seq::<(Seq<u8>, DatasetView)>::empty());
    while i < n
        invariant
            n == model.datasets@.len(),
            dv == model@.datasets,
            i <= n,
            start == Seq::new(48, |i: int| 0u8),
            (img@, addrs@) == spec_place_data(start, dv.take(i as int)),
            addrs@.len() == i,
            img@.len() >= 48,
        decreases n - i,
    {
        proof {
            assert(dv.take(i + 1).drop_last() =~= dv.take(i as int));
            assert(dv.take(i + 1).last() == dv[i as int]);
        }
        align_vec(&mut img);
        addrs.push(img.len() as u64);
        extend_bytes(&mut img, model.datasets[i].1.data.as_slice());
        i = i + 1;
    }
    assert(dv.take(n as int) =~= dv);
    let ghost img1 = img@;
    let mut tbl: Vec<(Vec<u8>, u64)> = Vec::new();
    let mut i: usize = 0;
    assert(table_view(tbl@) =~= Seq::<(Seq<u8>, u64)>::empty());
    assert(spec_place_ds_ohdrs(img1, Seq::empty(), dv, addrs@) matches Err(e) ==> spec_encode(model@) == Err::<Seq<u8>, HDF5Error>(e));
    while i < n
        invariant
            n == model.datasets@.len(),
            dv == model@.datasets,
            addrs@.len() == n,
            addrs@ == spec_place_data(start, dv).1,
            img1 == spec_place_data(start, dv).0,
            spec_place_ds_ohdrs(img1, Seq::empty(), dv, addrs@) matches Err(e) ==> spec_encode(model@) == Err::<Seq<u8>, HDF5Error>(e),
            i <= n,
            spec_place_ds_ohdrs(img1, Seq::empty(), dv.take(i as int), addrs@) == Ok::<
                (Seq<u8>, Seq<(Seq<u8>, u64)>),
                HDF5Error,
            >((img@, table_view(tbl@))),
            img@.len() >= 48,
        decreases n - i,
    {
        proof {
            assert(dv.take(i + 1).drop_last() =~= dv.take(i as int));
            assert(dv.take(i + 1).last() == dv[i as int]);
        }
        let b = match dataset_ohdr(&model.datasets[i].1, addrs[i]) {
            Ok(b) => b,
            Err(e) => {
                proof {
                    lemma_place_ds_err_stable(img1, Seq::empty(), dv, addrs@, i + 1);
                }
                return Err(e);
            },
        };
        align_vec(&mut img);
        let a = img.len() as u64;
        extend_bytes(&mut img, b.as_slice());
        let key = vstd::slice::slice_to_vec(model.datasets[i].0.as_slice());
        let ghost raw = tbl@;
        let ghost kv = key;
        table_put(&mut tbl, key, a);
        proof {
            lemma_addr_put(raw, kv, a);
        }
        i = i + 1;
    }
    assert(dv.take(n as int) =~= dv);
    let ghost img2 = img@;
    let ghost t2 = table_view(tbl@);
    let order = group_order_idx(&model.groups);
    let ghost ok = keys_at(model.groups@, order@);
    proof {
        assert(group_keys(model.groups@) =~= keys(gv));
        assert(spec_place_ds_ohdrs(img1, Seq::empty(), dv, addrs@) == Ok::<(Seq<u8>, Seq<(Seq<u8>, u64)>), HDF5Error>((img2, t2)));
        assert(spec_place_groups(img2, t2, gv, ok) matches Err(e) ==> spec_encode(model@) == Err::<Seq<u8>, HDF5Error>(e));
    }
    let mut j: usize = 0;
    assert(ok.take(0) =~= Seq::<Seq<u8>>::empty());
    while j < order.len()
        invariant
            sorted_keys(model@.groups),
            sorted_keys(model@.datasets),
            gv == model@.groups,
            ok == keys_at(model.groups@, order@),
            ok == group_order(keys(gv)),
            spec_place_groups(img2, t2, gv, ok) matches Err(e) ==> spec_encode(model@) == Err::<Seq<u8>, HDF5Error>(e),
            spec_encode(model@) == match spec_place_groups(img2, t2, gv, ok) {
                Err(e) => Err(e),
                Ok((img3, t3)) => match find(t3, Seq::empty()) {
                    None => Err(HDF5Error::InvalidHeader),
                    Some(root) => Ok(spec_superblock_v2(root, img3.len() as u64) + img3.subrange(48, img3.len() as int)),
                },
            },
            forall|q: int| 0 <= q < order@.len() ==> #[trigger] order@[q] < model.groups@.len(),
            j <= order@.len(),
            spec_place_groups(img2, t2, gv, ok.take(j as int)) == Ok::<
                (Seq<u8>, Seq<(Seq<u8>, u64)>),
                HDF5Error,
            >((img@, table_view(tbl@))),
            img@.len() >= 48,
        decreases order@.len() - j,
    {
        let gi = order[j];
        proof {
            assert(ok.take(j + 1).drop_last() =~= ok.take(j as int));
            assert(ok.take(j + 1).last() == ok[j as int]);
            assert(ok[j as int] == gv[gi as int].0);
            crate::table::lemma_has_key(gv, gv[gi as int].0, gi as int);
        }
        let b = match group_ohdr(&tbl, model.groups[gi].0.as_slice(), &model.groups[gi].1) {
            Ok(b) => b,
            Err(e) => {
                proof {
                    lemma_place_groups_err_stable(img2, t2, gv, ok, j + 1);
                }
                return Err(e);
            },
        };
        align_vec(&mut img);
        let a = img.len() as u64;
        extend_bytes(&mut img, b.as_slice());
        let key = vstd::slice::slice_to_vec(model.groups[gi].0.as_slice());
        let ghost raw = tbl@;
        let ghost kv = key;
        table_put(&mut tbl, key, a);
        proof {
            lemma_addr_put(raw, kv, a);
        }
        j = j + 1;
    }
    proof {
        assert(ok.take(order@.len() as int) =~= ok);
    }
    let ghost img3 = img@;
    let empty: Vec<u8> = Vec::new();
    let (c, found) = table_find(&tbl, empty.as_slice());
    proof {
        assert(empty@ =~= Seq::<u8>::empty());
        lemma_count_lt(table_view(tbl@), Seq::empty());
    }
    if !found {
        return Err(HDF5Error::InvalidHeader);
    }
    let root = tbl[c].1;
    let eof = img.len() as u64;
    let sb = encode_v2(root, eof);
    let mut k: usize = 0;
    while k < 48
        invariant
            k <= 48,
            img@.len() == img3.len(),
            img3.len() >= 48,
            sb@.len() == 48,
            img@ =~= sb@.subrange(0, k as int) + img3.subrange(k as int, img3.len() as int),
        decreases 48 - k,
    {
        img.set(k, sb[k]);
        k = k + 1;
    }
    Ok(img)
}

/// Layout message of a chunked dataset of rank 1 with 8-byte elements and no
/// chunk index yet (undefined B-tree address).
pub open spec fn stub_layout() -> Seq<u8> {
    seq![HDF5_LAYOUT_VERSION, HDF5_LAYOUT_CHUNKED, 1u8] + le_bytes(HDF5_UNDEF_ADDR_8 as int, 8) + le_bytes(1, 4)
        + le_bytes(8, 4)
}

/// The bytes of the name `data`.
pub open spec fn data_name() -> Seq<u8> {
    seq![0x64u8, 0x61u8, 0x74u8, 0x61u8]
}

/// A file whose root group links `data`, a chunked binary64 dataset of one
/// element: superblock, the dataset's header at 48, the root group's header
/// at the next multiple of 8.
pub open spec fn spec_chunked_stub() -> Result<Seq<u8>> {
    match spec_dataspace(seq![1u64], false) {
        Err(e) => Err(e),
        Ok(space) => {
            let ds = spec_ohdr_v2(
                seq![
                    msg(HDF5_MSG_DATASPACE, HDF5_MSG_FLAG_CONSTANT, space),
                    msg(HDF5_MSG_DATATYPE, HDF5_MSG_FLAG_CONSTANT, spec_ieee_f64le()),
                    msg(HDF5_MSG_LAYOUT, 0, stub_layout()),
                ],
            );
            match spec_hard_link(data_name(), 48) {
                Err(e) => Err(e),
                Ok(link) => {
                    let g = spec_ohdr_v2(
                        seq![
                            msg(HDF5_MSG_LINK_INFO, 0, spec_link_info()),
                            msg(HDF5_MSG_GROUP_INFO, 0, spec_group_info()),
                            msg(HDF5_MSG_LINK, 0, link),
                        ],
                    );
                    let body = align_img(Seq::new(48, |i: int| 0u8) + ds);
                    let img = body + g;
                    Ok(spec_superblock_v2(body.len() as u64, img.len() as u64) + img.subrange(48, img.len() as int))
                },
            }
        },
    }
}

/// Build a minimal valid file whose only dataset is chunked.
#[verifier::spinoff_prover]
#[verifier::rlimit(30)]
pub fn encode_chunked_stub() -> (res: Result<Vec<u8>>)
    ensures
        match spec_chunked_stub() {
            Ok(b) => res matches Ok(v) && v@ == b,
            Err(e) => res == Err::<Vec<u8>, HDF5Error>(e),
        },
{
    let mut layout: Vec<u8> = Vec::new();
    layout.push(HDF5_LAYOUT_VERSION);
    layout.push(HDF5_LAYOUT_CHUNKED);
    layout.push(1);
    push_u64(&mut layout, HDF5_UNDEF_ADDR_8);
    push_u32(&mut layout, 1);
    push_u32(&mut layout, 8);
    assert(layout@ =~= stub_layout());
    let mut dims: Vec<u64> = Vec::new();
    dims.push(1);
    assert(dims@ =~= seq![1u64]);
    let mut msgs: Vec<RawMsg> = Vec::new();
    let space = encode_dataspace(dims.as_slice(), false)?;
    let ghost sv = space@;
    msgs.push(RawMsg { ty: HDF5_MSG_DATASPACE, flags: HDF5_MSG_FLAG_CONSTANT, body: space });
    msgs.push(RawMsg { ty: HDF5_MSG_DATATYPE, flags: HDF5_MSG_FLAG_CONSTANT, body: encode_ieee_f64le() });
    msgs.push(RawMsg { ty: HDF5_MSG_LAYOUT, flags: 0, body: layout });
    assert(msg_views(msgs@) =~= seq![
        msg(HDF5_MSG_DATASPACE, HDF5_MSG_FLAG_CONSTANT, sv),
        msg(HDF5_MSG_DATATYPE, HDF5_MSG_FLAG_CONSTANT, spec_ieee_f64le()),
        msg(HDF5_MSG_LAYOUT, 0, stub_layout()),
    ]);
    let ds_ohdr = encode_ohdr_v2(msgs.as_slice());
    let ds_addr: u64 = 48;
    let mut name: Vec<u8> = Vec::new();
    name.push(0x64);
    name.push(0x61);
    name.push(0x74);
    name.push(0x61);
    assert(name@ =~= data_name());
    let link = encode_hard_link_bytes(name.as_slice(), ds_addr)?;
    let ghost lv = link@;
    let mut gmsgs: Vec<RawMsg> = Vec::new();
    gmsgs.push(RawMsg { ty: HDF5_MSG_LINK_INFO, flags: 0, body: encode_link_info() });
    gmsgs.push(RawMsg { ty: HDF5_MSG_GROUP_INFO, flags: 0, body: encode_group_info() });
    gmsgs.push(RawMsg { ty: HDF5_MSG_LINK, flags: 0, body: link });
    assert(msg_views(gmsgs@) =~= seq![
        msg(HDF5_MSG_LINK_INFO, 0, spec_link_info()),
        msg(HDF5_MSG_GROUP_INFO, 0, spec_group_info()),
        msg(HDF5_MSG_LINK, 0, lv),
    ]);
    let g_bytes = encode_ohdr_v2(gmsgs.as_slice());
    let mut file: Vec<u8> = vec![0u8; 48];
    assert(file@ =~= Seq::new(48, |i: int| 0u8));
    extend_bytes(&mut file, ds_ohdr.as_slice());
    align_vec(&mut file);
    let g_addr = file.len() as u64;
    extend_bytes(&mut file, g_bytes.as_slice());
    let eof = file.len() as u64;
    let ghost img = file@;
    let sb = encode_v2(g_addr, eof);
    let mut k: usize = 0;
    while k < 48
        invariant
            k <= 48,
            file@.len() == img.len(),
            img.len() >= 48,
            sb@.len() == 48,
            file@ =~= sb@.subrange(0, k as int) + img.subrange(k as int, img.len() as int),
        decreases 48 - k,
    {
        file.set(k, sb[k]);
        k = k + 1;
    }
    Ok(file)
}

} // verus!
