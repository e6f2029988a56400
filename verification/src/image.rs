//! Where the objects of a written file image stand, and what reading them back gives.
use vstd::prelude::*;

use crate::consts::{
    HDF5_MAX_DIMS, HDF5_MSG_ATTRIBUTE, HDF5_MSG_DATASPACE, HDF5_MSG_DATATYPE, HDF5_MSG_FILL, HDF5_MSG_FILTER,
    HDF5_MSG_FLAG_CONSTANT, HDF5_MSG_GROUP_INFO, HDF5_MSG_LAYOUT, HDF5_MSG_LINK, HDF5_MSG_LINK_INFO,
    HDF5_UNDEF_ADDR_8,
};
use crate::decode::{
    first_msg, lemma_first_msg_skip, sat_mul64, spec_attr_list, spec_dtype_kind, spec_elem_count,
    spec_filters, spec_links, spec_try_dataset,
};
use crate::encode::{
    align_img, msg, spec_attr_msgs, spec_dataset_ohdr, spec_dtype_body, spec_encode, spec_place_data,
    spec_place_ds_ohdrs, spec_place_groups,
};
use crate::error::HDF5Error;
use crate::messages::{
    spec_dataspace, spec_fill, spec_group_info, spec_layout_contiguous, spec_link_info, spec_max_dims,
    spec_parse_dataspace, spec_parse_datatype, spec_parse_layout, spec_parse_link_info_heap, spec_string_attr,
    LayoutView,
};
use crate::model::{spec_elem_size, DTypeKind, DatasetView, ModelView};
use crate::ohdr::{
    law_ohdr_v2_roundtrip, spec_chunk_bytes, spec_ohdr_v2, spec_parse_ohdr, writable_msgs, MsgView,
};
use crate::paths::{is_dot, is_dotdot, lemma_lex_irrefl, slash};
use crate::roundtrip::{
    law_dataspace_roundtrip, law_dtype_roundtrip, law_layout_roundtrip, law_string_attr_roundtrip,
    lemma_le8_len, no_zero,
};
use crate::table::{count_lt, find, has_key, lemma_find_put, lemma_put_sorted, put, sorted_keys};
use vstd::utf8::{encode_utf8, encode_utf8_decode_utf8, encode_utf8_valid_utf8, valid_utf8};

verus! {

/// A range inside a prefix reads the same in the longer sequence.
pub proof fn lemma_prefix_range(x: Seq<u8>, y: Seq<u8>, a: int, n: int)
    requires
        y.len() >= x.len(),
        y.subrange(0, x.len() as int) == x,
        0 <= a,
        0 <= n,
        a + n <= x.len(),
    ensures
        y.subrange(a, a + n) == x.subrange(a, a + n),
{
    assert forall|k: int| 0 <= k < n implies #[trigger] y.subrange(a, a + n)[k] == x.subrange(a, a + n)[k] by {
        assert(y[a + k] == y.subrange(0, x.len() as int)[a + k]);
    }
    assert(y.subrange(a, a + n) =~= x.subrange(a, a + n));
}

/// Being a prefix carries over.
pub proof fn lemma_prefix_trans(x: Seq<u8>, y: Seq<u8>, z: Seq<u8>)
    requires
        y.len() >= x.len(),
        y.subrange(0, x.len() as int) == x,
        z.len() >= y.len(),
        z.subrange(0, y.len() as int) == y,
    ensures
        z.subrange(0, x.len() as int) == x,
{
    lemma_prefix_range(y, z, 0, x.len() as int);
    assert(y.subrange(0, x.len() as int) == x);
}

/// Aligning only appends zeros, up to the next multiple of 8.
pub proof fn lemma_align_img(x: Seq<u8>)
    ensures
        align_img(x).len() >= x.len(),
        align_img(x).len() < x.len() + 8,
        align_img(x).len() % 8 == 0,
        align_img(x).subrange(0, x.len() as int) == x,
{
    assert(align_img(x).subrange(0, x.len() as int) =~= x);
}

/// Where placed bytes stand: at the aligned end of what came before.
pub proof fn lemma_placed(x: Seq<u8>, bytes: Seq<u8>)
    ensures
        (align_img(x) + bytes).subrange(align_img(x).len() as int, (align_img(x) + bytes).len() as int)
            == bytes,
        (align_img(x) + bytes).subrange(0, x.len() as int) == x,
        (align_img(x) + bytes).len() == align_img(x).len() + bytes.len(),
{
    lemma_align_img(x);
    let p = align_img(x);
    assert((p + bytes).subrange(p.len() as int, (p + bytes).len() as int) =~= bytes);
    assert((p + bytes).subrange(0, x.len() as int) =~= x);
}

/// The payloads of datasets stand at their recorded addresses, after the
/// bytes that came before.
#[verifier::spinoff_prover]
pub proof fn lemma_place_data(img: Seq<u8>, ds: Seq<(Seq<u8>, DatasetView)>)
    requires
        spec_place_data(img, ds).0.len() <= u64::MAX,
    ensures
        spec_place_data(img, ds).1.len() == ds.len(),
        spec_place_data(img, ds).0.len() >= img.len(),
        spec_place_data(img, ds).0.subrange(0, img.len() as int) == img,
        forall|i: int|
            0 <= i < ds.len() ==> {
                let out = spec_place_data(img, ds).0;
                let a = #[trigger] spec_place_data(img, ds).1[i] as int;
                &&& img.len() <= a
                &&& a + ds[i].1.data.len() <= out.len()
                &&& out.subrange(a, a + ds[i].1.data.len()) == ds[i].1.data
            },
    decreases ds.len(),
{
    if ds.len() > 0 {
        let prev = ds.drop_last();
        let (i1, a1) = spec_place_data(img, prev);
        let p = align_img(i1);
        let data = ds.last().1.data;
        let out = p + data;
        lemma_placed(i1, data);
        lemma_align_img(i1);
        assert(out.len() >= i1.len());
        lemma_place_data(img, prev);
        let addrs = a1.push(p.len() as u64);
        assert(spec_place_data(img, ds) == (out, addrs));
        lemma_prefix_trans(img, i1, out);
        assert forall|i: int| 0 <= i < ds.len() implies {
            let a = #[trigger] spec_place_data(img, ds).1[i] as int;
            &&& img.len() <= a
            &&& a + ds[i].1.data.len() <= out.len()
            &&& out.subrange(a, a + ds[i].1.data.len()) == ds[i].1.data
        } by {
            if i < ds.len() - 1 {
                assert(addrs[i] == a1[i]);
                assert(ds[i] == prev[i]);
                let a = a1[i] as int;
                let n = ds[i].1.data.len() as int;
                assert(i1.subrange(a, a + n) == prev[i].1.data);
                lemma_prefix_range(i1, out, a, n);
            } else {
                assert(addrs[i] == p.len() as u64);
                assert(out.subrange(p.len() as int, (p.len() + data.len()) as int) =~= data);
            }
        }
    }
}

/// Dropping the last entry keeps the keys sorted.
pub proof fn lemma_sorted_drop_last<V>(s: Seq<(Seq<u8>, V)>)
    requires
        sorted_keys(s),
        s.len() > 0,
    ensures
        sorted_keys(s.drop_last()),
{
    let t = s.drop_last();
    assert forall|i: int, j: int| 0 <= i < j < t.len() implies crate::paths::lex_lt(#[trigger] t[i].0, #[trigger] t[j].0) by {
        assert(t[i] == s[i] && t[j] == s[j]);
    }
}

/// Whether the object header of a dataset stands at the address that the
/// table records under its path.
pub open spec fn header_at(out: Seq<u8>, t: Seq<(Seq<u8>, u64)>, key: Seq<u8>, hdr: Seq<u8>, lo: int) -> bool {
    find(t, key) matches Some(h) && lo <= h && h + hdr.len() <= out.len() && out.subrange(h as int, h + hdr.len())
        == hdr
}

/// The object headers of datasets stand at the addresses recorded under
/// their paths, after the bytes that came before.
#[verifier::spinoff_prover]
pub proof fn lemma_place_ds_ohdrs(img: Seq<u8>, ds: Seq<(Seq<u8>, DatasetView)>, addrs: Seq<u64>)
    requires
        spec_place_ds_ohdrs(img, Seq::empty(), ds, addrs) matches Ok((out, _)) && out.len() <= u64::MAX,
        sorted_keys(ds),
    ensures
        ({
            let (out, t) = spec_place_ds_ohdrs(img, Seq::empty(), ds, addrs)->Ok_0;
            &&& out.len() >= img.len()
            &&& out.subrange(0, img.len() as int) == img
            &&& sorted_keys(t)
            &&& forall|i: int|
                0 <= i < ds.len() ==> (#[trigger] spec_dataset_ohdr(ds[i].1, addrs[i])) is Ok && header_at(
                    out,
                    t,
                    ds[i].0,
                    spec_dataset_ohdr(ds[i].1, addrs[i])->Ok_0,
                    img.len() as int,
                )
        }),
    decreases ds.len(),
{
    let (out, t) = spec_place_ds_ohdrs(img, Seq::empty(), ds, addrs)->Ok_0;
    if ds.len() == 0 {
        assert(out.subrange(0, img.len() as int) =~= img);
    } else {
        let prev = ds.drop_last();
        let (i1, t1) = spec_place_ds_ohdrs(img, Seq::empty(), prev, addrs)->Ok_0;
        let b = spec_dataset_ohdr(ds.last().1, addrs[ds.len() - 1])->Ok_0;
        let p = align_img(i1);
        let k = ds.last().0;
        lemma_placed(i1, b);
        lemma_align_img(i1);
        assert(out == p + b);
        assert(t == put(t1, k, p.len() as u64));
        lemma_sorted_drop_last(ds);
        lemma_place_ds_ohdrs(img, prev, addrs);
        lemma_prefix_trans(img, i1, out);
        lemma_put_sorted(t1, k, p.len() as u64);
        lemma_find_put(t1, k, p.len() as u64, k);
        assert forall|i: int|
            0 <= i < ds.len() implies (#[trigger] spec_dataset_ohdr(ds[i].1, addrs[i])) is Ok && header_at(
            out,
            t,
            ds[i].0,
            spec_dataset_ohdr(ds[i].1, addrs[i])->Ok_0,
            img.len() as int,
        ) by {
            if i < ds.len() - 1 {
                assert(ds[i] == prev[i]);
                assert(crate::paths::lex_lt(ds[i].0, k));
                lemma_lex_irrefl(k);
                lemma_find_put(t1, k, p.len() as u64, ds[i].0);
                let hdr = spec_dataset_ohdr(ds[i].1, addrs[i])->Ok_0;
                let h = find(t1, ds[i].0)->Some_0;
                assert(header_at(i1, t1, prev[i].0, spec_dataset_ohdr(prev[i].1, addrs[i])->Ok_0, img.len() as int));
                lemma_prefix_range(i1, out, h as int, hdr.len() as int);
            } else {
                assert(out.subrange(p.len() as int, (p.len() + b.len()) as int) == b);
            }
        }
    }
}

/// The first message of a type is the one at `i` when none before it has that type.
pub proof fn lemma_first_msg_at(ms: Seq<MsgView>, ty: u8, i: int)
    requires
        0 <= i <= ms.len(),
        forall|j: int| 0 <= j < i ==> (#[trigger] ms[j]).ty != ty,
        i < ms.len() ==> ms[i].ty == ty,
    ensures
        first_msg(ms, ty) == if i < ms.len() { Some(ms[i]) } else { None::<MsgView> },
{
    lemma_first_msg_skip(ms, ty, i);
    let rest = ms.subrange(i, ms.len() as int);
    if i < ms.len() {
        assert(rest[0] == ms[i]);
    } else {
        assert(rest.len() == 0);
    }
}

/// Without attribute messages there are no attributes.
proof fn lemma_attr_list_none(d: Seq<u8>, ms: Seq<MsgView>)
    requires
        forall|j: int| 0 <= j < ms.len() ==> (#[trigger] ms[j]).ty != HDF5_MSG_ATTRIBUTE,
    ensures
        spec_attr_list(d, 8, 8, ms) == Seq::<(Seq<char>, Seq<char>)>::empty(),
    decreases ms.len(),
{
    if ms.len() > 0 {
        let t = ms.drop_last();
        assert forall|j: int| 0 <= j < t.len() implies (#[trigger] t[j]).ty != HDF5_MSG_ATTRIBUTE by {
            assert(t[j] == ms[j]);
        }
        lemma_attr_list_none(d, t);
        assert(ms.last() == ms[ms.len() - 1]);
    }
}

/// Without filter-pipeline messages there are no filters.
proof fn lemma_filters_none(ms: Seq<MsgView>)
    requires
        forall|j: int| 0 <= j < ms.len() ==> (#[trigger] ms[j]).ty != HDF5_MSG_FILTER,
    ensures
        spec_filters(ms) == 0,
    decreases ms.len(),
{
    if ms.len() > 0 {
        let t = ms.drop_last();
        assert forall|j: int| 0 <= j < t.len() implies (#[trigger] t[j]).ty != HDF5_MSG_FILTER by {
            assert(t[j] == ms[j]);
        }
        lemma_filters_none(t);
        assert(ms.last() == ms[ms.len() - 1]);
    }
}

/// The most attributes of a dataset, or children of a group, whose header
/// chunk is sure to fit its 4-byte size field (each message takes at most
/// 65539 bytes).
pub open spec fn max_header_entries() -> nat {
    65000
}

/// String attributes this crate can write and read back unchanged: no zero
/// bytes, and a message body that fits its 16-bit size field.
pub open spec fn storable_attrs(a: Seq<(Seq<char>, Seq<char>)>) -> bool {
    forall|i: int|
        0 <= i < a.len() ==> no_zero(encode_utf8((#[trigger] a[i]).0)) && no_zero(encode_utf8(a[i].1))
            && encode_utf8(a[i].0).len() + encode_utf8(a[i].1).len() < 65514
}

/// Attribute messages of storable attributes: each is an attribute message
/// with a body under 64 KiB, and reading them back gives the attributes.
#[verifier::spinoff_prover]
proof fn lemma_attr_msgs(d: Seq<u8>, pre: Seq<MsgView>, a: Seq<(Seq<char>, Seq<char>)>)
    requires
        storable_attrs(a),
        forall|j: int| 0 <= j < pre.len() ==> (#[trigger] pre[j]).ty != HDF5_MSG_ATTRIBUTE,
    ensures
        spec_attr_msgs(a) matches Ok(am) && am.len() == a.len() && spec_attr_list(d, 8, 8, pre + am) == a
            && forall|j: int|
            0 <= j < am.len() ==> (#[trigger] am[j]).ty == HDF5_MSG_ATTRIBUTE && am[j].body.len() < 65536,
    decreases a.len(),
{
    if a.len() == 0 {
        assert(pre + Seq::<MsgView>::empty() =~= pre);
        lemma_attr_list_none(d, pre);
        assert(a =~= Seq::<(Seq<char>, Seq<char>)>::empty());
    } else {
        let prev = a.drop_last();
        assert forall|i: int| 0 <= i < prev.len() implies no_zero(encode_utf8((#[trigger] prev[i]).0)) && no_zero(
            encode_utf8(prev[i].1),
        ) && encode_utf8(prev[i].0).len() + encode_utf8(prev[i].1).len() < 65514 by {
            assert(prev[i] == a[i]);
        }
        lemma_attr_msgs(d, pre, prev);
        let am0 = spec_attr_msgs(prev)->Ok_0;
        let (n, v) = a.last();
        assert(a.last() == a[a.len() - 1]);
        let nb = encode_utf8(n);
        let vb = encode_utf8(v);
        encode_utf8_valid_utf8(n);
        encode_utf8_valid_utf8(v);
        law_string_attr_roundtrip(d, nb, vb);
        let b = spec_string_attr(nb, vb)->Ok_0;
        let x = msg(HDF5_MSG_ATTRIBUTE, 0, b);
        let am = am0.push(x);
        assert(spec_attr_msgs(a) == Ok::<Seq<MsgView>, crate::error::HDF5Error>(am));
        let ms = pre + am;
        assert(ms.drop_last() =~= pre + am0);
        assert(ms.last() == x);
        encode_utf8_decode_utf8(n);
        encode_utf8_decode_utf8(v);
        assert(spec_attr_list(d, 8, 8, ms) == spec_attr_list(d, 8, 8, pre + am0).push((n, v)));
        assert(prev.push((n, v)) =~= a);
        assert(b.len() == nb.len() + vb.len() + 22) by {
            assert(crate::messages::spec_fixed_string((vb.len() + 1) as u32).len() == 8);
        }
        assert forall|j: int| 0 <= j < am.len() implies (#[trigger] am[j]).ty == HDF5_MSG_ATTRIBUTE && am[j].body.len()
            < 65536 by {
            if j < am0.len() {
                assert(am[j] == am0[j]);
            }
        }
    }
}

/// A name that stands for itself as a path under the root: not empty, no
/// `/`, not `.` or `..`, UTF-8, and short enough for a link message body.
pub open spec fn plain_name(k: Seq<u8>) -> bool {
    &&& 0 < k.len() < 65524
    &&& forall|i: int| 0 <= i < k.len() ==> k[i] != slash()
    &&& !is_dot(k)
    &&& !is_dotdot(k)
    &&& valid_utf8(k)
}

/// Without link messages there are no links.
pub proof fn lemma_links_none(ms: Seq<MsgView>)
    requires
        forall|j: int| 0 <= j < ms.len() ==> (#[trigger] ms[j]).ty != HDF5_MSG_LINK,
    ensures
        spec_links(ms, 8) == Ok::<Seq<(Seq<char>, u64)>, crate::error::HDF5Error>(Seq::empty()),
    decreases ms.len(),
{
    if ms.len() > 0 {
        let t = ms.drop_last();
        assert forall|j: int| 0 <= j < t.len() implies (#[trigger] t[j]).ty != HDF5_MSG_LINK by {
            assert(t[j] == ms[j]);
        }
        lemma_links_none(t);
        assert(ms.last() == ms[ms.len() - 1]);
    }
}

/// A dataset record that this crate writes and reads back unchanged:
/// contiguous and unfiltered, of a kind it writes, of rank at most
/// `HDF5_MAX_DIMS`, with storable attributes, and with data unless the shape
/// holds no bytes at all (an empty payload is read back as the bytes the
/// shape calls for).
pub open spec fn storable(ds: DatasetView) -> bool {
    &&& !ds.filtered
    &&& !ds.chunked
    &&& spec_dtype_body(ds.kind) is Some
    &&& (ds.kind matches DTypeKind::Opaque(n) ==> n <= u32::MAX)
    &&& ds.shape.len() <= HDF5_MAX_DIMS
    &&& storable_attrs(ds.attrs)
    &&& ds.attrs.len() <= max_header_entries()
    &&& (ds.data.len() > 0 || sat_mul64(spec_elem_count(ds.shape), spec_elem_size(ds.kind) as u64) == 0)
}

/// A header is at least as long as its message chunk.
pub proof fn lemma_ohdr_len(ms: Seq<MsgView>)
    ensures
        spec_ohdr_v2(ms).len() >= spec_chunk_bytes(ms).len(),
{
}

/// Messages written for a dataset: dataspace, datatype, fill value,
/// contiguous layout.
pub open spec fn dataset_msgs(ds: DatasetView, addr: u64) -> Seq<MsgView> {
    seq![
        msg(HDF5_MSG_DATASPACE, HDF5_MSG_FLAG_CONSTANT, spec_dataspace(ds.shape, true)->Ok_0),
        msg(HDF5_MSG_DATATYPE, HDF5_MSG_FLAG_CONSTANT, spec_dtype_body(ds.kind)->Some_0),
        msg(HDF5_MSG_FILL, 0, spec_fill()),
        msg(HDF5_MSG_LAYOUT, 0, spec_layout_contiguous(addr, ds.data.len() as u64)),
    ]
}

/// Datatype message bodies are short.
proof fn lemma_dtype_body_small(k: DTypeKind)
    ensures
        spec_dtype_body(k) matches Some(b) ==> b.len() < 64,
{
}

/// Dataspace message bodies of rank at most `HDF5_MAX_DIMS` are short.
proof fn lemma_space_small(shape: Seq<u64>)
    requires
        shape.len() <= HDF5_MAX_DIMS,
    ensures
        spec_dataspace(shape, true) matches Ok(b) && b.len() < 1024,
{
    lemma_le8_len(shape);
    lemma_le8_len(spec_max_dims(shape, true));
}

/// The header written for a storable dataset holds its messages, then its attributes.
proof fn lemma_dataset_ohdr_msgs(ds: DatasetView, addr: u64)
    requires
        storable(ds),
        spec_attr_msgs(ds.attrs) is Ok,
    ensures
        spec_dataset_ohdr(ds, addr) == Ok::<Seq<u8>, HDF5Error>(
            spec_ohdr_v2(dataset_msgs(ds, addr) + spec_attr_msgs(ds.attrs)->Ok_0),
        ),
{
    lemma_space_small(ds.shape);
}

/// The messages of the header written for a storable dataset are plain
/// enough to be read back from the header, and their attributes read back.
#[verifier::spinoff_prover]
pub proof fn lemma_dataset_writable(d: Seq<u8>, ds: DatasetView, addr: u64)
    requires
        storable(ds),
    ensures
        spec_attr_msgs(ds.attrs) is Ok,
        spec_attr_msgs(ds.attrs)->Ok_0.len() == ds.attrs.len(),
        spec_dataset_ohdr(ds, addr) == Ok::<Seq<u8>, HDF5Error>(
            spec_ohdr_v2(dataset_msgs(ds, addr) + spec_attr_msgs(ds.attrs)->Ok_0),
        ),
        writable_msgs(dataset_msgs(ds, addr) + spec_attr_msgs(ds.attrs)->Ok_0),
        spec_attr_list(d, 8, 8, dataset_msgs(ds, addr) + spec_attr_msgs(ds.attrs)->Ok_0) == ds.attrs,
{
    let pre = dataset_msgs(ds, addr);
    lemma_attr_msgs(d, pre, ds.attrs);
    lemma_dataset_ohdr_msgs(ds, addr);
    let am = spec_attr_msgs(ds.attrs)->Ok_0;
    let ms = pre + am;
    lemma_space_small(ds.shape);
    lemma_dtype_body_small(ds.kind);
    assert(pre[0].body.len() < 65536 && pre[1].body.len() < 65536);
    assert(pre[2].body.len() < 65536 && pre[3].body.len() < 65536);
    assert forall|j: int| 0 <= j < ms.len() implies (#[trigger] ms[j]).ty != crate::consts::HDF5_MSG_NIL
        && ms[j].ty != crate::consts::HDF5_MSG_CONTINUATION && ms[j].body.len() < 65536 by {
        if j >= 4 {
            assert(ms[j] == am[j - 4]);
        } else {
            assert(ms[j] == pre[j]);
        }
    }
}

/// The header chunk of a storable dataset fits its 4-byte size field.
proof fn lemma_dataset_chunk(d: Seq<u8>, ds: DatasetView, addr: u64)
    requires
        storable(ds),
    ensures
        spec_chunk_bytes(dataset_msgs(ds, addr) + spec_attr_msgs(ds.attrs)->Ok_0).len() <= u32::MAX,
{
    lemma_dataset_writable(d, ds, addr);
    let ms = dataset_msgs(ds, addr) + spec_attr_msgs(ds.attrs)->Ok_0;
    crate::ohdr::lemma_chunk_bytes_bound(ms);
    assert(ms.len() <= 65004);
    assert(65539 * ms.len() <= u32::MAX) by (nonlinear_arith)
        requires
            ms.len() <= 65004,
    ;
}

/// Reading the header written for a storable dataset gives its messages back.
#[verifier::spinoff_prover]
pub proof fn lemma_dataset_parse(d: Seq<u8>, h: u64, ds: DatasetView, addr: u64)
    requires
        storable(ds),
        d.len() <= usize::MAX,
        spec_dataset_ohdr(ds, addr) matches Ok(hdr) && h + hdr.len() <= d.len() && d.subrange(h as int, h + hdr.len())
            == hdr,
    ensures
        spec_parse_ohdr(d, h, 8, 8) == Ok::<Seq<MsgView>, HDF5Error>(
            dataset_msgs(ds, addr) + spec_attr_msgs(ds.attrs)->Ok_0,
        ),
{
    lemma_dataset_writable(d, ds, addr);
    let ms = dataset_msgs(ds, addr) + spec_attr_msgs(ds.attrs)->Ok_0;
    lemma_ohdr_len(ms);
    lemma_dataset_chunk(d, ds, addr);
    law_ohdr_v2_roundtrip(d, h, ms, 8, 8);
}

/// A header whose first datatype, dataspace and layout messages describe
/// contiguous data, without filters, is read as that dataset.
#[verifier::rlimit(50)]
#[verifier::spinoff_prover]
proof fn lemma_try_contiguous(
    d: Seq<u8>,
    ms: Seq<MsgView>,
    dt: crate::messages::ParsedDType,
    shape: Seq<u64>,
    addr: u64,
    data: Seq<u8>,
    attrs: Seq<(Seq<char>, Seq<char>)>,
)
    requires
        first_msg(ms, HDF5_MSG_DATATYPE) matches Some(m) && spec_parse_datatype(m.body) == Ok::<
            crate::messages::ParsedDType,
            HDF5Error,
        >(dt),
        first_msg(ms, HDF5_MSG_DATASPACE) matches Some(m) && spec_parse_dataspace(m.body, 8) == Ok::<
            Seq<u64>,
            HDF5Error,
        >(shape),
        first_msg(ms, HDF5_MSG_LAYOUT) matches Some(m) && spec_parse_layout(m.body, 8, 8) == Ok::<
            LayoutView,
            HDF5Error,
        >(LayoutView::Contiguous { addr, size: data.len() as u64 }),
        spec_attr_list(d, 8, 8, ms) == attrs,
        spec_filters(ms) == 0,
        data.len() <= u64::MAX,
        data.len() > 0 ==> addr + data.len() <= d.len() && d.subrange(addr as int, addr + data.len()) == data,
        data.len() == 0 ==> sat_mul64(spec_elem_count(shape), spec_elem_size(spec_dtype_kind(dt)) as u64) == 0,
    ensures
        spec_try_dataset(d, 8, 8, ms) == Ok::<Option<DatasetView>, HDF5Error>(
            Some(
                DatasetView {
                    shape,
                    kind: spec_dtype_kind(dt),
                    data,
                    attrs,
                    chunked: false,
                    filtered: false,
                },
            ),
        ),
{
    reveal(spec_try_dataset);
    if data.len() == 0 {
        assert(data =~= Seq::<u8>::empty());
    } else {
        assert(crate::buf::rd_slice(d, addr, data.len() as u64) == Ok::<Seq<u8>, HDF5Error>(data));
    }
}

/// The messages written for a storable dataset, with its payload in place,
/// describe the dataset.
#[verifier::spinoff_prover]
#[verifier::rlimit(50)]
pub proof fn lemma_dataset_try(d: Seq<u8>, ds: DatasetView, addr: u64)
    requires
        storable(ds),
        ds.data.len() <= u64::MAX,
        ds.data.len() > 0 ==> addr + ds.data.len() <= d.len() && d.subrange(addr as int, addr + ds.data.len())
            == ds.data,
    ensures
        spec_try_dataset(d, 8, 8, dataset_msgs(ds, addr) + spec_attr_msgs(ds.attrs)->Ok_0) == Ok::<
            Option<DatasetView>,
            HDF5Error,
        >(Some(ds)),
{
    let pre = dataset_msgs(ds, addr);
    lemma_attr_msgs(d, pre, ds.attrs);
    law_dataspace_roundtrip(ds.shape, true);
    law_dtype_roundtrip(ds.kind);
    let n = ds.data.len() as u64;
    law_layout_roundtrip(addr, n);
    let am = spec_attr_msgs(ds.attrs)->Ok_0;
    let ms = pre + am;
    assert(ms[0] == pre[0] && ms[1] == pre[1] && ms[2] == pre[2] && ms[3] == pre[3]);
    lemma_first_msg_at(ms, HDF5_MSG_DATASPACE, 0);
    lemma_first_msg_at(ms, HDF5_MSG_DATATYPE, 1);
    lemma_first_msg_at(ms, HDF5_MSG_LAYOUT, 3);
    let dt = spec_parse_datatype(pre[1].body)->Ok_0;
    assert forall|j: int| 0 <= j < ms.len() implies (#[trigger] ms[j]).ty != HDF5_MSG_FILTER by {
        if j >= 4 {
            assert(ms[j] == am[j - 4]);
        }
    }
    lemma_filters_none(ms);
    lemma_try_contiguous(d, ms, dt, ds.shape, addr, ds.data, ds.attrs);
}

/// The link-info message this crate writes names no dense link storage.
pub proof fn lemma_link_info_compact()
    ensures
        spec_parse_link_info_heap(spec_link_info(), 8) == Ok::<Option<u64>, HDF5Error>(None),
{
    let b = spec_link_info();
    let lb = crate::buf::le_bytes(HDF5_UNDEF_ADDR_8 as int, 8);
    reveal_with_fuel(crate::buf::pow256, 9);
    crate::buf::lemma_le_bytes_roundtrip(HDF5_UNDEF_ADDR_8, 8);
    assert(b == seq![0u8, 0u8] + lb + lb);
    let z: u8 = b[1];
    assert(z == 0);
    assert(z & 1 == 0) by (bit_vector)
        requires
            z == 0,
    ;
    assert(crate::buf::le_at(b, 2, 8) == crate::buf::le_at(lb, 0, 8)) by {
        assert(b[2] == lb[0] && b[3] == lb[1] && b[4] == lb[2] && b[5] == lb[3]);
        assert(b[6] == lb[4] && b[7] == lb[5] && b[8] == lb[6] && b[9] == lb[7]);
    }
}

/// Messages of a group header: link info, group info, then the links.
pub open spec fn group_msgs(lm: Seq<MsgView>) -> Seq<MsgView> {
    seq![msg(HDF5_MSG_LINK_INFO, 0, spec_link_info()), msg(HDF5_MSG_GROUP_INFO, 0, spec_group_info())] + lm
}

/// Whether the header of dataset `ds` stands where the table records `key`,
/// with its payload at the address the header names.
pub open spec fn readable_at(d: Seq<u8>, t: Seq<(Seq<u8>, u64)>, key: Seq<u8>, ds: DatasetView) -> bool {
    exists|a: u64|
        (#[trigger] spec_dataset_ohdr(ds, a)) is Ok && header_at(d, t, key, spec_dataset_ohdr(ds, a)->Ok_0, 0) && (
        ds.data.len() > 0 ==> a + ds.data.len() <= d.len() && d.subrange(a as int, a + ds.data.len()) == ds.data)
}

/// Range `[a, a + n)` of a sequence that stands behind a replaced 48-byte head.
pub proof fn lemma_tail_range(head: Seq<u8>, img: Seq<u8>, a: int, n: int)
    requires
        head.len() == 48,
        img.len() >= 48,
        48 <= a,
        0 <= n,
        a + n <= img.len(),
    ensures
        (head + img.subrange(48, img.len() as int)).len() == img.len(),
        (head + img.subrange(48, img.len() as int)).subrange(a, a + n) == img.subrange(a, a + n),
{
    let d = head + img.subrange(48, img.len() as int);
    assert(d.subrange(a, a + n) =~= img.subrange(a, a + n));
}

/// Placing payloads never shortens the image.
pub proof fn lemma_place_data_len(img: Seq<u8>, ds: Seq<(Seq<u8>, DatasetView)>)
    ensures
        spec_place_data(img, ds).0.len() >= img.len(),
    decreases ds.len(),
{
    if ds.len() > 0 {
        lemma_place_data_len(img, ds.drop_last());
        lemma_align_img(spec_place_data(img, ds.drop_last()).0);
    }
}

/// Placing headers never shortens the image.
pub proof fn lemma_place_ds_len(img: Seq<u8>, ds: Seq<(Seq<u8>, DatasetView)>, addrs: Seq<u64>)
    requires
        spec_place_ds_ohdrs(img, Seq::empty(), ds, addrs) is Ok,
    ensures
        spec_place_ds_ohdrs(img, Seq::empty(), ds, addrs)->Ok_0.0.len() >= img.len(),
    decreases ds.len(),
{
    if ds.len() > 0 {
        lemma_place_ds_len(img, ds.drop_last(), addrs);
        lemma_align_img(spec_place_ds_ohdrs(img, Seq::empty(), ds.drop_last(), addrs)->Ok_0.0);
    }
}

/// The zero bytes that stand for the superblock while objects are placed.
pub open spec fn enc_start() -> Seq<u8> {
    Seq::new(48, |i: int| 0u8)
}

/// How the image of a graph is put together, when it can be written.
pub proof fn lemma_encode_parts(m: ModelView)
    requires
        spec_encode(m) is Ok,
    ensures
        ({
            let (img1, addrs) = spec_place_data(enc_start(), m.datasets);
            let hd = spec_place_ds_ohdrs(img1, Seq::empty(), m.datasets, addrs);
            &&& hd is Ok
            &&& spec_place_groups(
                hd->Ok_0.0,
                hd->Ok_0.1,
                m.groups,
                crate::encode::group_order(crate::table::keys(m.groups)),
            ) matches Ok((img3, t3)) && find(t3, Seq::empty()) matches Some(root) && spec_encode(m)->Ok_0
                == crate::superblock::spec_superblock_v2(root, img3.len() as u64) + img3.subrange(
                48,
                img3.len() as int,
            )
        }),
{
    assert(enc_start() =~= Seq::new(48, |i: int| 0u8));
}

/// Every key of the table of dataset headers is a dataset path.
pub proof fn lemma_place_ds_keys(img: Seq<u8>, ds: Seq<(Seq<u8>, DatasetView)>, addrs: Seq<u64>)
    requires
        spec_place_ds_ohdrs(img, Seq::empty(), ds, addrs) is Ok,
        sorted_keys(ds),
    ensures
        forall|k: Seq<u8>|
            #[trigger] has_key(spec_place_ds_ohdrs(img, Seq::empty(), ds, addrs)->Ok_0.1, k) ==> has_key(ds, k),
    decreases ds.len(),
{
    let t = spec_place_ds_ohdrs(img, Seq::empty(), ds, addrs)->Ok_0.1;
    if ds.len() == 0 {
        assert forall|k: Seq<u8>| #[trigger] has_key(t, k) implies has_key(ds, k) by {
            assert(t.len() == 0);
        }
    } else {
        let prev = ds.drop_last();
        let (i1, t1) = spec_place_ds_ohdrs(img, Seq::empty(), prev, addrs)->Ok_0;
        let kd = ds.last().0;
        let v = align_img(i1).len() as u64;
        assert(t == put(t1, kd, v));
        lemma_sorted_drop_last(ds);
        lemma_place_ds_keys(img, prev, addrs);
        lemma_place_ds_ohdrs_sorted(img, prev, addrs);
        assert forall|k: Seq<u8>| #[trigger] has_key(t, k) implies has_key(ds, k) by {
            lemma_find_put(t1, kd, v, k);
            if k == kd {
                crate::table::lemma_has_key(ds, kd, ds.len() - 1);
            } else {
                assert(has_key(t1, k));
                assert(has_key(prev, k));
                let c = count_lt(prev, k) as int;
                assert(prev[c] == ds[c]);
                crate::table::lemma_has_key(ds, k, c);
            }
        }
    }
}

/// The table of dataset headers stays sorted.
proof fn lemma_place_ds_ohdrs_sorted(img: Seq<u8>, ds: Seq<(Seq<u8>, DatasetView)>, addrs: Seq<u64>)
    requires
        spec_place_ds_ohdrs(img, Seq::empty(), ds, addrs) is Ok,
    ensures
        sorted_keys(spec_place_ds_ohdrs(img, Seq::empty(), ds, addrs)->Ok_0.1),
    decreases ds.len(),
{
    if ds.len() > 0 {
        let prev = ds.drop_last();
        let (i1, t1) = spec_place_ds_ohdrs(img, Seq::empty(), prev, addrs)->Ok_0;
        lemma_place_ds_ohdrs_sorted(img, prev, addrs);
        lemma_put_sorted(t1, ds.last().0, align_img(i1).len() as u64);
    }
}

} // verus!
