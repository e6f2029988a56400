//! Reading back a written file gives the graph that was written.
use vstd::prelude::*;

use crate::consts::{
    HDF5_MAX_WALK_DEPTH, HDF5_MSG_DATATYPE, HDF5_MSG_LINK, HDF5_MSG_LINK_INFO, HDF5_MSG_SYMBOL_TABLE,
};
use crate::decode::{child_path, spec_group_kids, spec_links, spec_try_dataset, spec_walk, spec_walk_kids};
use crate::encode::{
    align_img, at_depth, depth_of, depth_order, kid_path, msg, slash_count, spec_dataset_ohdr, spec_encode,
    spec_group_ohdr, spec_link_msgs, spec_place_data, spec_place_groups,
};
use crate::error::HDF5Error;
use crate::image::{
    group_msgs, header_at, lemma_dataset_parse, lemma_dataset_try, lemma_first_msg_at,
    lemma_link_info_compact, lemma_links_none, lemma_ohdr_len, lemma_placed, lemma_prefix_range,
    lemma_prefix_trans, plain_name, readable_at, storable,
};
use crate::messages::spec_hard_link;
use crate::model::{
    add_kid, last_slash, lemma_last_slash, model_wf, spec_create_group, spec_create_group_norm,
    spec_ensure_parent_norm, spec_put_dataset, spec_put_dataset_norm, split_path, DatasetView, ModelView,
};
use crate::ohdr::{law_ohdr_v2_roundtrip, spec_parse_ohdr, writable_msgs, MsgView};
use crate::paths::{lemma_lex_irrefl, slash, spec_normalize};
use crate::roundtrip::law_hard_link_roundtrip;
use crate::table::{
    count_lt, find, has_key, lemma_find_put, lemma_put_sorted, lemma_remove, put, remove_key, sorted_keys,
};
use vstd::utf8::{
    decode_utf8, decode_utf8_encode_utf8, encode_utf8, is_ascii_chars, is_ascii_chars_encode_utf8, valid_utf8,
};

verus! {

/// No path occurs twice.
pub open spec fn distinct(s: Seq<Seq<u8>>) -> bool {
    forall|i: int, j: int| 0 <= i < j < s.len() ==> s[i] != s[j]
}

/// Every key of `t` keeps its value in `u`.
pub open spec fn subtable(t: Seq<(Seq<u8>, u64)>, u: Seq<(Seq<u8>, u64)>) -> bool {
    forall|k: Seq<u8>| #[trigger] has_key(t, k) ==> find(u, k) == find(t, k)
}

/// Link messages only look up the children's paths, so a larger table gives the same ones.
proof fn lemma_link_msgs_stable(t: Seq<(Seq<u8>, u64)>, u: Seq<(Seq<u8>, u64)>, g: Seq<u8>, kids: Seq<Seq<u8>>)
    requires
        spec_link_msgs(t, g, kids) is Ok,
        subtable(t, u),
    ensures
        spec_link_msgs(u, g, kids) == spec_link_msgs(t, g, kids),
    decreases kids.len(),
{
    if kids.len() > 0 {
        lemma_link_msgs_stable(t, u, g, kids.drop_last());
        let kp = kid_path(g, kids.last());
        assert(has_key(t, kp));
    }
}

/// A group header is the same under a larger table.
pub proof fn lemma_group_ohdr_stable(t: Seq<(Seq<u8>, u64)>, u: Seq<(Seq<u8>, u64)>, g: Seq<u8>, kids: Seq<Seq<u8>>)
    requires
        spec_group_ohdr(t, g, kids) is Ok,
        subtable(t, u),
    ensures
        spec_group_ohdr(u, g, kids) == spec_group_ohdr(t, g, kids),
{
    lemma_link_msgs_stable(t, u, g, kids);
}

/// The paths at one depth are paths of `ks` at that depth, without repeats.
pub proof fn lemma_at_depth(ks: Seq<Seq<u8>>, d: nat)
    requires
        distinct(ks),
    ensures
        distinct(at_depth(ks, d)),
        forall|i: int|
            0 <= i < at_depth(ks, d).len() ==> ks.contains(#[trigger] at_depth(ks, d)[i]) && depth_of(
                at_depth(ks, d)[i],
            ) == d,
    decreases ks.len(),
{
    if ks.len() > 0 {
        let prev = ks.drop_last();
        assert forall|i: int, j: int| 0 <= i < j < prev.len() implies prev[i] != prev[j] by {
            assert(prev[i] == ks[i] && prev[j] == ks[j]);
        }
        lemma_at_depth(prev, d);
        let a = at_depth(prev, d);
        assert forall|i: int| 0 <= i < a.len() implies ks.contains(#[trigger] a[i]) by {
            let j = choose|j: int| 0 <= j < prev.len() && prev[j] == a[i];
            assert(ks[j] == a[i]);
        }
        if depth_of(ks.last()) == d {
            let b = a.push(ks.last());
            assert(b == at_depth(ks, d));
            assert forall|i: int| 0 <= i < a.len() implies a[i] != ks.last() by {
                let j = choose|j: int| 0 <= j < prev.len() && prev[j] == a[i];
                assert(ks[j] == a[i]);
                assert(j < ks.len() - 1);
            }
            assert forall|i: int| 0 <= i < b.len() implies ks.contains(#[trigger] b[i]) && depth_of(b[i]) == d by {
                if i < a.len() {
                    assert(b[i] == a[i]);
                } else {
                    assert(ks[ks.len() - 1] == b[i]);
                }
            }
        }
    }
}

/// The paths from depth `d` down are paths of `ks`, without repeats.
proof fn lemma_depth_order(ks: Seq<Seq<u8>>, d: int)
    requires
        distinct(ks),
    ensures
        distinct(depth_order(ks, d)),
        forall|i: int| 0 <= i < depth_order(ks, d).len() ==> ks.contains(#[trigger] depth_order(ks, d)[i]) && depth_of(
            depth_order(ks, d)[i],
        ) <= d,
    decreases d + 1,
{
    if d >= 0 {
        lemma_at_depth(ks, d as nat);
        lemma_depth_order(ks, d - 1);
        let a = at_depth(ks, d as nat);
        let b = depth_order(ks, d - 1);
        let c = a + b;
        assert(c == depth_order(ks, d));
        assert forall|i: int| 0 <= i < c.len() implies ks.contains(#[trigger] c[i]) && depth_of(c[i]) <= d by {
            if i < a.len() {
                assert(c[i] == a[i]);
            } else {
                assert(c[i] == b[i - a.len()]);
            }
        }
        assert forall|i: int, j: int| 0 <= i < j < c.len() implies c[i] != c[j] by {
            if j < a.len() {
                assert(c[i] == a[i] && c[j] == a[j]);
            } else if i >= a.len() {
                assert(c[i] == b[i - a.len()] && c[j] == b[j - a.len()]);
            } else {
                assert(c[i] == a[i] && c[j] == b[j - a.len()]);
                assert(depth_of(a[i]) == d);
                assert(depth_of(b[j - a.len()]) <= d - 1);
            }
        }
    }
}

/// Order in which group headers are written: each path of `ks` at most once.
pub proof fn lemma_group_order(ks: Seq<Seq<u8>>)
    requires
        distinct(ks),
    ensures
        distinct(crate::encode::group_order(ks)),
        forall|i: int|
            0 <= i < crate::encode::group_order(ks).len() ==> ks.contains(
                #[trigger] crate::encode::group_order(ks)[i],
            ),
{
    lemma_depth_order(ks, crate::encode::max_depth(ks) as int);
}

/// Placing group headers: each placed group's header stands at the address
/// recorded for it, built from the final table; earlier entries stay.
#[verifier::spinoff_prover]
#[verifier::rlimit(50)]
pub proof fn lemma_place_groups(
    img2: Seq<u8>,
    t2: Seq<(Seq<u8>, u64)>,
    groups: Seq<(Seq<u8>, Seq<Seq<u8>>)>,
    order: Seq<Seq<u8>>,
)
    requires
        spec_place_groups(img2, t2, groups, order) matches Ok((out, _)) && out.len() <= u64::MAX,
        sorted_keys(t2),
        distinct(order),
        forall|i: int| 0 <= i < order.len() ==> !has_key(t2, #[trigger] order[i]),
    ensures
        ({
            let (out, t) = spec_place_groups(img2, t2, groups, order)->Ok_0;
            &&& out.len() >= img2.len()
            &&& out.subrange(0, img2.len() as int) == img2
            &&& sorted_keys(t)
            &&& subtable(t2, t)
            &&& forall|k: Seq<u8>| #[trigger] has_key(t, k) ==> has_key(t2, k) || order.contains(k)
            &&& forall|i: int|
                0 <= i < order.len() ==> (#[trigger] find(groups, order[i])) is Some && spec_group_ohdr(
                    t,
                    order[i],
                    find(groups, order[i])->Some_0,
                ) is Ok && header_at(
                    out,
                    t,
                    order[i],
                    spec_group_ohdr(t, order[i], find(groups, order[i])->Some_0)->Ok_0,
                    img2.len() as int,
                )
        }),
    decreases order.len(),
{
    let (out, t) = spec_place_groups(img2, t2, groups, order)->Ok_0;
    if order.len() == 0 {
        assert(out.subrange(0, img2.len() as int) =~= img2);
        assert forall|k: Seq<u8>| #[trigger] has_key(t2, k) implies find(t, k) == find(t2, k) by {}
    } else {
        let prev = order.drop_last();
        let (i1, t1) = spec_place_groups(img2, t2, groups, prev)->Ok_0;
        let k = order.last();
        let kids = find(groups, k)->Some_0;
        let b = spec_group_ohdr(t1, k, kids)->Ok_0;
        let p = align_img(i1);
        let v = p.len() as u64;
        assert(out == p + b);
        assert(t == put(t1, k, v));
        lemma_placed(i1, b);
        assert forall|i: int, j: int| 0 <= i < j < prev.len() implies prev[i] != prev[j] by {
            assert(prev[i] == order[i] && prev[j] == order[j]);
        }
        assert forall|i: int| 0 <= i < prev.len() implies !has_key(t2, #[trigger] prev[i]) by {
            assert(prev[i] == order[i]);
        }
        lemma_place_groups(img2, t2, groups, prev);
        lemma_prefix_trans(img2, i1, out);
        lemma_put_sorted(t1, k, v);
        assert(order[order.len() - 1] == k);
        assert(!has_key(t1, k)) by {
            if has_key(t1, k) {
                if !has_key(t2, k) {
                    let j = choose|j: int| 0 <= j < prev.len() && prev[j] == k;
                    assert(order[j] == k);
                }
            }
        }
        assert(subtable(t1, t)) by {
            assert forall|x: Seq<u8>| #[trigger] has_key(t1, x) implies find(t, x) == find(t1, x) by {
                lemma_find_put(t1, k, v, x);
            }
        }
        assert forall|x: Seq<u8>| #[trigger] has_key(t2, x) implies find(t, x) == find(t2, x) by {
            lemma_find_put(t1, k, v, x);
            assert(find(t1, x) == find(t2, x));
            assert(has_key(t1, x));
        }
        assert forall|x: Seq<u8>| #[trigger] has_key(t, x) implies has_key(t2, x) || order.contains(x) by {
            lemma_find_put(t1, k, v, x);
            if x != k {
                assert(has_key(t1, x));
                if !has_key(t2, x) {
                    let j = choose|j: int| 0 <= j < prev.len() && prev[j] == x;
                    assert(order[j] == x);
                }
            } else {
                assert(order[order.len() - 1] == x);
            }
        }
        lemma_group_ohdr_stable(t1, t, k, kids);
        lemma_find_put(t1, k, v, k);
        assert forall|i: int|
            0 <= i < order.len() implies (#[trigger] find(groups, order[i])) is Some && spec_group_ohdr(
            t,
            order[i],
            find(groups, order[i])->Some_0,
        ) is Ok && header_at(
            out,
            t,
            order[i],
            spec_group_ohdr(t, order[i], find(groups, order[i])->Some_0)->Ok_0,
            img2.len() as int,
        ) by {
            if i < order.len() - 1 {
                let g = order[i];
                assert(prev[i] == g);
                let gk = find(groups, g)->Some_0;
                assert(g != k);
                lemma_find_put(t1, k, v, g);
                lemma_group_ohdr_stable(t1, t, g, gk);
                let hdr = spec_group_ohdr(t1, g, gk)->Ok_0;
                let h = find(t1, g)->Some_0;
                lemma_prefix_range(i1, out, h as int, hdr.len() as int);
            } else {
                assert(out.subrange(p.len() as int, (p.len() + b.len()) as int) == b);
            }
        }
    }
}

/// `x` is `k` or lies under it (everything lies under the root).
pub open spec fn in_sub(k: Seq<u8>, x: Seq<u8>) -> bool {
    ||| k.len() == 0
    ||| x == k
    ||| (x.len() > k.len() && x.subrange(0, k.len() as int) == k && x[k.len() as int] == slash())
}

/// What lies under a child lies under its parent, and is not the parent.
pub proof fn lemma_sub_kid(g: Seq<u8>, n: Seq<u8>, x: Seq<u8>)
    requires
        plain_name(n),
        in_sub(kid_path(g, n), x),
    ensures
        in_sub(g, x),
        x != g,
        x.len() >= kid_path(g, n).len(),
{
    let a = kid_path(g, n);
    if g.len() > 0 {
        assert(a.subrange(0, g.len() as int) =~= g);
        assert(a[g.len() as int] == slash());
        if x != a {
            assert(x.subrange(0, g.len() as int) =~= a.subrange(0, g.len() as int)) by {
                assert forall|i: int| 0 <= i < g.len() implies x.subrange(0, g.len() as int)[i] == a.subrange(
                    0,
                    g.len() as int,
                )[i] by {
                    assert(x[i] == x.subrange(0, a.len() as int)[i]);
                }
            }
            assert(x[g.len() as int] == x.subrange(0, a.len() as int)[g.len() as int]);
        }
    }
}

/// Being under is transitive.
pub proof fn lemma_sub_trans(a: Seq<u8>, b: Seq<u8>, x: Seq<u8>)
    requires
        in_sub(a, b),
        in_sub(b, x),
    ensures
        in_sub(a, x),
{
    if a.len() > 0 && b != a && x != b {
        assert(x.subrange(0, a.len() as int) =~= a) by {
            assert forall|i: int| 0 <= i < a.len() implies x.subrange(0, a.len() as int)[i] == a[i] by {
                assert(x[i] == x.subrange(0, b.len() as int)[i]);
                assert(b[i] == b.subrange(0, a.len() as int)[i]);
            }
        }
        assert(x[a.len() as int] == x.subrange(0, b.len() as int)[a.len() as int]);
    }
}

/// Nothing lies under two different children of one group.
pub proof fn lemma_sub_disjoint(g: Seq<u8>, n1: Seq<u8>, n2: Seq<u8>, x: Seq<u8>)
    requires
        plain_name(n1),
        plain_name(n2),
        n1 != n2,
    ensures
        !(in_sub(kid_path(g, n1), x) && in_sub(kid_path(g, n2), x)),
{
    let a = kid_path(g, n1);
    let b = kid_path(g, n2);
    if in_sub(a, x) && in_sub(b, x) {
        let o: int = if g.len() == 0 { 0 } else { g.len() + 1int };
        assert(a.len() == o + n1.len() && b.len() == o + n2.len());
        assert forall|i: int| 0 <= i < n1.len() implies x[o + i] == n1[i] by {
            if x == a {
            } else {
                assert(x[o + i] == x.subrange(0, a.len() as int)[o + i]);
            }
        }
        assert forall|i: int| 0 <= i < n2.len() implies x[o + i] == n2[i] by {
            if x == b {
            } else {
                assert(x[o + i] == x.subrange(0, b.len() as int)[o + i]);
            }
        }
        if n1.len() < n2.len() {
            assert(x != a);
            assert(x[a.len() as int] == slash());
            assert(n2[n1.len() as int] != slash());
        } else if n2.len() < n1.len() {
            assert(x != b);
            assert(x[b.len() as int] == slash());
            assert(n1[n2.len() as int] != slash());
        } else {
            assert(n1 =~= n2);
        }
    }
}

/// Children of group `g` in `m`.
pub open spec fn kids_of(m: ModelView, g: Seq<u8>) -> Seq<Seq<u8>> {
    find(m.groups, g)->Some_0
}

/// Whether `x` is the path of a group or a dataset of `m`.
pub open spec fn is_key(m: ModelView, x: Seq<u8>) -> bool {
    has_key(m.groups, x) || has_key(m.datasets, x)
}

/// A graph that this crate writes and reads back unchanged: a tree of
/// groups in which each group lists its children once, by plain names, each
/// the path of exactly one group or dataset, with at most
/// `max_header_entries` children; every other path is listed by
/// its parent group; paths are in normal form and at most
/// `HDF5_MAX_WALK_DEPTH` components deep; datasets are storable.
pub open spec fn tree_file(m: ModelView) -> bool {
    &&& model_wf(m)
    &&& forall|g: Seq<u8>|
        #[trigger] has_key(m.groups, g) ==> distinct(kids_of(m, g)) && kids_of(m, g).len()
            <= crate::image::max_header_entries() && forall|j: int|
            0 <= j < kids_of(m, g).len() ==> plain_name(#[trigger] kids_of(m, g)[j]) && has_key(
                m.groups,
                kid_path(g, kids_of(m, g)[j]),
            ) != has_key(m.datasets, kid_path(g, kids_of(m, g)[j]))
    &&& forall|x: Seq<u8>|
        #[trigger] is_key(m, x) && x.len() > 0 ==> has_key(m.groups, split_path(x).0) && kids_of(
            m,
            split_path(x).0,
        ).contains(split_path(x).1) && x == kid_path(split_path(x).0, split_path(x).1)
    &&& forall|x: Seq<u8>|
        #[trigger] is_key(m, x) ==> spec_normalize(x) == Ok::<Seq<u8>, crate::error::HDF5Error>(x)
            && crate::encode::depth_of(x) <= crate::consts::HDF5_MAX_WALK_DEPTH
    &&& forall|x: Seq<u8>| #[trigger] has_key(m.datasets, x) ==> x.len() > 0 && storable(find(m.datasets, x)->Some_0)
}

/// A child's path lies under its group.
pub proof fn lemma_sub_child(p: Seq<u8>, n: Seq<u8>)
    requires
        plain_name(n),
    ensures
        in_sub(p, kid_path(p, n)),
        in_sub(kid_path(p, n), kid_path(p, n)),
{
    if p.len() > 0 {
        let x = kid_path(p, n);
        assert(x.subrange(0, p.len() as int) =~= p);
    }
}

/// A path of the graph under group `k`, other than `k`, lies under one of
/// its children.
pub proof fn lemma_sub_decompose(m: ModelView, k: Seq<u8>, x: Seq<u8>)
    requires
        tree_file(m),
        has_key(m.groups, k),
        is_key(m, x),
        in_sub(k, x),
        x != k,
    ensures
        exists|i: int|
            0 <= i < kids_of(m, k).len() && #[trigger] in_sub(kid_path(k, kids_of(m, k)[i]), x),
    decreases x.len(),
{
    assert(x.len() > 0);
    let (p, n) = split_path(x);
    assert(has_key(m.groups, p) && kids_of(m, p).contains(n) && x == kid_path(p, n));
    let j = choose|j: int| 0 <= j < kids_of(m, p).len() && kids_of(m, p)[j] == n;
    assert(plain_name(kids_of(m, p)[j]));
    lemma_sub_child(p, n);
    if p == k {
        assert(in_sub(kid_path(k, kids_of(m, k)[j]), x));
    } else {
        assert(in_sub(k, p)) by {
            if k.len() > 0 {
                assert(x.subrange(0, k.len() as int) == k && x[k.len() as int] == slash());
                if p.len() == 0 {
                    assert(x == n);
                    assert(n[k.len() as int] != slash());
                }
                assert(x == p + seq![slash()] + n);
                if k.len() > p.len() {
                    assert(x[k.len() as int] == n[k.len() - p.len() - 1]);
                }
                if k.len() == p.len() {
                    assert(k =~= p) by {
                        assert forall|i: int| 0 <= i < k.len() implies k[i] == p[i] by {
                            assert(x.subrange(0, k.len() as int)[i] == x[i]);
                        }
                    }
                }
                assert(k.len() < p.len());
                assert(p.subrange(0, k.len() as int) =~= k) by {
                    assert forall|i: int| 0 <= i < k.len() implies p.subrange(0, k.len() as int)[i] == k[i] by {
                        assert(x.subrange(0, k.len() as int)[i] == x[i]);
                    }
                }
                assert(p[k.len() as int] == x[k.len() as int]);
            }
        }
        assert(is_key(m, p));
        assert(p.len() < x.len());
        lemma_sub_decompose(m, k, p);
        let i = choose|i: int| 0 <= i < kids_of(m, k).len() && #[trigger] in_sub(kid_path(k, kids_of(m, k)[i]), p);
        lemma_sub_trans(kid_path(k, kids_of(m, k)[i]), p, x);
    }
}

/// Children of group `g` as read from its link messages: name and the
/// address that the table records for the child's path.
pub open spec fn links_of(t: Seq<(Seq<u8>, u64)>, g: Seq<u8>, kids: Seq<Seq<u8>>) -> Seq<(Seq<char>, u64)> {
    Seq::new(kids.len(), |i: int| (decode_utf8(kids[i]), find(t, kid_path(g, kids[i]))->Some_0))
}

/// Link messages to plain-named children of `g`: one link message per
/// child, each with a body under 64 KiB, read back as the children's names
/// and recorded addresses.
proof fn lemma_group_links(t: Seq<(Seq<u8>, u64)>, pre: Seq<MsgView>, g: Seq<u8>, kids: Seq<Seq<u8>>)
    requires
        spec_link_msgs(t, g, kids) is Ok,
        forall|i: int| 0 <= i < kids.len() ==> plain_name(#[trigger] kids[i]),
        forall|j: int| 0 <= j < pre.len() ==> (#[trigger] pre[j]).ty != HDF5_MSG_LINK,
    ensures
        spec_link_msgs(t, g, kids) matches Ok(lm) && lm.len() == kids.len() && spec_links(pre + lm, 8) == Ok::<
            Seq<(Seq<char>, u64)>,
            HDF5Error,
        >(links_of(t, g, kids)) && (forall|j: int|
            0 <= j < lm.len() ==> (#[trigger] lm[j]).ty == HDF5_MSG_LINK && lm[j].body.len() < 65536),
        forall|i: int| 0 <= i < kids.len() ==> (#[trigger] find(t, kid_path(g, kids[i]))) is Some,
    decreases kids.len(),
{
    let lm = spec_link_msgs(t, g, kids)->Ok_0;
    if kids.len() == 0 {
        assert(pre + lm =~= pre);
        lemma_links_none(pre);
        assert(links_of(t, g, kids) =~= Seq::<(Seq<char>, u64)>::empty());
    } else {
        let prev = kids.drop_last();
        assert forall|i: int| 0 <= i < prev.len() implies plain_name(#[trigger] prev[i]) by {
            assert(prev[i] == kids[i]);
        }
        lemma_group_links(t, pre, g, prev);
        let lm0 = spec_link_msgs(t, g, prev)->Ok_0;
        let k = kids.last();
        assert(kids.last() == kids[kids.len() - 1]);
        let a = find(t, kid_path(g, k))->Some_0;
        law_hard_link_roundtrip(k, a);
        let b = spec_hard_link(k, a)->Ok_0;
        let x = msg(HDF5_MSG_LINK, 0, b);
        assert(lm == lm0.push(x));
        let ms = pre + lm;
        assert(ms.drop_last() =~= pre + lm0);
        assert(ms.last() == x);
        assert(links_of(t, g, prev).push((decode_utf8(k), a)) =~= links_of(t, g, kids));
        assert forall|j: int| 0 <= j < lm.len() implies (#[trigger] lm[j]).ty == HDF5_MSG_LINK && lm[j].body.len()
            < 65536 by {
            if j < lm0.len() {
                assert(lm[j] == lm0[j]);
            }
        }
        assert forall|i: int| 0 <= i < kids.len() implies (#[trigger] find(t, kid_path(g, kids[i]))) is Some by {
            if i < prev.len() {
                assert(prev[i] == kids[i]);
            }
        }
    }
}

/// Reading the header written for group `g` gives no dataset, and the
/// group's children at their recorded addresses.
#[verifier::spinoff_prover]
#[verifier::rlimit(50)]
pub proof fn lemma_group_header(
    d: Seq<u8>,
    sb: crate::superblock::Superblock,
    a: u64,
    t: Seq<(Seq<u8>, u64)>,
    g: Seq<u8>,
    kids: Seq<Seq<u8>>,
)
    requires
        spec_group_ohdr(t, g, kids) matches Ok(b) && a + b.len() <= d.len() && d.subrange(a as int, a + b.len()) == b,
        d.len() <= usize::MAX,
        kids.len() <= crate::image::max_header_entries(),
        sb.offset_size == 8,
        sb.length_size == 8,
        forall|i: int| 0 <= i < kids.len() ==> plain_name(#[trigger] kids[i]),
    ensures
        spec_parse_ohdr(d, a, 8, 8) matches Ok(ms) && spec_try_dataset(d, 8, 8, ms) == Ok::<
            Option<DatasetView>,
            HDF5Error,
        >(None) && spec_group_kids(d, sb, ms, None, None) == Ok::<Seq<(Seq<char>, u64)>, HDF5Error>(
            links_of(t, g, kids),
        ),
        forall|i: int| 0 <= i < kids.len() ==> (#[trigger] find(t, kid_path(g, kids[i]))) is Some,
{
    let pre = group_msgs(Seq::empty());
    assert(pre == seq![
        msg(HDF5_MSG_LINK_INFO, 0, crate::messages::spec_link_info()),
        msg(crate::consts::HDF5_MSG_GROUP_INFO, 0, crate::messages::spec_group_info()),
    ]);
    lemma_group_links(t, pre, g, kids);
    let lm = spec_link_msgs(t, g, kids)->Ok_0;
    let ms = pre + lm;
    assert(ms =~= group_msgs(lm));
    assert(ms[0] == pre[0] && ms[1] == pre[1]);
    assert forall|j: int| 0 <= j < ms.len() implies (#[trigger] ms[j]).ty != crate::consts::HDF5_MSG_NIL
        && ms[j].ty != crate::consts::HDF5_MSG_CONTINUATION && ms[j].body.len() < 65536 && ms[j].ty
        != HDF5_MSG_DATATYPE && ms[j].ty != HDF5_MSG_SYMBOL_TABLE by {
        if j >= 2 {
            assert(ms[j] == lm[j - 2]);
        }
    }
    assert(writable_msgs(ms));
    lemma_ohdr_len(ms);
    crate::ohdr::lemma_chunk_bytes_bound(ms);
    assert(65539 * ms.len() <= u32::MAX) by (nonlinear_arith)
        requires
            ms.len() <= 65002,
    ;
    law_ohdr_v2_roundtrip(d, a, ms, 8, 8);
    lemma_first_msg_at(ms, HDF5_MSG_DATATYPE, ms.len() as int);
    lemma_first_msg_at(ms, HDF5_MSG_SYMBOL_TABLE, ms.len() as int);
    lemma_first_msg_at(ms, HDF5_MSG_LINK_INFO, 0);
    lemma_link_info_compact();
    reveal(spec_try_dataset);
    reveal(spec_group_kids);
    if kids.len() == 0 {
        assert(links_of(t, g, kids) =~= Seq::<(Seq<char>, u64)>::empty());
    }
}

/// Encoding a concatenation concatenates the encodings.
proof fn lemma_encode_concat(a: Seq<char>, b: Seq<char>)
    ensures
        encode_utf8(a + b) == encode_utf8(a) + encode_utf8(b),
    decreases a.len(),
{
    if a.len() == 0 {
        assert(a + b =~= b);
        assert(encode_utf8(a) =~= Seq::<u8>::empty());
        assert(encode_utf8(a) + encode_utf8(b) =~= encode_utf8(b));
    } else {
        lemma_encode_concat(a.drop_first(), b);
        assert((a + b).drop_first() =~= a.drop_first() + b);
        assert((a + b)[0] == a[0]);
        assert(encode_utf8(a + b) =~= encode_utf8(a) + encode_utf8(b));
    }
}

/// The characters of a child's path encode to the child's path.
pub proof fn lemma_child_chars(c: Seq<char>, g: Seq<u8>, n: Seq<u8>)
    requires
        encode_utf8(c) == g,
        valid_utf8(n),
    ensures
        encode_utf8(child_path(c, decode_utf8(n))) == kid_path(g, n),
{
    decode_utf8_encode_utf8(n);
    if g.len() > 0 {
        let sl = seq!['/'];
        assert(is_ascii_chars(sl));
        is_ascii_chars_encode_utf8(sl);
        assert(encode_utf8(sl) =~= seq![slash()]);
        lemma_encode_concat(c, sl);
        lemma_encode_concat(c + sl, decode_utf8(n));
    }
}

/// The parent of a child's path is the group, its last component the name.
pub proof fn lemma_split_kid(g: Seq<u8>, n: Seq<u8>)
    requires
        plain_name(n),
    ensures
        split_path(kid_path(g, n)) == (g, n),
        kid_path(g, n).len() > g.len(),
{
    let x = kid_path(g, n);
    lemma_last_slash(x);
    let ls = last_slash(x);
    if g.len() == 0 {
        if ls >= 0 {
            assert(x[ls] == slash());
        }
    } else {
        assert(x == g + seq![slash()] + n);
        assert(x[g.len() as int] == slash());
        if ls > g.len() {
            assert(x[ls] == n[ls - g.len() - 1]);
        }
        assert(ls == g.len());
        assert(x.subrange(0, ls) =~= g);
        assert(x.subrange(ls + 1, x.len() as int) =~= n);
    }
}

/// Progress of reading a graph back, against the graph `m` it should give:
/// the paths marked done hold what `m` holds; the groups in `act` are being
/// read and list the first `act[g]` of their children; nothing else is there.
pub open spec fn st(big: ModelView, m: ModelView, done: spec_fn(Seq<u8>) -> bool, act: Map<Seq<u8>, nat>) -> bool {
    &&& sorted_keys(big.groups)
    &&& sorted_keys(big.datasets)
    &&& forall|k: Seq<u8>|
        #[trigger] find(big.datasets, k) == if done(k) {
            find(m.datasets, k)
        } else {
            None
        }
    &&& forall|k: Seq<u8>|
        #[trigger] find(big.groups, k) == if act.dom().contains(k) {
            Some(kids_of(m, k).take(act[k] as int))
        } else if done(k) {
            find(m.groups, k)
        } else {
            None
        }
}

/// Creating child group `k` (the `i`-th child of active group `p`): it is
/// active with no children yet, and `p` lists one child more.
#[verifier::spinoff_prover]
#[verifier::rlimit(50)]
pub proof fn lemma_create_child(
    big: ModelView,
    m: ModelView,
    done: spec_fn(Seq<u8>) -> bool,
    act: Map<Seq<u8>, nat>,
    p: Seq<u8>,
    i: nat,
    k: Seq<u8>,
)
    requires
        tree_file(m),
        st(big, m, done, act),
        has_key(m.groups, p),
        act.dom().contains(p),
        act[p] == i,
        i < kids_of(m, p).len(),
        k == kid_path(p, kids_of(m, p)[i as int]),
        has_key(m.groups, k),
        !done(k),
        !act.dom().contains(k),
    ensures
        spec_create_group(big, k) matches Ok(b2) && st(b2, m, done, act.insert(p, i + 1).insert(k, 0)),
{
    let ks = kids_of(m, p);
    let n = ks[i as int];
    assert(plain_name(n));
    lemma_split_kid(p, n);
    assert(is_key(m, k));
    assert(!has_key(big.datasets, k)) by {
        assert(find(big.datasets, k) is None);
    }
    assert(has_key(big.groups, p)) by {
        assert(find(big.groups, p) is Some);
    }
    assert(!has_key(big.groups, k)) by {
        assert(find(big.groups, k) is None);
    }
    assert(p != k);
    let g1 = put(big.groups, k, Seq::<Seq<u8>>::empty());
    lemma_put_sorted(big.groups, k, Seq::<Seq<u8>>::empty());
    lemma_find_put(big.groups, k, Seq::<Seq<u8>>::empty(), p);
    assert(find(g1, p) == Some(ks.take(i as int)));
    assert(!ks.take(i as int).contains(n)) by {
        let t = ks.take(i as int);
        if t.contains(n) {
            let j = choose|j: int| 0 <= j < t.len() && #[trigger] t[j] == n;
            assert(ks[j] == n);
        }
    }
    assert(ks.take(i as int).push(n) =~= ks.take(i + 1int));
    let g2 = put(g1, p, ks.take(i + 1int));
    assert(add_kid(g1, p, n) == g2);
    lemma_put_sorted(g1, p, ks.take(i + 1int));
    let act2 = act.insert(p, i + 1).insert(k, 0);
    let b2 = ModelView { groups: g2, datasets: big.datasets };
    assert(spec_create_group_norm(big, k) == Ok::<ModelView, crate::error::ErrView>(b2));
    assert forall|x: Seq<u8>| #[trigger] find(g2, x) == if act2.dom().contains(x) {
        Some(kids_of(m, x).take(act2[x] as int))
    } else if done(x) {
        find(m.groups, x)
    } else {
        None
    } by {
        lemma_find_put(g1, p, ks.take(i + 1int), x);
        lemma_find_put(big.groups, k, Seq::<Seq<u8>>::empty(), x);
        if x == k {
            assert(kids_of(m, k).take(0) =~= Seq::<Seq<u8>>::empty());
        }
    }
}

/// Storing child dataset `k` (the `i`-th child of active group `p`): it is
/// done, and `p` lists one child more.
#[verifier::spinoff_prover]
#[verifier::rlimit(50)]
pub proof fn lemma_put_child(
    big: ModelView,
    m: ModelView,
    done: spec_fn(Seq<u8>) -> bool,
    act: Map<Seq<u8>, nat>,
    p: Seq<u8>,
    i: nat,
    k: Seq<u8>,
)
    requires
        tree_file(m),
        st(big, m, done, act),
        has_key(m.groups, p),
        act.dom().contains(p),
        act[p] == i,
        i < kids_of(m, p).len(),
        k == kid_path(p, kids_of(m, p)[i as int]),
        has_key(m.datasets, k),
        !act.dom().contains(k),
    ensures
        spec_put_dataset(big, k, find(m.datasets, k)->Some_0) matches Ok(b2) && st(
            b2,
            m,
            |x: Seq<u8>| done(x) || x == k,
            act.insert(p, i + 1),
        ),
{
    let ks = kids_of(m, p);
    let n = ks[i as int];
    let ds = find(m.datasets, k)->Some_0;
    assert(plain_name(n));
    lemma_split_kid(p, n);
    assert(is_key(m, k));
    assert(has_key(big.groups, p)) by {
        assert(find(big.groups, p) is Some);
    }
    assert(!has_key(m.groups, k));
    assert(p != k);
    assert(spec_ensure_parent_norm(big, k) == Ok::<(ModelView, Seq<u8>, Seq<u8>), crate::error::ErrView>(
        (big, p, n),
    ));
    assert(!ks.take(i as int).contains(n)) by {
        let t = ks.take(i as int);
        if t.contains(n) {
            let j = choose|j: int| 0 <= j < t.len() && #[trigger] t[j] == n;
            assert(ks[j] == n);
        }
    }
    assert(ks.take(i as int).push(n) =~= ks.take(i + 1int));
    let g1 = put(big.groups, p, ks.take(i + 1int));
    assert(add_kid(big.groups, p, n) == g1);
    lemma_put_sorted(big.groups, p, ks.take(i + 1int));
    lemma_remove(g1, k, k);
    lemma_find_put(big.groups, p, ks.take(i + 1int), k);
    assert(!has_key(g1, k)) by {
        assert(find(big.groups, k) is None);
    }
    assert(remove_key(g1, k) == g1);
    let d1 = put(big.datasets, k, ds);
    lemma_put_sorted(big.datasets, k, ds);
    let b2 = ModelView { groups: g1, datasets: d1 };
    assert(spec_put_dataset_norm(big, k, ds) == Ok::<ModelView, crate::error::ErrView>(b2));
    let done2 = |x: Seq<u8>| done(x) || x == k;
    let act2 = act.insert(p, i + 1);
    assert forall|x: Seq<u8>| #[trigger] find(d1, x) == if done2(x) {
        find(m.datasets, x)
    } else {
        None
    } by {
        lemma_find_put(big.datasets, k, ds, x);
    }
    assert forall|x: Seq<u8>| #[trigger] find(g1, x) == if act2.dom().contains(x) {
        Some(kids_of(m, x).take(act2[x] as int))
    } else if done2(x) {
        find(m.groups, x)
    } else {
        None
    } by {
        lemma_find_put(big.groups, p, ks.take(i + 1int), x);
    }
}

/// Slashes of a concatenation add up.
proof fn lemma_slash_count_concat(a: Seq<u8>, b: Seq<u8>)
    ensures
        slash_count(a + b) == slash_count(a) + slash_count(b),
    decreases b.len(),
{
    if b.len() == 0 {
        assert(a + b =~= a);
    } else {
        lemma_slash_count_concat(a, b.drop_last());
        assert((a + b).drop_last() =~= a + b.drop_last());
        assert((a + b).last() == b.last());
    }
}

/// A name without `/` has none.
proof fn lemma_slash_count_zero(n: Seq<u8>)
    requires
        forall|i: int| 0 <= i < n.len() ==> n[i] != slash(),
    ensures
        slash_count(n) == 0,
    decreases n.len(),
{
    if n.len() > 0 {
        lemma_slash_count_zero(n.drop_last());
        assert(n.last() == n[n.len() - 1]);
    }
}

/// A child is one level deeper than its group.
pub proof fn lemma_depth_kid(g: Seq<u8>, n: Seq<u8>)
    requires
        plain_name(n),
    ensures
        crate::encode::depth_of(kid_path(g, n)) == crate::encode::depth_of(g) + 1,
{
    lemma_slash_count_zero(n);
    if g.len() > 0 {
        lemma_slash_count_concat(g + seq![slash()], n);
        lemma_slash_count_concat(g, seq![slash()]);
        let one = seq![slash()];
        assert(one.drop_last() =~= Seq::<u8>::empty());
        assert(slash_count(one.drop_last()) == 0);
        assert(one.last() == slash());
        assert(slash_count(one) == 1);
    }
}

/// A path of the graph strictly under a non-root path `k` lies under a group `k`.
pub proof fn lemma_sub_ancestor(m: ModelView, k: Seq<u8>, x: Seq<u8>)
    requires
        tree_file(m),
        is_key(m, x),
        in_sub(k, x),
        x != k,
        k.len() > 0,
    ensures
        has_key(m.groups, k),
    decreases x.len(),
{
    let (p, n) = split_path(x);
    assert(has_key(m.groups, p) && kids_of(m, p).contains(n) && x == kid_path(p, n));
    let j = choose|j: int| 0 <= j < kids_of(m, p).len() && kids_of(m, p)[j] == n;
    assert(plain_name(kids_of(m, p)[j]));
    if p != k {
        assert(x.subrange(0, k.len() as int) == k && x[k.len() as int] == slash());
        if p.len() == 0 {
            assert(x == n);
            assert(n[k.len() as int] != slash());
        }
        assert(x == p + seq![slash()] + n);
        if k.len() > p.len() {
            assert(x[k.len() as int] == n[k.len() - p.len() - 1]);
        }
        if k.len() == p.len() {
            assert(k =~= p) by {
                assert forall|i: int| 0 <= i < k.len() implies k[i] == p[i] by {
                    assert(x.subrange(0, k.len() as int)[i] == x[i]);
                }
            }
        }
        assert(p.subrange(0, k.len() as int) =~= k) by {
            assert forall|i: int| 0 <= i < k.len() implies p.subrange(0, k.len() as int)[i] == k[i] by {
                assert(x.subrange(0, k.len() as int)[i] == x[i]);
            }
        }
        assert(p[k.len() as int] == x[k.len() as int]);
        assert(is_key(m, p));
        lemma_sub_ancestor(m, k, p);
    }
}

/// Progress that agrees on the paths of the graph is the same progress.
pub proof fn lemma_st_congr(
    big: ModelView,
    m: ModelView,
    d1: spec_fn(Seq<u8>) -> bool,
    d2: spec_fn(Seq<u8>) -> bool,
    act: Map<Seq<u8>, nat>,
)
    requires
        st(big, m, d1, act),
        forall|x: Seq<u8>| #[trigger] is_key(m, x) ==> (d1(x) <==> d2(x)),
    ensures
        st(big, m, d2, act),
{
    assert forall|k: Seq<u8>| #[trigger] find(big.datasets, k) == if d2(k) {
        find(m.datasets, k)
    } else {
        None
    } by {
        if !is_key(m, k) {
            assert(!has_key(m.datasets, k));
        }
    }
    assert forall|k: Seq<u8>| #[trigger] find(big.groups, k) == if act.dom().contains(k) {
        Some(kids_of(m, k).take(act[k] as int))
    } else if d2(k) {
        find(m.groups, k)
    } else {
        None
    } by {
        if !is_key(m, k) {
            assert(!has_key(m.groups, k));
        }
    }
}

/// A group whose children have all been read is done.
pub proof fn lemma_st_finish(big: ModelView, m: ModelView, done: spec_fn(Seq<u8>) -> bool, act: Map<Seq<u8>, nat>, k: Seq<u8>)
    requires
        st(big, m, done, act),
        has_key(m.groups, k),
        !has_key(m.datasets, k),
        act.dom().contains(k),
        act[k] == kids_of(m, k).len(),
    ensures
        st(big, m, |x: Seq<u8>| done(x) || x == k, act.remove(k)),
{
    assert(kids_of(m, k).take(kids_of(m, k).len() as int) =~= kids_of(m, k));
    let d2 = |x: Seq<u8>| done(x) || x == k;
    let a2 = act.remove(k);
    assert forall|x: Seq<u8>| #[trigger] find(big.datasets, x) == if d2(x) {
        find(m.datasets, x)
    } else {
        None
    } by {}
    assert forall|x: Seq<u8>| #[trigger] find(big.groups, x) == if a2.dom().contains(x) {
        Some(kids_of(m, x).take(a2[x] as int))
    } else if d2(x) {
        find(m.groups, x)
    } else {
        None
    } by {}
}

/// Paths under one of the children `j..` of group `k`.
pub open spec fn under_kids(k: Seq<u8>, ks: Seq<Seq<u8>>, j: int, x: Seq<u8>) -> bool {
    exists|i: int| j <= i < ks.len() && #[trigger] in_sub(kid_path(k, ks[i]), x)
}

/// Where the headers of a written graph stand: each group's header, built
/// from the table, at the address the table records for it; each dataset
/// readable at its recorded address.
pub open spec fn layout_ok(img: Seq<u8>, sb: crate::superblock::Superblock, t: Seq<(Seq<u8>, u64)>, m: ModelView) -> bool {
    &&& sb.offset_size == 8
    &&& sb.length_size == 8
    &&& img.len() <= usize::MAX
    &&& forall|g: Seq<u8>|
        #![trigger has_key(m.groups, g), has_key(t, g)]
        has_key(m.groups, g) && has_key(t, g) ==> (spec_group_ohdr(t, g, kids_of(m, g)) matches Ok(b) && header_at(
            img,
            t,
            g,
            b,
            0,
        ))
    &&& forall|k: Seq<u8>| #[trigger] has_key(m.datasets, k) ==> readable_at(img, t, k, find(m.datasets, k)->Some_0)
}

/// Reading the `i`-th child `k` of group `p` stores everything under `k`.
#[verifier::spinoff_prover]
#[verifier::rlimit(80)]
pub proof fn lemma_walk_node(
    img: Seq<u8>,
    sb: crate::superblock::Superblock,
    t: Seq<(Seq<u8>, u64)>,
    m: ModelView,
    k: Seq<u8>,
    c: Seq<char>,
    big: ModelView,
    done: spec_fn(Seq<u8>) -> bool,
    act: Map<Seq<u8>, nat>,
    p: Seq<u8>,
    i: nat,
    depth: nat,
)
    requires
        layout_ok(img, sb, t, m),
        tree_file(m),
        st(big, m, done, act),
        has_key(m.groups, p),
        act.dom().contains(p),
        act[p] == i,
        i < kids_of(m, p).len(),
        k == kid_path(p, kids_of(m, p)[i as int]),
        has_key(t, k),
        encode_utf8(c) == k,
        depth == crate::encode::depth_of(k),
        forall|x: Seq<u8>| #[trigger] in_sub(k, x) ==> !done(x) && !act.dom().contains(x),
    ensures
        spec_walk(img, sb, find(t, k)->Some_0, c, big, depth, None, None) matches Ok(b2) && st(
            b2,
            m,
            |x: Seq<u8>| done(x) || in_sub(k, x),
            act.insert(p, i + 1),
        ),
    decreases HDF5_MAX_WALK_DEPTH + 1 - depth, 1nat, 0nat,
{
    let ks = kids_of(m, p);
    let n = ks[i as int];
    assert(plain_name(n));
    lemma_split_kid(p, n);
    assert(is_key(m, k));
    assert(depth <= HDF5_MAX_WALK_DEPTH);
    lemma_sub_child(p, n);
    let d_all = |x: Seq<u8>| done(x) || in_sub(k, x);
    if has_key(m.groups, k) {
        let kk = kids_of(m, k);
        assert(forall|j: int| 0 <= j < kk.len() ==> plain_name(#[trigger] kk[j]));
        let b = spec_group_ohdr(t, k, kk)->Ok_0;
        let a = find(t, k)->Some_0;
        lemma_group_header(img, sb, a, t, k, kk);
        lemma_create_child(big, m, done, act, p, i, k);
        let b1 = spec_create_group(big, k)->Ok_0;
        let act1 = act.insert(p, i + 1).insert(k, 0);
        assert forall|j: int, x: Seq<u8>|
            0 <= j < kk.len() && #[trigger] in_sub(kid_path(k, kk[j]), x) implies !done(x) && !act1.dom().contains(
            x,
        ) by {
            lemma_sub_kid(k, kk[j], x);
            lemma_split_kid(k, kk[j]);
        }
        lemma_walk_kids_tree(img, sb, t, m, k, c, b1, done, act1, 0, depth);
        let links = links_of(t, k, kk);
        assert(links.subrange(0, kk.len() as int) =~= links);
        let b2 = spec_walk_kids(img, sb, links, c, b1, depth)->Ok_0;
        let d_kids = |x: Seq<u8>| done(x) || under_kids(k, kk, 0, x);
        assert(spec_walk(img, sb, a, c, big, depth, None, None) == Ok::<ModelView, crate::error::ErrView>(b2));
        lemma_st_finish(b2, m, d_kids, act1.insert(k, kk.len()), k);
        assert(act1.insert(k, kk.len()).remove(k) =~= act.insert(p, i + 1));
        assert forall|x: Seq<u8>| #[trigger] is_key(m, x) implies ((d_kids(x) || x == k) <==> d_all(x)) by {
            if under_kids(k, kk, 0, x) {
                let j = choose|j: int| 0 <= j < kk.len() && #[trigger] in_sub(kid_path(k, kk[j]), x);
                lemma_sub_kid(k, kk[j], x);
            }
            if in_sub(k, x) && x != k {
                lemma_sub_decompose(m, k, x);
                let j = choose|j: int| 0 <= j < kk.len() && #[trigger] in_sub(kid_path(k, kk[j]), x);
                assert(under_kids(k, kk, 0, x));
            }
        }
        lemma_st_congr(b2, m, |x: Seq<u8>| d_kids(x) || x == k, d_all, act.insert(p, i + 1));
    } else {
        let ds = find(m.datasets, k)->Some_0;
        assert(storable(ds));
        assert(readable_at(img, t, k, ds));
        let a = choose|a: u64|
            (#[trigger] spec_dataset_ohdr(ds, a)) is Ok && header_at(img, t, k, spec_dataset_ohdr(ds, a)->Ok_0, 0) && (
            ds.data.len() > 0 ==> a + ds.data.len() <= img.len() && img.subrange(a as int, a + ds.data.len())
                == ds.data);
        let h = find(t, k)->Some_0;
        lemma_dataset_parse(img, h, ds, a);
        lemma_dataset_try(img, ds, a);
        lemma_put_child(big, m, done, act, p, i, k);
        let b2 = spec_put_dataset(big, k, ds)->Ok_0;
        assert(spec_walk(img, sb, h, c, big, depth, None, None) == Ok::<ModelView, crate::error::ErrView>(b2));
        assert forall|x: Seq<u8>| #[trigger] is_key(m, x) implies ((done(x) || x == k) <==> d_all(x)) by {
            if in_sub(k, x) && x != k {
                lemma_sub_ancestor(m, k, x);
            }
        }
        lemma_st_congr(b2, m, |x: Seq<u8>| done(x) || x == k, d_all, act.insert(p, i + 1));
    }
}

/// Reading the children of group `k` from the `j`-th on stores everything
/// under them, and `k` lists them all.
#[verifier::spinoff_prover]
#[verifier::rlimit(80)]
pub proof fn lemma_walk_kids_tree(
    img: Seq<u8>,
    sb: crate::superblock::Superblock,
    t: Seq<(Seq<u8>, u64)>,
    m: ModelView,
    k: Seq<u8>,
    c: Seq<char>,
    big: ModelView,
    done: spec_fn(Seq<u8>) -> bool,
    act: Map<Seq<u8>, nat>,
    j: nat,
    depth: nat,
)
    requires
        layout_ok(img, sb, t, m),
        tree_file(m),
        st(big, m, done, act),
        has_key(m.groups, k),
        act.dom().contains(k),
        act[k] == j,
        j <= kids_of(m, k).len(),
        encode_utf8(c) == k,
        depth == crate::encode::depth_of(k),
        forall|i: int| 0 <= i < kids_of(m, k).len() ==> (#[trigger] find(t, kid_path(k, kids_of(m, k)[i]))) is Some,
        forall|i: int, x: Seq<u8>|
            j <= i < kids_of(m, k).len() && #[trigger] in_sub(kid_path(k, kids_of(m, k)[i]), x) ==> !done(x)
                && !act.dom().contains(x),
    ensures
        spec_walk_kids(
            img,
            sb,
            links_of(t, k, kids_of(m, k)).subrange(j as int, kids_of(m, k).len() as int),
            c,
            big,
            depth,
        ) matches Ok(b2) && st(
            b2,
            m,
            |x: Seq<u8>| done(x) || under_kids(k, kids_of(m, k), j as int, x),
            act.insert(k, kids_of(m, k).len()),
        ),
    decreases HDF5_MAX_WALK_DEPTH + 1 - depth, 0nat, kids_of(m, k).len() - j,
{
    let ks = kids_of(m, k);
    let len = ks.len();
    let links = links_of(t, k, ks);
    let rest = links.subrange(j as int, len as int);
    assert(is_key(m, k));
    assert(depth <= HDF5_MAX_WALK_DEPTH);
    let d_end = |x: Seq<u8>| done(x) || under_kids(k, ks, j as int, x);
    if j == len {
        assert(rest.len() == 0);
        assert(act.insert(k, len) =~= act);
        assert forall|x: Seq<u8>| #[trigger] is_key(m, x) implies (done(x) <==> d_end(x)) by {}
        lemma_st_congr(big, m, done, d_end, act);
    } else {
        let n = ks[j as int];
        let ck = kid_path(k, n);
        assert(plain_name(n));
        assert(rest[0] == (decode_utf8(n), find(t, ck)->Some_0));
        assert(rest.drop_first() =~= links.subrange(j + 1int, len as int));
        let cc = child_path(c, decode_utf8(n));
        lemma_child_chars(c, k, n);
        lemma_depth_kid(k, n);
        assert(has_key(t, ck)) by {
            assert(find(t, kid_path(k, ks[j as int])) is Some);
        }
        assert forall|x: Seq<u8>| #[trigger] in_sub(ck, x) implies !done(x) && !act.dom().contains(x) by {
            assert(in_sub(kid_path(k, ks[j as int]), x));
        }
        lemma_walk_node(img, sb, t, m, ck, cc, big, done, act, k, j, depth + 1);
        let b1 = spec_walk(img, sb, find(t, ck)->Some_0, cc, big, depth + 1, None, None)->Ok_0;
        let d1 = |x: Seq<u8>| done(x) || in_sub(ck, x);
        let act1 = act.insert(k, j + 1);
        assert forall|i: int, x: Seq<u8>|
            j + 1 <= i < len && #[trigger] in_sub(kid_path(k, ks[i]), x) implies !d1(x) && !act1.dom().contains(x) by {
            assert(ks[i] != n);
            assert(plain_name(ks[i]));
            lemma_sub_disjoint(k, n, ks[i], x);
            lemma_sub_kid(k, ks[i], x);
        }
        lemma_walk_kids_tree(img, sb, t, m, k, c, b1, d1, act1, j + 1, depth);
        let b2 = spec_walk_kids(img, sb, links.subrange(j + 1int, len as int), c, b1, depth)->Ok_0;
        assert(spec_walk_kids(img, sb, rest, c, big, depth) == Ok::<ModelView, crate::error::ErrView>(b2));
        assert(act1.insert(k, len) =~= act.insert(k, len));
        let d2 = |x: Seq<u8>| d1(x) || under_kids(k, ks, j + 1int, x);
        assert forall|x: Seq<u8>| #[trigger] is_key(m, x) implies (d2(x) <==> d_end(x)) by {
            if under_kids(k, ks, j + 1int, x) {
                let i = choose|i: int| j + 1 <= i < len && #[trigger] in_sub(kid_path(k, ks[i]), x);
                assert(under_kids(k, ks, j as int, x));
            }
            if in_sub(ck, x) {
                assert(in_sub(kid_path(k, ks[j as int]), x));
                assert(under_kids(k, ks, j as int, x));
            }
            if under_kids(k, ks, j as int, x) {
                let i = choose|i: int| j <= i < len && #[trigger] in_sub(kid_path(k, ks[i]), x);
                if i > j {
                    assert(under_kids(k, ks, j + 1int, x));
                }
            }
        }
        lemma_st_congr(b2, m, d2, d_end, act.insert(k, len));
    }
}

/// Placing group headers never shortens the image.
proof fn lemma_place_groups_len(
    img2: Seq<u8>,
    t2: Seq<(Seq<u8>, u64)>,
    groups: Seq<(Seq<u8>, Seq<Seq<u8>>)>,
    order: Seq<Seq<u8>>,
)
    requires
        spec_place_groups(img2, t2, groups, order) is Ok,
    ensures
        spec_place_groups(img2, t2, groups, order)->Ok_0.0.len() >= img2.len(),
    decreases order.len(),
{
    if order.len() > 0 {
        lemma_place_groups_len(img2, t2, groups, order.drop_last());
        crate::image::lemma_align_img(spec_place_groups(img2, t2, groups, order.drop_last())->Ok_0.0);
    }
}

/// No path is both a group and a dataset of a tree graph.
proof fn lemma_tree_disjoint(m: ModelView, g: Seq<u8>)
    requires
        tree_file(m),
        has_key(m.groups, g),
    ensures
        !has_key(m.datasets, g),
{
    if g.len() > 0 {
        assert(is_key(m, g));
        let (p, n) = split_path(g);
        let j = choose|j: int| 0 <= j < kids_of(m, p).len() && kids_of(m, p)[j] == n;
        assert(has_key(m.groups, p));
        assert(has_key(m.groups, kid_path(p, kids_of(m, p)[j])) != has_key(m.datasets, kid_path(p, kids_of(m, p)[j])));
    } else if has_key(m.datasets, g) {
        assert(g.len() > 0);
    }
}

/// The keys of a sorted table occur once each.
pub proof fn lemma_keys_distinct<V>(s: Seq<(Seq<u8>, V)>)
    requires
        sorted_keys(s),
    ensures
        distinct(crate::table::keys(s)),
{
    let ks = crate::table::keys(s);
    assert forall|i: int, j: int| 0 <= i < j < ks.len() implies ks[i] != ks[j] by {
        assert(crate::paths::lex_lt(s[i].0, s[j].0));
        lemma_lex_irrefl(s[i].0);
    }
}

/// The image written for a tree graph: the superblock names the root
/// header, and every group header and dataset stands where the final table
/// of addresses says.
#[verifier::spinoff_prover]
#[verifier::rlimit(100)]
proof fn lemma_tree_layout(m: ModelView)
    requires
        tree_file(m),
        spec_encode(m) matches Ok(img) && img.len() <= usize::MAX,
    ensures
        ({
            let img = spec_encode(m)->Ok_0;
            let (img1, addrs) = spec_place_data(crate::image::enc_start(), m.datasets);
            let (img2, t2) = crate::encode::spec_place_ds_ohdrs(img1, Seq::empty(), m.datasets, addrs)->Ok_0;
            let order = crate::encode::group_order(crate::table::keys(m.groups));
            let (img3, t3) = spec_place_groups(img2, t2, m.groups, order)->Ok_0;
            let root = find(t3, Seq::<u8>::empty())->Some_0;
            let sb = crate::superblock::Superblock {
                offset_size: 8,
                length_size: 8,
                root_ohdr: root,
                root_btree: None,
                root_heap: None,
            };
            &&& has_key(t3, Seq::<u8>::empty())
            &&& crate::superblock::spec_parse_superblock(img) == Ok::<crate::superblock::Superblock, HDF5Error>(sb)
            &&& layout_ok(img, sb, t3, m)
        }),
{
    let e = Seq::<u8>::empty();
    let img = spec_encode(m)->Ok_0;
    let ds = m.datasets;
    let start = crate::image::enc_start();
    let (img1, addrs) = spec_place_data(start, ds);
    crate::image::lemma_encode_parts(m);
    let (img2, t2) = crate::encode::spec_place_ds_ohdrs(img1, Seq::empty(), ds, addrs)->Ok_0;
    let ks = crate::table::keys(m.groups);
    let order = crate::encode::group_order(ks);
    let (img3, t3) = spec_place_groups(img2, t2, m.groups, order)->Ok_0;
    let root = find(t3, e)->Some_0;
    let sbb = crate::superblock::spec_superblock_v2(root, img3.len() as u64);
    assert(img == sbb + img3.subrange(48, img3.len() as int));
    crate::image::lemma_place_data_len(start, ds);
    crate::image::lemma_place_ds_len(img1, ds, addrs);
    lemma_place_groups_len(img2, t2, m.groups, order);
    assert(sbb.len() == 48);
    crate::image::lemma_place_data(start, ds);
    crate::image::lemma_place_ds_ohdrs(img1, ds, addrs);
    crate::image::lemma_place_ds_keys(img1, ds, addrs);
    lemma_keys_distinct(m.groups);
    lemma_group_order(ks);
    assert forall|i: int| 0 <= i < order.len() implies !has_key(t2, #[trigger] order[i]) by {
        let g = order[i];
        assert(ks.contains(g));
        let j = choose|j: int| 0 <= j < ks.len() && ks[j] == g;
        assert(m.groups[j].0 == g);
        crate::table::lemma_has_key(m.groups, g, j);
        lemma_tree_disjoint(m, g);
    }
    lemma_place_groups_len(img2, t2, m.groups, order);
    lemma_place_groups(img2, t2, m.groups, order);
    assert(img.subrange(0, 48) =~= sbb);
    crate::superblock::law_superblock_roundtrip(img, root, img3.len() as u64);
    let sb = crate::superblock::spec_parse_superblock(img)->Ok_0;
    assert forall|a: int, n: int| 48 <= a && 0 <= n && a + n <= img3.len() implies #[trigger] img.subrange(a, a + n)
        == img3.subrange(a, a + n) by {
        crate::image::lemma_tail_range(sbb, img3, a, n);
    }
    assert forall|g: Seq<u8>| #![trigger has_key(m.groups, g), has_key(t3, g)] has_key(m.groups, g) && has_key(t3, g) implies (
    spec_group_ohdr(t3, g, kids_of(m, g)) matches Ok(b) && header_at(img, t3, g, b, 0)) by {
        lemma_tree_disjoint(m, g);
        assert(!has_key(ds, g));
        assert(!has_key(t2, g));
        assert(order.contains(g));
        let i = choose|i: int| 0 <= i < order.len() && order[i] == g;
        assert(find(m.groups, order[i]) is Some);
        let b = spec_group_ohdr(t3, g, kids_of(m, g))->Ok_0;
        let h = find(t3, g)->Some_0;
        assert(header_at(img3, t3, g, b, img2.len() as int));
        assert(img.subrange(h as int, h + b.len()) == img3.subrange(h as int, h + b.len()));
    }
    assert forall|k: Seq<u8>| #[trigger] has_key(m.datasets, k) implies readable_at(img, t3, k, find(m.datasets, k)->Some_0) by {
        let c = count_lt(ds, k) as int;
        assert(ds[c].0 == k);
        let v = ds[c].1;
        let a = addrs[c];
        let hdr = spec_dataset_ohdr(v, a)->Ok_0;
        assert(spec_dataset_ohdr(ds[c].1, addrs[c]) is Ok);
        assert(header_at(img2, t2, ds[c].0, hdr, img1.len() as int));
        assert(has_key(t2, k));
        assert(find(t3, k) == find(t2, k));
        let h = find(t2, k)->Some_0;
        lemma_prefix_range(img2, img3, h as int, hdr.len() as int);
        assert(img.subrange(h as int, h + hdr.len()) == img3.subrange(h as int, h + hdr.len()));
        assert(header_at(img, t3, k, hdr, 0));
        if v.data.len() > 0 {
            let n = v.data.len() as int;
            assert(img1.subrange(a as int, a + n) == v.data);
            lemma_prefix_range(img1, img2, a as int, n);
            lemma_prefix_range(img2, img3, a as int, n);
            assert(img.subrange(a as int, a + n) == img3.subrange(a as int, a + n));
        }
        assert(readable_at(img, t3, k, v));
    }
}

/// Reading back the image written for a graph gives the same graph: every
/// group lists the same children in the same order, and every path holds the
/// same dataset (shape, kind, payload bytes and string attributes). The
/// graph is one that this crate writes and reads back unchanged
/// (`tree_file`), whose headers each fit their 4-byte chunk size field, and
/// the image fits in memory.
#[verifier::spinoff_prover]
#[verifier::rlimit(100)]
pub proof fn law_file_roundtrip(m: ModelView)
    requires
        tree_file(m),
        spec_encode(m) matches Ok(img) && img.len() <= usize::MAX,
    ensures
        crate::decode::spec_decode(spec_encode(m)->Ok_0) == Ok::<ModelView, crate::error::ErrView>(m),
{
    lemma_tree_layout(m);
    let e = Seq::<u8>::empty();
    let img = spec_encode(m)->Ok_0;
    let (img1, addrs) = spec_place_data(crate::image::enc_start(), m.datasets);
    let (img2, t2) = crate::encode::spec_place_ds_ohdrs(img1, Seq::empty(), m.datasets, addrs)->Ok_0;
    let order = crate::encode::group_order(crate::table::keys(m.groups));
    let (img3, t3) = spec_place_groups(img2, t2, m.groups, order)->Ok_0;
    let root = find(t3, e)->Some_0;
    let sb = crate::superblock::spec_parse_superblock(img)->Ok_0;
    let kk = kids_of(m, e);
    assert(has_key(m.groups, e));
    lemma_tree_disjoint(m, e);
    assert(forall|j: int| 0 <= j < kk.len() ==> plain_name(#[trigger] kk[j]));
    let b = spec_group_ohdr(t3, e, kk)->Ok_0;
    lemma_group_header(img, sb, root, t3, e, kk);
    let m0 = crate::model::empty_model();
    let done0 = |x: Seq<u8>| false;
    let act0 = Map::<Seq<u8>, nat>::empty().insert(e, 0nat);
    lemma_lex_irrefl(e);
    assert(st(m0, m, done0, act0)) by {
        assert(kids_of(m, e).take(0) =~= Seq::<Seq<u8>>::empty());
        assert forall|x: Seq<u8>| #[trigger] find(m0.groups, x) == if act0.dom().contains(x) {
            Some(kids_of(m, x).take(act0[x] as int))
        } else if done0(x) {
            find(m.groups, x)
        } else {
            None
        } by {
            if x != e {
                assert(!has_key(m0.groups, x));
            } else {
                assert(crate::table::count_lt(m0.groups, e) == 0);
            }
        }
        assert forall|x: Seq<u8>| #[trigger] find(m0.datasets, x) == if done0(x) {
            find(m.datasets, x)
        } else {
            None
        } by {
            assert(!has_key(m0.datasets, x));
        }
    }
    assert(encode_utf8(Seq::<char>::empty()) =~= e);
    assert forall|i: int, x: Seq<u8>|
        0 <= i < kk.len() && #[trigger] in_sub(kid_path(e, kk[i]), x) implies !done0(x) && !act0.dom().contains(x) by {
        lemma_sub_kid(e, kk[i], x);
        lemma_split_kid(e, kk[i]);
    }
    lemma_walk_kids_tree(img, sb, t3, m, e, Seq::empty(), m0, done0, act0, 0, 0);
    let links = links_of(t3, e, kk);
    assert(links.subrange(0, kk.len() as int) =~= links);
    let b2 = spec_walk_kids(img, sb, links, Seq::empty(), m0, 0)->Ok_0;
    assert(spec_walk(img, sb, root, Seq::empty(), m0, 0, None, None) == Ok::<ModelView, crate::error::ErrView>(b2));
    assert(crate::decode::spec_decode(img) == Ok::<ModelView, crate::error::ErrView>(b2));
    let d1 = |x: Seq<u8>| done0(x) || under_kids(e, kk, 0, x);
    lemma_st_finish(b2, m, d1, act0.insert(e, kk.len()), e);
    assert(act0.insert(e, kk.len()).remove(e) =~= Map::<Seq<u8>, nat>::empty());
    let d_all = |x: Seq<u8>| true;
    assert forall|x: Seq<u8>| #[trigger] is_key(m, x) implies ((d1(x) || x == e) <==> d_all(x)) by {
        if x != e {
            lemma_sub_decompose(m, e, x);
            let j = choose|j: int| 0 <= j < kk.len() && #[trigger] in_sub(kid_path(e, kk[j]), x);
            assert(under_kids(e, kk, 0, x));
        }
    }
    lemma_st_congr(b2, m, |x: Seq<u8>| d1(x) || x == e, d_all, Map::<Seq<u8>, nat>::empty());
    assert forall|k: Seq<u8>| #![trigger find(b2.groups, k), find(m.groups, k)] find(b2.groups, k) == find(m.groups, k) by {
        assert(find(b2.groups, k) == find(m.groups, k));
    }
    assert forall|k: Seq<u8>| #![trigger find(b2.datasets, k), find(m.datasets, k)] find(b2.datasets, k) == find(
        m.datasets,
        k,
    ) by {
        assert(find(b2.datasets, k) == find(m.datasets, k));
    }
    crate::table::lemma_sorted_ext(b2.groups, m.groups);
    crate::table::lemma_sorted_ext(b2.datasets, m.datasets);
    assert(b2 == m);
}

/// Every image this crate writes starts with the HDF5 format signature and
/// a version-2 superblock with 8-byte offsets and lengths, whose end-of-file
/// field is the image's length.
pub proof fn law_image_signature(m: ModelView)
    requires
        spec_encode(m) is Ok,
    ensures
        spec_encode(m)->Ok_0.len() >= 48,
        spec_encode(m)->Ok_0.subrange(0, 8) == crate::consts::HDF5_SIGNATURE@,
        spec_encode(m)->Ok_0[8] == 2,
        spec_encode(m)->Ok_0[9] == 8,
        spec_encode(m)->Ok_0[10] == 8,
        crate::buf::le_at(spec_encode(m)->Ok_0, 28, 8) == spec_encode(m)->Ok_0.len() as u64,
{
    crate::image::lemma_encode_parts(m);
    let start = crate::image::enc_start();
    let (img1, addrs) = spec_place_data(start, m.datasets);
    let (img2, t2) = crate::encode::spec_place_ds_ohdrs(img1, Seq::empty(), m.datasets, addrs)->Ok_0;
    let order = crate::encode::group_order(crate::table::keys(m.groups));
    let (img3, t3) = spec_place_groups(img2, t2, m.groups, order)->Ok_0;
    crate::image::lemma_place_data_len(start, m.datasets);
    crate::image::lemma_place_ds_len(img1, m.datasets, addrs);
    lemma_place_groups_len(img2, t2, m.groups, order);
    let root = find(t3, Seq::<u8>::empty())->Some_0;
    let eof = img3.len() as u64;
    let body = crate::superblock::spec_superblock_v2_body(root, eof);
    let sbb = crate::superblock::spec_superblock_v2(root, eof);
    let img = spec_encode(m)->Ok_0;
    assert(img == sbb + img3.subrange(48, img3.len() as int));
    assert(img.len() == img3.len());
    assert(img.subrange(0, 8) =~= crate::consts::HDF5_SIGNATURE@);
    let eb = crate::buf::le_bytes(eof as int, 8);
    reveal_with_fuel(crate::buf::pow256, 9);
    crate::buf::lemma_le_bytes_roundtrip(eof, 8);
    assert forall|k: int| 0 <= k < 8 implies #[trigger] img[28 + k] == eb[k] by {
        assert(img[28 + k] == sbb[28 + k]);
        assert(sbb[28 + k] == body[28 + k]);
    }
    assert(crate::buf::le_at(img, 28, 8) == crate::buf::le_at(eb, 0, 8)) by {
        assert(img[28] == eb[0] && img[29] == eb[1] && img[30] == eb[2] && img[31] == eb[3]);
        assert(img[32] == eb[4] && img[33] == eb[5] && img[34] == eb[6] && img[35] == eb[7]);
    }
}

} // verus!
