//! Which graphs are always written: when the encoder succeeds.
use vstd::prelude::*;

use crate::encode::{
    at_depth, depth_of, depth_order, group_order, kid_path, max_depth, spec_encode, spec_link_msgs,
    spec_place_data, spec_place_ds_ohdrs, spec_place_groups,
};
use crate::image::{plain_name, storable};
use crate::model::{DatasetView, ModelView};
use crate::table::{find, has_key, keys, lemma_find_put, lemma_has_key, lemma_put_sorted, put, sorted_keys};
use crate::tree::{distinct, kids_of, lemma_at_depth, lemma_depth_kid, lemma_keys_distinct, tree_file};

verus! {

/// A path of `ks` at depth `d` is among the paths at that depth.
proof fn lemma_at_depth_has(ks: Seq<Seq<u8>>, d: nat, x: Seq<u8>)
    requires
        ks.contains(x),
        depth_of(x) == d,
    ensures
        at_depth(ks, d).contains(x),
    decreases ks.len(),
{
    if ks.last() == x {
        let a = at_depth(ks, d);
        assert(a == at_depth(ks.drop_last(), d).push(x));
        assert(a[a.len() - 1] == x);
    } else {
        let i = choose|i: int| 0 <= i < ks.len() && ks[i] == x;
        assert(i < ks.len() - 1);
        assert(ks.drop_last()[i] == x);
        lemma_at_depth_has(ks.drop_last(), d, x);
        let a = at_depth(ks.drop_last(), d);
        let j = choose|j: int| 0 <= j < a.len() && a[j] == x;
        if depth_of(ks.last()) == d {
            assert(at_depth(ks, d)[j] == x);
        }
    }
}

/// Every path of `ks` no deeper than `d` is in the order from depth `d` down.
proof fn lemma_depth_order_has(ks: Seq<Seq<u8>>, d: int, x: Seq<u8>)
    requires
        ks.contains(x),
        depth_of(x) <= d,
    ensures
        depth_order(ks, d).contains(x),
    decreases d + 1,
{
    let a = at_depth(ks, d as nat);
    let b = depth_order(ks, d - 1);
    assert(depth_order(ks, d) == a + b);
    if depth_of(x) == d {
        lemma_at_depth_has(ks, d as nat, x);
        let j = choose|j: int| 0 <= j < a.len() && a[j] == x;
        assert((a + b)[j] == x);
    } else {
        lemma_depth_order_has(ks, d - 1, x);
        let j = choose|j: int| 0 <= j < b.len() && b[j] == x;
        assert((a + b)[a.len() + j] == x);
    }
}

/// In the order from depth `d` down, a path of `ks` deeper than the entry at
/// `i` (and no deeper than `d`) comes before it.
proof fn lemma_depth_order_before(ks: Seq<Seq<u8>>, d: int, i: int, x: Seq<u8>)
    requires
        distinct(ks),
        0 <= i < depth_order(ks, d).len(),
        ks.contains(x),
        depth_of(depth_order(ks, d)[i]) < depth_of(x) <= d,
    ensures
        depth_order(ks, d).subrange(0, i).contains(x),
    decreases d + 1,
{
    let a = at_depth(ks, d as nat);
    let b = depth_order(ks, d - 1);
    let c = a + b;
    assert(depth_order(ks, d) == c);
    lemma_at_depth(ks, d as nat);
    if i < a.len() {
        assert(c[i] == a[i]);
    } else if depth_of(x) == d {
        lemma_at_depth_has(ks, d as nat, x);
        let j = choose|j: int| 0 <= j < a.len() && a[j] == x;
        assert(c.subrange(0, i)[j] == x);
    } else {
        assert(c[i] == b[i - a.len()]);
        lemma_depth_order_before(ks, d - 1, i - a.len(), x);
        let bs = b.subrange(0, i - a.len());
        let j = choose|j: int| 0 <= j < bs.len() && bs[j] == x;
        assert(c.subrange(0, i)[a.len() + j] == x);
    }
}

/// No path of `ks` is deeper than their greatest depth.
proof fn lemma_max_depth(ks: Seq<Seq<u8>>, x: Seq<u8>)
    requires
        ks.contains(x),
    ensures
        depth_of(x) <= max_depth(ks),
    decreases ks.len(),
{
    if ks.last() != x {
        let i = choose|i: int| 0 <= i < ks.len() && ks[i] == x;
        assert(ks.drop_last()[i] == x);
        lemma_max_depth(ks.drop_last(), x);
    }
}

/// Link messages succeed when every child has a plain name and its path is
/// in the table.
proof fn lemma_link_msgs_ok(t: Seq<(Seq<u8>, u64)>, g: Seq<u8>, kids: Seq<Seq<u8>>)
    requires
        forall|j: int| 0 <= j < kids.len() ==> plain_name(#[trigger] kids[j]) && has_key(t, kid_path(g, kids[j])),
    ensures
        spec_link_msgs(t, g, kids) is Ok,
    decreases kids.len(),
{
    if kids.len() > 0 {
        let prev = kids.drop_last();
        assert forall|j: int| 0 <= j < prev.len() implies plain_name(#[trigger] prev[j]) && has_key(
            t,
            kid_path(g, prev[j]),
        ) by {
            assert(prev[j] == kids[j]);
        }
        lemma_link_msgs_ok(t, g, prev);
        assert(plain_name(kids[kids.len() - 1]));
    }
}

/// The children of the group at `order[i]` have plain names and paths that
/// are in `t` or come earlier in `order`.
pub open spec fn kids_ready(
    t: Seq<(Seq<u8>, u64)>,
    groups: Seq<(Seq<u8>, Seq<Seq<u8>>)>,
    order: Seq<Seq<u8>>,
    i: int,
) -> bool {
    let kids = find(groups, order[i])->Some_0;
    forall|j: int|
        0 <= j < kids.len() ==> plain_name(#[trigger] kids[j]) && (has_key(t, kid_path(order[i], kids[j]))
            || order.subrange(0, i).contains(kid_path(order[i], kids[j])))
}

/// Placing group headers succeeds when every group of `order` is in the
/// table of groups and its children are ready; the table of addresses stays
/// sorted, keeps its paths and gains each placed group.
proof fn lemma_place_groups_ok(
    img: Seq<u8>,
    t: Seq<(Seq<u8>, u64)>,
    groups: Seq<(Seq<u8>, Seq<Seq<u8>>)>,
    order: Seq<Seq<u8>>,
)
    requires
        sorted_keys(t),
        forall|i: int| 0 <= i < order.len() ==> has_key(groups, #[trigger] order[i]) && kids_ready(t, groups, order, i),
    ensures
        spec_place_groups(img, t, groups, order) matches Ok((_, t2)) && sorted_keys(t2) && (forall|k: Seq<u8>|
            has_key(t, k) ==> #[trigger] has_key(t2, k)) && (forall|i: int|
            0 <= i < order.len() ==> has_key(t2, #[trigger] order[i])),
    decreases order.len(),
{
    if order.len() > 0 {
        let n = order.len() - 1;
        let prev = order.drop_last();
        assert forall|i: int| 0 <= i < prev.len() implies has_key(groups, #[trigger] prev[i]) && kids_ready(
            t,
            groups,
            prev,
            i,
        ) by {
            assert(prev[i] == order[i]);
            assert(prev.subrange(0, i) =~= order.subrange(0, i));
            assert(kids_ready(t, groups, order, i));
        }
        lemma_place_groups_ok(img, t, groups, prev);
        let (i1, t1) = spec_place_groups(img, t, groups, prev)->Ok_0;
        let g = order[n];
        let kids = find(groups, g)->Some_0;
        assert(has_key(groups, g) && kids_ready(t, groups, order, n));
        assert forall|j: int| 0 <= j < kids.len() implies plain_name(#[trigger] kids[j]) && has_key(
            t1,
            kid_path(g, kids[j]),
        ) by {
            let kp = kid_path(g, kids[j]);
            if !has_key(t, kp) {
                let os = order.subrange(0, n);
                let i2 = choose|i2: int| 0 <= i2 < os.len() && os[i2] == kp;
                assert(prev[i2] == kp);
            }
        }
        lemma_link_msgs_ok(t1, g, kids);
        let v = crate::encode::align_img(i1).len() as u64;
        let t2 = put(t1, g, v);
        lemma_put_sorted(t1, g, v);
        assert forall|k: Seq<u8>| has_key(t1, k) implies #[trigger] has_key(t2, k) by {
            lemma_find_put(t1, g, v, k);
        }
        lemma_find_put(t1, g, v, g);
        assert forall|i: int| 0 <= i < order.len() implies has_key(t2, #[trigger] order[i]) by {
            if i < n {
                assert(prev[i] == order[i]);
            }
        }
    }
}

/// Placing dataset headers succeeds when every record is storable; the table
/// of addresses stays sorted, keeps its paths and gains each dataset's.
proof fn lemma_place_ds_ok(
    img: Seq<u8>,
    t: Seq<(Seq<u8>, u64)>,
    ds: Seq<(Seq<u8>, DatasetView)>,
    addrs: Seq<u64>,
)
    requires
        sorted_keys(t),
        forall|i: int| 0 <= i < ds.len() ==> storable(#[trigger] ds[i].1),
    ensures
        spec_place_ds_ohdrs(img, t, ds, addrs) matches Ok((_, t2)) && sorted_keys(t2) && (forall|k: Seq<u8>|
            has_key(t, k) ==> #[trigger] has_key(t2, k)) && (forall|i: int|
            0 <= i < ds.len() ==> has_key(t2, (#[trigger] ds[i]).0)),
    decreases ds.len(),
{
    if ds.len() > 0 {
        let n = ds.len() - 1;
        let prev = ds.drop_last();
        assert forall|i: int| 0 <= i < prev.len() implies storable(#[trigger] prev[i].1) by {
            assert(prev[i] == ds[i]);
        }
        lemma_place_ds_ok(img, t, prev, addrs);
        let (i1, t1) = spec_place_ds_ohdrs(img, t, prev, addrs)->Ok_0;
        assert(storable(ds[n].1));
        crate::image::lemma_dataset_writable(img, ds[n].1, addrs[n]);
        let k0 = ds[n].0;
        let v = crate::encode::align_img(i1).len() as u64;
        let t2 = put(t1, k0, v);
        lemma_put_sorted(t1, k0, v);
        assert forall|k: Seq<u8>| has_key(t1, k) implies #[trigger] has_key(t2, k) by {
            lemma_find_put(t1, k0, v, k);
        }
        lemma_find_put(t1, k0, v, k0);
        assert forall|i: int| 0 <= i < ds.len() implies has_key(t2, (#[trigger] ds[i]).0) by {
            if i < n {
                assert(prev[i] == ds[i]);
            }
        }
    }
}

/// A path of a sorted table is one of its keys.
proof fn lemma_key_in_keys<V>(s: Seq<(Seq<u8>, V)>, k: Seq<u8>)
    requires
        sorted_keys(s),
        has_key(s, k),
    ensures
        keys(s).contains(k),
{
    let c = crate::table::count_lt(s, k) as int;
    assert(keys(s)[c] == k);
}

/// A key of a sorted table is a path of it, holding the entry's value.
proof fn lemma_keys_has<V>(s: Seq<(Seq<u8>, V)>, k: Seq<u8>)
    requires
        sorted_keys(s),
        keys(s).contains(k),
    ensures
        has_key(s, k),
{
    let i = choose|i: int| 0 <= i < keys(s).len() && keys(s)[i] == k;
    lemma_has_key(s, k, i);
}

/// Writing never fails on a graph that this crate writes and reads back
/// unchanged (`tree_file`): a tree of groups whose children have plain
/// names, each the path of one group or dataset, with storable datasets
/// (contiguous, unfiltered, of a kind this crate writes).
pub proof fn law_encode_ok(m: ModelView)
    requires
        tree_file(m),
    ensures
        spec_encode(m) is Ok,
{
    let start = Seq::new(48, |i: int| 0u8);
    let (img1, addrs) = spec_place_data(start, m.datasets);
    assert forall|i: int| 0 <= i < m.datasets.len() implies storable(#[trigger] m.datasets[i].1) by {
        lemma_has_key(m.datasets, m.datasets[i].0, i);
        assert(has_key(m.datasets, m.datasets[i].0));
    }
    lemma_place_ds_ok(img1, Seq::empty(), m.datasets, addrs);
    let (img2, t2) = spec_place_ds_ohdrs(img1, Seq::empty(), m.datasets, addrs)->Ok_0;
    assert forall|k: Seq<u8>| #[trigger] has_key(m.datasets, k) implies has_key(t2, k) by {
        let c = crate::table::count_lt(m.datasets, k) as int;
        assert(m.datasets[c].0 == k);
    }
    let ks = keys(m.groups);
    let order = group_order(ks);
    let dmax = max_depth(ks) as int;
    lemma_keys_distinct(m.groups);
    crate::tree::lemma_group_order(ks);
    assert forall|i: int| 0 <= i < order.len() implies has_key(m.groups, #[trigger] order[i]) && kids_ready(
        t2,
        m.groups,
        order,
        i,
    ) by {
        let g = order[i];
        lemma_keys_has(m.groups, g);
        let kids = kids_of(m, g);
        assert forall|j: int| 0 <= j < kids.len() implies plain_name(#[trigger] kids[j]) && (has_key(
            t2,
            kid_path(g, kids[j]),
        ) || order.subrange(0, i).contains(kid_path(g, kids[j]))) by {
            let kp = kid_path(g, kids[j]);
            assert(plain_name(kids[j]));
            if !has_key(m.datasets, kp) {
                assert(has_key(m.groups, kp));
                lemma_key_in_keys(m.groups, kp);
                lemma_depth_kid(g, kids[j]);
                lemma_max_depth(ks, kp);
                lemma_depth_order_before(ks, dmax, i, kp);
            }
        }
    }
    lemma_place_groups_ok(img2, t2, m.groups, order);
    let (img3, t3) = spec_place_groups(img2, t2, m.groups, order)->Ok_0;
    let e = Seq::<u8>::empty();
    lemma_key_in_keys(m.groups, e);
    lemma_depth_order_has(ks, dmax, e);
    let i = choose|i: int| 0 <= i < order.len() && order[i] == e;
    assert(has_key(t3, order[i]));
}

/// The error that writing reports for a record with filtered or chunked
/// storage: filtering is named first.
pub open spec fn refusal(d: DatasetView) -> crate::error::HDF5Error {
    if d.filtered {
        crate::error::HDF5Error::FilteredNotSupported
    } else {
        crate::error::HDF5Error::ChunkedNotSupported
    }
}

/// A record that would be storable with contiguous, unfiltered storage.
pub open spec fn storable_but_layout(d: DatasetView) -> bool {
    storable(DatasetView { filtered: false, chunked: false, ..d })
}

/// Placing dataset headers fails with the refusal of the first record
/// stored filtered or chunked, when every record is otherwise storable.
proof fn lemma_place_ds_err(
    img: Seq<u8>,
    t: Seq<(Seq<u8>, u64)>,
    ds: Seq<(Seq<u8>, DatasetView)>,
    addrs: Seq<u64>,
    i: int,
)
    requires
        sorted_keys(t),
        forall|j: int| 0 <= j < ds.len() ==> storable_but_layout(#[trigger] ds[j].1),
        0 <= i < ds.len(),
        ds[i].1.filtered || ds[i].1.chunked,
        forall|j: int| 0 <= j < i ==> !(#[trigger] ds[j].1).filtered && !ds[j].1.chunked,
    ensures
        spec_place_ds_ohdrs(img, t, ds, addrs) == Err::<(Seq<u8>, Seq<(Seq<u8>, u64)>), crate::error::HDF5Error>(
            refusal(ds[i].1),
        ),
    decreases ds.len(),
{
    let n = ds.len() - 1;
    let prev = ds.drop_last();
    if i == n {
        assert forall|j: int| 0 <= j < prev.len() implies storable(#[trigger] prev[j].1) by {
            assert(prev[j] == ds[j]);
            assert(storable_but_layout(ds[j].1));
            assert(DatasetView { filtered: false, chunked: false, ..ds[j].1 } == ds[j].1);
        }
        lemma_place_ds_ok(img, t, prev, addrs);
    } else {
        assert forall|j: int| 0 <= j < prev.len() implies storable_but_layout(#[trigger] prev[j].1) by {
            assert(prev[j] == ds[j]);
        }
        assert forall|j: int| 0 <= j < i implies !(#[trigger] prev[j].1).filtered && !prev[j].1.chunked by {
            assert(prev[j] == ds[j]);
        }
        assert(prev[i] == ds[i]);
        lemma_place_ds_err(img, t, prev, addrs, i);
    }
}

/// Writing a graph some of whose datasets are stored filtered or chunked
/// fails, and names the first such dataset in path order: with
/// `FilteredNotSupported` if it is filtered, else `ChunkedNotSupported`
/// (every record being otherwise storable).
pub proof fn law_encode_refuses(m: ModelView, i: int)
    requires
        forall|j: int| 0 <= j < m.datasets.len() ==> storable_but_layout(#[trigger] m.datasets[j].1),
        0 <= i < m.datasets.len(),
        m.datasets[i].1.filtered || m.datasets[i].1.chunked,
        forall|j: int| 0 <= j < i ==> !(#[trigger] m.datasets[j].1).filtered && !m.datasets[j].1.chunked,
    ensures
        spec_encode(m) == Err::<Seq<u8>, crate::error::HDF5Error>(refusal(m.datasets[i].1)),
{
    let start = Seq::new(48, |i: int| 0u8);
    let (img1, addrs) = spec_place_data(start, m.datasets);
    lemma_place_ds_err(img1, Seq::empty(), m.datasets, addrs, i);
}

} // verus!
