//! What the file object promises across calls.
use vstd::prelude::*;

use crate::error::ErrView;
use crate::file::{
    shape_u64, shape_usize, spec_append, spec_dataset_meta, spec_read_kind, spec_write, spec_write_attr, written_rec,
};
use crate::HDF5DType;
use crate::lanes::{lanes, lemma_unlanes_lanes, unlanes, vals_u64};
use crate::buf::pow256;
use crate::model::{
    attr_index, default_attrs_view, find_attr, model_wf, set_attr, spec_create_group, spec_create_group_norm,
    spec_put_dataset_norm, split_path, DTypeKind, DatasetView, ModelView,
};
use crate::paths::spec_normalize;
use crate::table::{find, has_key, lemma_find_put, put};

verus! {

/// Storing a dataset leaves the dataset table as it was, with the record put
/// under the normalized path.
proof fn lemma_put_dataset_tables(m: ModelView, p: Seq<u8>, rec: DatasetView)
    requires
        spec_put_dataset_norm(m, p, rec) is Ok,
    ensures
        spec_put_dataset_norm(m, p, rec)->Ok_0.datasets == put(m.datasets, p, rec),
{
    let (parent, name) = split_path(p);
    if parent.len() > 0 && !has_key(m.groups, parent) {
        assert(spec_create_group_norm(m, parent) is Ok);
    }
}

/// Read after write: once a write of `data` with dimensions `shape` at `path`
/// succeeds, reading `path` as the same type gives exactly that record: those
/// dimensions and that payload; reading it as another type is `TypeMismatch`.
pub proof fn law_read_after_write(
    m: ModelView,
    path: Seq<u8>,
    shape: Seq<usize>,
    kind: DTypeKind,
    data: Seq<u8>,
    created: Seq<char>,
)
    requires
        model_wf(m),
        spec_write(m, path, shape, kind, data, created) is Ok,
    ensures
        spec_read_kind(spec_write(m, path, shape, kind, data, created)->Ok_0, path, kind) == Ok::<
            DatasetView,
            ErrView,
        >(
            DatasetView {
                shape: shape_u64(shape),
                kind,
                data,
                attrs: default_attrs_view(created),
                chunked: false,
                filtered: false,
            },
        ),
        shape_usize(shape_u64(shape)) == shape,
        forall|other: DTypeKind|
            other != kind ==> #[trigger] spec_read_kind(spec_write(m, path, shape, kind, data, created)->Ok_0, path, other)
                == Err::<DatasetView, ErrView>(ErrView::TypeMismatch),
{
    let rec = DatasetView {
        shape: shape_u64(shape),
        kind,
        data,
        attrs: default_attrs_view(created),
        chunked: false,
        filtered: false,
    };
    let p = spec_normalize(path)->Ok_0;
    lemma_put_dataset_tables(m, p, rec);
    lemma_find_put(m.datasets, p, rec, p);
    assert(shape_usize(shape_u64(shape)) =~= shape);
}

/// Read after write for binary64 lanes: the bits read back are the bits written.
pub proof fn law_read_f64_after_write_f64(
    m: ModelView,
    path: Seq<u8>,
    shape: Seq<usize>,
    bits: Seq<u64>,
    created: Seq<char>,
)
    requires
        model_wf(m),
        spec_write(m, path, shape, DTypeKind::Float64, lanes(vals_u64(bits), 8), created) is Ok,
    ensures
        spec_read_kind(
            spec_write(m, path, shape, DTypeKind::Float64, lanes(vals_u64(bits), 8), created)->Ok_0,
            path,
            DTypeKind::Float64,
        ) matches Ok(d) && shape_usize(d.shape) == shape && unlanes(d.data, 8) == vals_u64(bits),
{
    law_read_after_write(m, path, shape, DTypeKind::Float64, lanes(vals_u64(bits), 8), created);
    reveal_with_fuel(pow256, 9);
    lemma_unlanes_lanes(vals_u64(bits), 8);
}

/// A write touches no other dataset: every other normalized path reads as before.
pub proof fn law_write_keeps_others(
    m: ModelView,
    path: Seq<u8>,
    shape: Seq<usize>,
    kind: DTypeKind,
    data: Seq<u8>,
    created: Seq<char>,
    other: Seq<u8>,
)
    requires
        model_wf(m),
        spec_write(m, path, shape, kind, data, created) is Ok,
        spec_normalize(other) is Ok,
        spec_normalize(other) != spec_normalize(path),
    ensures
        spec_dataset_meta(spec_write(m, path, shape, kind, data, created)->Ok_0, other)
            == spec_dataset_meta(m, other),
{
    let rec = DatasetView {
        shape: shape_u64(shape),
        kind,
        data,
        attrs: default_attrs_view(created),
        chunked: false,
        filtered: false,
    };
    let p = spec_normalize(path)->Ok_0;
    let q = spec_normalize(other)->Ok_0;
    lemma_put_dataset_tables(m, p, rec);
    lemma_find_put(m.datasets, p, rec, q);
}

/// Append grows along the first axis: after a successful append the dataset
/// reads with its first dimension increased by the appended rows and its
/// payload followed by the appended bytes; everything else is as before.
pub proof fn law_append_extends(
    m: ModelView,
    path: Seq<u8>,
    shape: Seq<usize>,
    kind: DTypeKind,
    extra: Seq<u8>,
    n: nat,
)
    requires
        model_wf(m),
        spec_append(m, path, shape, kind, extra, n) is Ok,
    ensures
        spec_read_kind(m, path, kind) matches Ok(d) && spec_read_kind(
            spec_append(m, path, shape, kind, extra, n)->Ok_0,
            path,
            kind,
        ) == Ok::<DatasetView, ErrView>(
            DatasetView {
                shape: d.shape.update(0, crate::file::sat_add(d.shape[0], shape[0] as u64)),
                data: d.data + extra,
                ..d
            },
        ),
{
    let p = spec_normalize(path)->Ok_0;
    let d = find(m.datasets, p)->Some_0;
    let nd = DatasetView {
        shape: d.shape.update(0, crate::file::sat_add(d.shape[0], shape[0] as u64)),
        data: d.data + extra,
        ..d
    };
    lemma_find_put(m.datasets, p, nd, p);
}

/// Appended lanes follow the existing ones: decoding a payload of whole lanes
/// followed by more bytes gives the old values followed by the new ones.
pub proof fn law_unlanes_concat(a: Seq<u8>, b: Seq<u8>, w: int)
    requires
        crate::lanes::lane_width(w),
        a.len() as int % w == 0,
    ensures
        unlanes(a + b, w) == unlanes(a, w) + unlanes(b, w),
{
    let k = a.len() as int / w;
    assert(a.len() == k * w) by (nonlinear_arith)
        requires
            a.len() as int % w == 0,
            k == a.len() as int / w,
            w > 0,
    ;
    assert((a.len() + b.len()) as int / w == k + b.len() as int / w) by (nonlinear_arith)
        requires
            a.len() == k * w,
            w > 0,
    ;
    let u = unlanes(a + b, w);
    let v = unlanes(a, w) + unlanes(b, w);
    assert forall|i: int| 0 <= i < u.len() implies u[i] == v[i] by {
        if i < k {
            assert(i * w + w <= a.len()) by (nonlinear_arith)
                requires
                    0 <= i < k,
                    a.len() == k * w,
                    w > 0,
            ;
            assert forall|j: int| 0 <= j < w implies #[trigger] (a + b)[i * w + j] == a[i * w + j] by {}
            assert((a + b)[i * w] == a[i * w]);
        } else {
            let i2 = i - k;
            assert(i * w == k * w + i2 * w) by (nonlinear_arith)
                requires
                    i2 == i - k,
            ;
            assert(0 <= i2 < b.len() as int / w);
            assert(i2 * w + w <= b.len()) by (nonlinear_arith)
                requires
                    0 <= i2 < b.len() as int / w,
                    w > 0,
            ;
            assert forall|j: int| 0 <= j < w implies #[trigger] (a + b)[i * w + j] == b[i2 * w + j] by {}
            assert((a + b)[i * w] == b[i2 * w]);
        }
    }
    assert(u =~= v);
}

/// Writing an attribute, then reading it, gives the value written.
pub proof fn law_attr_read_after_write(m: ModelView, path: Seq<u8>, name: Seq<char>, value: Seq<char>)
    requires
        model_wf(m),
        spec_write_attr(m, path, name, value) is Ok,
    ensures
        spec_dataset_meta(spec_write_attr(m, path, name, value)->Ok_0, path) matches Ok(d) && find_attr(
            d.attrs,
            name,
        ) == Some(value),
{
    let p = spec_normalize(path)->Ok_0;
    let d = find(m.datasets, p)->Some_0;
    let nd = DatasetView { attrs: set_attr(d.attrs, name, value), ..d };
    lemma_find_put(m.datasets, p, nd, p);
    lemma_attr_index_set(d.attrs, name, value);
}

/// After setting `name`, the first attribute of that name holds the new value.
proof fn lemma_attr_index_set(a: Seq<(Seq<char>, Seq<char>)>, name: Seq<char>, value: Seq<char>)
    ensures
        find_attr(set_attr(a, name, value), name) == Some(value),
    decreases a.len(),
{
    lemma_attr_index_range(a, name);
    match attr_index(a, name) {
        Some(i) => {
            lemma_attr_index_prefix(a, name, i);
            lemma_attr_index_first(a.update(i, (name, value)), name, i);
        },
        None => {
            lemma_attr_index_none(a, name);
            lemma_attr_index_first(a.push((name, value)), name, a.len() as int);
        },
    }
}

/// `attr_index` lies within the sequence.
proof fn lemma_attr_index_range(a: Seq<(Seq<char>, Seq<char>)>, name: Seq<char>)
    ensures
        attr_index(a, name) matches Some(i) ==> 0 <= i < a.len() && a[i].0 == name,
    decreases a.len(),
{
    if a.len() > 0 && a[0].0 != name {
        lemma_attr_index_range(a.drop_first(), name);
    }
}

/// No attribute before `attr_index` has the name.
proof fn lemma_attr_index_prefix(a: Seq<(Seq<char>, Seq<char>)>, name: Seq<char>, i: int)
    requires
        attr_index(a, name) == Some(i),
    ensures
        forall|j: int| 0 <= j < i ==> a[j].0 != name,
    decreases a.len(),
{
    lemma_attr_index_range(a, name);
    if a.len() > 0 && a[0].0 != name {
        lemma_attr_index_prefix(a.drop_first(), name, i - 1);
        assert forall|j: int| 0 <= j < i implies a[j].0 != name by {
            if j > 0 {
                assert(a[j] == a.drop_first()[j - 1]);
            }
        }
    }
}

/// Without a match, no attribute has the name.
proof fn lemma_attr_index_none(a: Seq<(Seq<char>, Seq<char>)>, name: Seq<char>)
    requires
        attr_index(a, name) is None,
    ensures
        forall|j: int| 0 <= j < a.len() ==> a[j].0 != name,
    decreases a.len(),
{
    if a.len() > 0 {
        lemma_attr_index_none(a.drop_first(), name);
        assert forall|j: int| 0 <= j < a.len() implies a[j].0 != name by {
            if j > 0 {
                assert(a[j] == a.drop_first()[j - 1]);
            }
        }
    }
}

/// The first attribute with the name is found.
proof fn lemma_attr_index_first(a: Seq<(Seq<char>, Seq<char>)>, name: Seq<char>, i: int)
    requires
        0 <= i < a.len(),
        a[i].0 == name,
        forall|j: int| 0 <= j < i ==> a[j].0 != name,
    ensures
        attr_index(a, name) == Some(i),
    decreases i,
{
    if i > 0 {
        assert forall|j: int| 0 <= j < i - 1 implies a.drop_first()[j].0 != name by {
            assert(a.drop_first()[j] == a[j + 1]);
        }
        lemma_attr_index_first(a.drop_first(), name, i - 1);
    }
}

/// A created group exists afterwards.
pub proof fn law_create_group_exists(m: ModelView, path: Seq<u8>)
    requires
        model_wf(m),
        spec_create_group(m, path) is Ok,
    ensures
        has_key(spec_create_group(m, path)->Ok_0.groups, spec_normalize(path)->Ok_0),
{
    let p = spec_normalize(path)->Ok_0;
    let (parent, name) = split_path(p);
    if p.len() > 0 && !has_key(m.groups, p) {
        let g1 = put(m.groups, p, Seq::empty());
        lemma_find_put(m.groups, p, Seq::empty(), p);
        assert(has_key(g1, p));
        crate::table::lemma_put_sorted(m.groups, p, Seq::empty());
        crate::model::lemma_add_kid(g1, parent, name);
        assert(spec_create_group(m, path)->Ok_0.groups == crate::model::add_kid(g1, parent, name));
        assert(has_key(crate::model::add_kid(g1, parent, name), p));
    } else if p.len() == 0 {
        assert(p =~= Seq::<u8>::empty());
    }
}

/// Creating a group leaves the datasets as they were, and creating it again
/// changes nothing.
pub proof fn law_create_group_repeat(m: ModelView, path: Seq<u8>)
    requires
        model_wf(m),
        spec_create_group(m, path) is Ok,
    ensures
        spec_create_group(m, path)->Ok_0.datasets == m.datasets,
        spec_create_group(spec_create_group(m, path)->Ok_0, path) == spec_create_group(m, path),
{
    let m2 = spec_create_group(m, path)->Ok_0;
    let p = spec_normalize(path)->Ok_0;
    law_create_group_exists(m, path);
    if p.len() > 0 && !has_key(m.groups, p) {
        let (parent, name) = split_path(p);
        let g1 = put(m.groups, p, Seq::empty());
        crate::table::lemma_put_sorted(m.groups, p, Seq::empty());
        crate::model::lemma_add_kid(g1, parent, name);
        lemma_find_put(m.groups, p, Seq::empty(), parent);
        assert(has_key(m2.groups, parent));
    }
}

/// Creating a group at a path that is no dataset succeeds exactly when its
/// parent is a group; it then adds that path to the groups and leaves the
/// datasets as they were; otherwise the error names the parent.
pub proof fn law_create_group_outcome(m: ModelView, path: Seq<u8>)
    requires
        crate::model::tables_ok(m),
        spec_normalize(path) matches Ok(p) && p.len() > 0 && !has_key(m.datasets, p),
    ensures
        (spec_create_group(m, path) is Ok) == has_key(m.groups, split_path(spec_normalize(path)->Ok_0).0),
        !has_key(m.groups, split_path(spec_normalize(path)->Ok_0).0) ==> spec_create_group(m, path) == Err::<
            ModelView,
            ErrView,
        >(ErrView::NotFound(vstd::utf8::decode_utf8(split_path(spec_normalize(path)->Ok_0).0))),
        spec_create_group(m, path) matches Ok(m2) ==> m2.datasets == m.datasets && forall|k: Seq<u8>|
            #[trigger] has_key(m2.groups, k) == (has_key(m.groups, k) || k == spec_normalize(path)->Ok_0),
{
    let p = spec_normalize(path)->Ok_0;
    let (parent, name) = split_path(p);
    if has_key(m.groups, parent) && !has_key(m.groups, p) {
        let g1 = put(m.groups, p, Seq::empty());
        crate::table::lemma_put_sorted(m.groups, p, Seq::empty());
        crate::model::lemma_add_kid(g1, parent, name);
        assert forall|k: Seq<u8>| #[trigger] has_key(crate::model::add_kid(g1, parent, name), k) == (has_key(m.groups, k)
            || k == p) by {
            lemma_find_put(m.groups, p, Seq::empty(), k);
        }
    }
}

/// Storing a dataset succeeds exactly when the path normalizes to a
/// non-empty path whose parent is the root, a group, or a missing group whose
/// own parent is a group (it is created) and that is no dataset. The dataset
/// table then holds `rec` at that path and is otherwise unchanged.
pub proof fn law_put_dataset_outcome(m: ModelView, path: Seq<u8>, rec: DatasetView)
    requires
        crate::model::tables_ok(m),
    ensures
        (crate::model::spec_put_dataset(m, path, rec) is Ok) == (spec_normalize(path) matches Ok(p) && p.len() > 0 && ({
            let parent = split_path(p).0;
            parent.len() == 0 || has_key(m.groups, parent) || (!has_key(m.datasets, parent) && has_key(
                m.groups,
                split_path(parent).0,
            ))
        })),
        crate::model::spec_put_dataset(m, path, rec) matches Ok(m2) ==> find(m2.datasets, spec_normalize(path)->Ok_0)
            == Some(rec) && forall|k: Seq<u8>|
            k != spec_normalize(path)->Ok_0 ==> #[trigger] find(m2.datasets, k) == find(m.datasets, k),
{
    if spec_normalize(path) is Ok {
        let p = spec_normalize(path)->Ok_0;
        if spec_put_dataset_norm(m, p, rec) is Ok {
            lemma_put_dataset_tables(m, p, rec);
            assert forall|k: Seq<u8>| k != p implies #[trigger] find(put(m.datasets, p, rec), k) == find(m.datasets, k) by {
                lemma_find_put(m.datasets, p, rec, k);
            }
            lemma_find_put(m.datasets, p, rec, p);
        }
    }
}

/// Reading a dataset as a kind: a path that is no dataset is `NotFound`;
/// then filtered storage, then chunked storage, then another kind are named
/// errors, in that order; otherwise the record is read.
pub proof fn law_read_outcome(m: ModelView, path: Seq<u8>, kind: DTypeKind)
    requires
        spec_normalize(path) is Ok,
    ensures
        spec_read_kind(m, path, kind) == ({
            let p = spec_normalize(path)->Ok_0;
            match find(m.datasets, p) {
                None => Err(ErrView::NotFound(vstd::utf8::decode_utf8(p))),
                Some(d) => if d.filtered {
                    Err(ErrView::FilteredNotSupported)
                } else if d.chunked {
                    Err(ErrView::ChunkedNotSupported)
                } else if d.kind != kind {
                    Err(ErrView::TypeMismatch)
                } else {
                    Ok(d)
                },
            }
        }),
{
}

/// Appending to a readable dataset of the same kind with at least one
/// dimension succeeds exactly when the element count is the product of the
/// appended shape, the ranks agree and the trailing dimensions agree; it
/// fails with `ShapeMismatch` otherwise. On success the first dimension grows
/// and the payload is extended; nothing else of the graph changes.
pub proof fn law_append_outcome(
    m: ModelView,
    path: Seq<u8>,
    shape: Seq<usize>,
    kind: DTypeKind,
    extra: Seq<u8>,
    n_elems: nat,
)
    requires
        spec_normalize(path) matches Ok(p) && find(m.datasets, p) matches Some(d) && !d.filtered && !d.chunked
            && d.kind == kind && d.shape.len() >= 1,
    ensures
        ({
            let p = spec_normalize(path)->Ok_0;
            let d = find(m.datasets, p)->Some_0;
            let fits = crate::file::checked_product(shape) == Some(n_elems) && d.shape.len() == shape.len() && (
            d.shape.len() >= 2 ==> d.shape.subrange(1, d.shape.len() as int) == shape_u64(shape).subrange(
                1,
                shape.len() as int,
            ));
            &&& (spec_append(m, path, shape, kind, extra, n_elems) is Ok) == fits
            &&& !fits ==> spec_append(m, path, shape, kind, extra, n_elems) == Err::<ModelView, ErrView>(
                ErrView::ShapeMismatch,
            )
            &&& fits ==> spec_append(m, path, shape, kind, extra, n_elems) == Ok::<ModelView, ErrView>(
                ModelView {
                    groups: m.groups,
                    datasets: put(
                        m.datasets,
                        p,
                        DatasetView {
                            shape: d.shape.update(0, crate::file::sat_add(d.shape[0], shape[0] as u64)),
                            data: d.data + extra,
                            ..d
                        },
                    ),
                },
            )
        }),
{
}

/// Setting a string attribute: a name or value over `HDF5_MAX_NAME_LEN`
/// bytes is `NameTooLong`; then a path that is no dataset is `NotFound`.
/// Otherwise the first attribute of that name gets the value, or the
/// attribute is appended when there is none; the groups and every other
/// dataset are unchanged.
pub proof fn law_write_attr_outcome(m: ModelView, path: Seq<u8>, name: Seq<char>, value: Seq<char>)
    requires
        crate::model::tables_ok(m),
        vstd::utf8::encode_utf8(name).len() <= crate::consts::HDF5_MAX_NAME_LEN,
        vstd::utf8::encode_utf8(value).len() <= crate::consts::HDF5_MAX_NAME_LEN,
        spec_normalize(path) is Ok,
    ensures
        ({
            let p = spec_normalize(path)->Ok_0;
            &&& (spec_write_attr(m, path, name, value) is Ok) == has_key(m.datasets, p)
            &&& !has_key(m.datasets, p) ==> spec_write_attr(m, path, name, value) == Err::<ModelView, ErrView>(
                ErrView::NotFound(vstd::utf8::decode_utf8(p)),
            )
            &&& spec_write_attr(m, path, name, value) matches Ok(m2) ==> {
                let a = find(m.datasets, p)->Some_0.attrs;
                let a2 = find(m2.datasets, p)->Some_0.attrs;
                &&& m2.groups == m.groups
                &&& find(m2.datasets, p) == Some(DatasetView { attrs: a2, ..find(m.datasets, p)->Some_0 })
                &&& forall|k: Seq<u8>| k != p ==> #[trigger] find(m2.datasets, k) == find(m.datasets, k)
                &&& match attr_index(a, name) {
                    Some(i) => 0 <= i < a.len() && a[i].0 == name && (forall|j: int| 0 <= j < i ==> a[j].0 != name)
                        && a2 == a.update(i, (name, value)),
                    None => (forall|j: int| 0 <= j < a.len() ==> a[j].0 != name) && a2 == a.push((name, value)),
                }
            }
        }),
{
    let p = spec_normalize(path)->Ok_0;
    if has_key(m.datasets, p) {
        let d = find(m.datasets, p)->Some_0;
        let d2 = DatasetView { attrs: set_attr(d.attrs, name, value), ..d };
        lemma_find_put(m.datasets, p, d2, p);
        assert forall|k: Seq<u8>| k != p implies #[trigger] find(put(m.datasets, p, d2), k) == find(m.datasets, k) by {
            lemma_find_put(m.datasets, p, d2, k);
        }
        lemma_attr_index_range(d.attrs, name);
        match attr_index(d.attrs, name) {
            Some(i) => {
                lemma_attr_index_prefix(d.attrs, name, i);
            },
            None => {
                lemma_attr_index_none(d.attrs, name);
            },
        }
    }
}

/// Writing `count` elements to a path where a dataset can be stored, at a
/// rank of at most `HDF5_MAX_DIMS`: the write fails with `ShapeMismatch`
/// exactly when `count` is not the product of the dimensions (or that
/// product overflows). On success the dataset table is still sorted, holds
/// the written record at the path, lists exactly the earlier paths and that
/// one, and every other dataset is unchanged.
pub proof fn law_write_outcome(
    m: ModelView,
    path: Seq<u8>,
    shape: Seq<usize>,
    kind: DTypeKind,
    data: Seq<u8>,
    created: Seq<char>,
    count: nat,
)
    requires
        crate::model::tables_ok(m),
        shape.len() <= crate::consts::HDF5_MAX_DIMS,
        crate::model::spec_elem_size(kind) > 0,
        data.len() == count * crate::model::spec_elem_size(kind),
        data.len() <= usize::MAX,
        crate::model::spec_put_dataset(m, path, written_rec(shape, kind, data, created)) is Ok,
    ensures
        (spec_write(m, path, shape, kind, data, created) is Ok) == (crate::file::checked_product(shape) == Some(
            count,
        )),
        crate::file::checked_product(shape) != Some(count) ==> spec_write(m, path, shape, kind, data, created)
            == Err::<ModelView, ErrView>(ErrView::ShapeMismatch),
        spec_write(m, path, shape, kind, data, created) matches Ok(m2) ==> {
            let p = spec_normalize(path)->Ok_0;
            &&& crate::table::sorted_keys(m2.datasets)
            &&& find(m2.datasets, p) == Some(written_rec(shape, kind, data, created))
            &&& forall|k: Seq<u8>| k != p ==> #[trigger] find(m2.datasets, k) == find(m.datasets, k)
            &&& forall|k: Seq<u8>| #[trigger] has_key(m2.datasets, k) == (has_key(m.datasets, k) || k == p)
        },
{
    let e = crate::model::spec_elem_size(kind);
    let rec = written_rec(shape, kind, data, created);
    if let Some(n) = crate::file::checked_product(shape) {
        if n != count {
            assert(n * e != count * e) by (nonlinear_arith)
                requires
                    n != count,
                    e > 0,
            ;
        }
    }
    if spec_write(m, path, shape, kind, data, created) is Ok {
        let p = spec_normalize(path)->Ok_0;
        lemma_put_dataset_tables(m, p, rec);
        crate::table::lemma_put_sorted(m.datasets, p, rec);
        lemma_find_put(m.datasets, p, rec, p);
        assert forall|k: Seq<u8>| k != p implies #[trigger] find(put(m.datasets, p, rec), k) == find(m.datasets, k) by {
            lemma_find_put(m.datasets, p, rec, k);
        }
        assert forall|k: Seq<u8>| #[trigger] has_key(put(m.datasets, p, rec), k) == (has_key(m.datasets, k) || k == p) by {
            lemma_find_put(m.datasets, p, rec, k);
        }
    }
}

/// The datatype reported for a readable dataset names the typed read that
/// succeeds on it: it is `Float64` exactly when `read_f64` succeeds,
/// `Float32` exactly when `read_f32` does, each integer type exactly when
/// the read of that integer type does, `Opaque(n)` exactly when the dataset
/// holds opaque elements of `n` bytes, and `Other` for the rest.
pub proof fn law_dtype_names_the_read(m: ModelView, path: Seq<u8>)
    requires
        crate::file::spec_dataset(m, path) is Ok,
    ensures
        ({
            let t = crate::model::spec_to_public(spec_dataset_meta(m, path)->Ok_0.kind);
            &&& (t == HDF5DType::Float64) == (spec_read_kind(m, path, DTypeKind::Float64) is Ok)
            &&& (t == HDF5DType::Float32) == (spec_read_kind(m, path, DTypeKind::Float32) is Ok)
            &&& (t == HDF5DType::Int8) == (spec_read_kind(m, path, DTypeKind::Int8) is Ok)
            &&& (t == HDF5DType::Int16) == (spec_read_kind(m, path, DTypeKind::Int16) is Ok)
            &&& (t == HDF5DType::Int32) == (spec_read_kind(m, path, DTypeKind::Int32) is Ok)
            &&& (t == HDF5DType::Int64) == (spec_read_kind(m, path, DTypeKind::Int64) is Ok)
            &&& (t == HDF5DType::UInt8) == (spec_read_kind(m, path, DTypeKind::UInt8) is Ok)
            &&& (t == HDF5DType::UInt16) == (spec_read_kind(m, path, DTypeKind::UInt16) is Ok)
            &&& (t == HDF5DType::UInt32) == (spec_read_kind(m, path, DTypeKind::UInt32) is Ok)
            &&& (t == HDF5DType::UInt64) == (spec_read_kind(m, path, DTypeKind::UInt64) is Ok)
            &&& forall|n: usize|
                (t == HDF5DType::Opaque(n)) == (#[trigger] spec_read_kind(m, path, DTypeKind::Opaque(n)) is Ok)
            &&& (t == HDF5DType::Other) == (spec_dataset_meta(m, path)->Ok_0.kind is Other)
        }),
{
}

/// The parent and last component of a path in normal form join back to it.
pub proof fn law_parent_joins(path: Seq<u8>)
    requires
        spec_normalize(path) is Ok,
    ensures
        crate::encode::kid_path(
            split_path(spec_normalize(path)->Ok_0).0,
            split_path(spec_normalize(path)->Ok_0).1,
        ) == spec_normalize(path)->Ok_0,
{
    crate::paths::law_normalize_idempotent(path);
    let p = spec_normalize(path)->Ok_0;
    if p.len() > 0 {
        crate::shape::lemma_split_normal(p);
    } else {
        crate::model::lemma_last_slash(p);
        assert(split_path(p).1 == p);
    }
}

} // verus!
