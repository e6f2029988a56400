//! The tree shape of a graph, and the operations that keep it.
use vstd::prelude::*;

use crate::encode::kid_path;
use crate::error::HDF5Error;
use crate::model::{
    add_kid, last_slash, lemma_last_slash, model_wf, spec_create_group, spec_create_group_norm,
    spec_ensure_parent_norm, spec_put_dataset, split_path, DatasetView, ModelView,
};
use crate::paths::{
    good_component, join, lemma_lex_irrefl, lemma_norm_join, lemma_norm_parts_good, lemma_normalize_valid,
    lemma_split_at_slash, norm_from, slash, spec_normalize,
};
use crate::table::{find, has_key, lemma_find_put, lemma_remove, put, remove_key};
use crate::tree::{distinct, is_key, kids_of};
use vstd::utf8::valid_utf8;

verus! {

/// A graph shaped as a tree of groups: each group lists its children once,
/// by good UTF-8 names, each the path of exactly one group or dataset; every
/// other path is listed by its parent group; paths are in normal form, and
/// datasets are not at the root.
pub open spec fn tree_shape(m: ModelView) -> bool {
    &&& model_wf(m)
    &&& forall|g: Seq<u8>|
        #[trigger] has_key(m.groups, g) ==> distinct(kids_of(m, g)) && forall|j: int|
            0 <= j < kids_of(m, g).len() ==> good_component(#[trigger] kids_of(m, g)[j]) && valid_utf8(
                kids_of(m, g)[j],
            ) && has_key(m.groups, kid_path(g, kids_of(m, g)[j])) != has_key(
                m.datasets,
                kid_path(g, kids_of(m, g)[j]),
            )
    &&& forall|x: Seq<u8>|
        #[trigger] is_key(m, x) && x.len() > 0 ==> has_key(m.groups, split_path(x).0) && kids_of(
            m,
            split_path(x).0,
        ).contains(split_path(x).1) && x == kid_path(split_path(x).0, split_path(x).1)
    &&& forall|x: Seq<u8>| #[trigger] is_key(m, x) ==> spec_normalize(x) == Ok::<Seq<u8>, HDF5Error>(x)
    &&& forall|x: Seq<u8>| #[trigger] has_key(m.datasets, x) ==> x.len() > 0
}

/// A non-empty path in normal form is its parent (in normal form) and a good
/// last component.
pub proof fn lemma_split_normal(p: Seq<u8>)
    requires
        spec_normalize(p) == Ok::<Seq<u8>, HDF5Error>(p),
        p.len() > 0,
    ensures
        good_component(split_path(p).1),
        spec_normalize(split_path(p).0) == Ok::<Seq<u8>, HDF5Error>(split_path(p).0),
        p == kid_path(split_path(p).0, split_path(p).1),
        split_path(p).0.len() < p.len(),
        valid_utf8(p) ==> valid_utf8(split_path(p).1) && valid_utf8(split_path(p).0),
{
    lemma_norm_parts_good(p, 0);
    let parts = norm_from(p, 0)->Ok_0;
    assert(join(parts) == p);
    lemma_last_slash(p);
    let ls = last_slash(p);
    if parts.len() == 0 {
        assert(join(parts).len() == 0);
    } else if parts.len() == 1 {
        let c = parts[0];
        assert(good_component(c));
        assert(p == c);
        if ls >= 0 {
            assert(p[ls] == slash());
        }
        assert(split_path(p) == (Seq::<u8>::empty(), p));
        lemma_norm_join(Seq::<Seq<u8>>::empty());
        assert(join(Seq::<Seq<u8>>::empty()) == Seq::<u8>::empty());
        if valid_utf8(p) {
            lemma_split_at_slash(p, p.len() as int);
            assert(p.subrange(0, 0) =~= Seq::<u8>::empty());
            assert(valid_utf8(p.subrange(0, 0)));
        }
    } else {
        let a = join(parts.drop_last());
        let n = parts.last();
        assert(good_component(parts[parts.len() - 1]));
        assert(p == a + seq![slash()] + n);
        assert(p[a.len() as int] == slash());
        if ls > a.len() {
            assert(p[ls] == n[ls - a.len() - 1]);
        }
        assert(ls == a.len());
        assert(p.subrange(0, ls) =~= a);
        assert(p.subrange(ls + 1, p.len() as int) =~= n);
        assert forall|i: int| 0 <= i < parts.drop_last().len() implies good_component(
            #[trigger] parts.drop_last()[i],
        ) by {
            assert(parts.drop_last()[i] == parts[i]);
        }
        lemma_norm_join(parts.drop_last());
        assert(a.len() > 0) by {
            if parts.drop_last().len() == 1 {
                assert(good_component(parts.drop_last()[0]));
            }
        }
        if valid_utf8(p) {
            lemma_split_at_slash(p, ls);
        }
    }
}

/// The parent and name of a child's path, for a good name.
pub proof fn lemma_split_good(g: Seq<u8>, n: Seq<u8>)
    requires
        good_component(n),
    ensures
        split_path(kid_path(g, n)) == (g, n),
{
    let x = kid_path(g, n);
    lemma_last_slash(x);
    let ls = last_slash(x);
    if g.len() == 0 {
        if ls >= 0 {
            assert(x[ls] == slash());
        }
    } else {
        assert(x == g + seq![slash()] + n);
        assert(x[g.len() as int] == slash());
        if ls > g.len() {
            assert(x[ls] == n[ls - g.len() - 1]);
        }
        assert(ls == g.len());
        assert(x.subrange(0, ls) =~= g);
        assert(x.subrange(ls + 1, x.len() as int) =~= n);
    }
}

/// A key of a well-formed graph is valid UTF-8.
proof fn lemma_key_valid<V>(s: Seq<(Seq<u8>, V)>, k: Seq<u8>)
    requires
        crate::model::keys_valid(s),
        has_key(s, k),
    ensures
        valid_utf8(k),
{
    let c = crate::table::count_lt(s, k) as int;
    assert(s[c].0 == k);
}

/// Creating the group at a path in normal form keeps a graph shaped as a tree.
#[verifier::spinoff_prover]
#[verifier::rlimit(80)]
proof fn lemma_create_norm_keeps_shape(m: ModelView, p: Seq<u8>)
    requires
        tree_shape(m),
        spec_normalize(p) == Ok::<Seq<u8>, HDF5Error>(p),
        valid_utf8(p),
        spec_create_group_norm(m, p) is Ok,
    ensures
        tree_shape(spec_create_group_norm(m, p)->Ok_0),
{
    let m2 = spec_create_group_norm(m, p)->Ok_0;
    if p.len() == 0 || has_key(m.groups, p) {
        assert(m2 == m);
    } else {
        let (parent, name) = split_path(p);
        assert(has_key(m.groups, parent));
        assert(!has_key(m.datasets, p));
        lemma_split_normal(p);
        let g1 = put(m.groups, p, Seq::<Seq<u8>>::empty());
        crate::table::lemma_put_sorted(m.groups, p, Seq::<Seq<u8>>::empty());
        lemma_find_put(m.groups, p, Seq::<Seq<u8>>::empty(), p);
        lemma_find_put(m.groups, p, Seq::<Seq<u8>>::empty(), parent);
        let ks = kids_of(m, parent);
        assert(!ks.contains(name)) by {
            if ks.contains(name) {
                let j = choose|j: int| 0 <= j < ks.len() && ks[j] == name;
                assert(has_key(m.groups, kid_path(parent, ks[j])) != has_key(m.datasets, kid_path(parent, ks[j])));
            }
        }
        let g2 = put(g1, parent, ks.push(name));
        assert(m2.groups == g2);
        assert(m2.datasets == m.datasets);
        crate::table::lemma_put_sorted(g1, parent, ks.push(name));
        lemma_find_put(g1, parent, ks.push(name), p);
        assert(find(g2, p) == Some(Seq::<Seq<u8>>::empty()));
        lemma_key_valid(m.groups, parent);
        crate::model::lemma_put_keys_valid(m.groups, p, Seq::<Seq<u8>>::empty());
        crate::model::lemma_put_keys_valid(g1, parent, ks.push(name));
        lemma_find_put(g1, parent, ks.push(name), Seq::<u8>::empty());
        lemma_find_put(m.groups, p, Seq::<Seq<u8>>::empty(), Seq::<u8>::empty());
        assert(model_wf(m2));
        assert forall|x: Seq<u8>| #[trigger] find(g2, x) == if x == p {
            Some(Seq::<Seq<u8>>::empty())
        } else if x == parent {
            Some(ks.push(name))
        } else {
            find(m.groups, x)
        } by {
            lemma_find_put(g1, parent, ks.push(name), x);
            lemma_find_put(m.groups, p, Seq::<Seq<u8>>::empty(), x);
        }
        assert forall|g: Seq<u8>| #[trigger] has_key(m2.groups, g) implies distinct(kids_of(m2, g)) && forall|j: int|
            0 <= j < kids_of(m2, g).len() ==> good_component(#[trigger] kids_of(m2, g)[j]) && valid_utf8(
                kids_of(m2, g)[j],
            ) && has_key(m2.groups, kid_path(g, kids_of(m2, g)[j])) != has_key(
                m2.datasets,
                kid_path(g, kids_of(m2, g)[j]),
            ) by {
            assert(find(g2, g) is Some);
            if g == p {
            } else {
                assert(has_key(m.groups, g));
                let kg = kids_of(m, g);
                assert forall|j: int| 0 <= j < kg.len() implies kid_path(g, kg[j]) != p by {
                    assert(good_component(kg[j]));
                    lemma_split_good(g, kg[j]);
                    if kid_path(g, kg[j]) == p && g == parent {
                        assert(kg[j] == name);
                        assert(ks.contains(name));
                    }
                }
                assert forall|j: int| 0 <= j < kg.len() implies has_key(m2.groups, kid_path(g, kg[j])) == has_key(
                    m.groups,
                    kid_path(g, kg[j]),
                ) by {
                    if kid_path(g, kg[j]) != parent {
                        assert(find(g2, kid_path(g, kg[j])) == find(m.groups, kid_path(g, kg[j])));
                    }
                }
                if g == parent {
                    let k2 = ks.push(name);
                    assert forall|i: int, j: int| 0 <= i < j < k2.len() implies k2[i] != k2[j] by {
                        if j == ks.len() {
                            assert(k2[i] == ks[i]);
                        } else {
                            assert(k2[i] == ks[i] && k2[j] == ks[j]);
                        }
                    }
                    assert forall|j: int| 0 <= j < k2.len() implies good_component(#[trigger] k2[j]) && valid_utf8(
                        k2[j],
                    ) && has_key(m2.groups, kid_path(g, k2[j])) != has_key(m2.datasets, kid_path(g, k2[j])) by {
                        if j < ks.len() {
                            assert(k2[j] == ks[j]);
                        } else {
                            assert(k2[j] == name);
                        }
                    }
                }
            }
        }
        assert forall|x: Seq<u8>| #[trigger] is_key(m2, x) && x.len() > 0 implies has_key(m2.groups, split_path(x).0)
            && kids_of(m2, split_path(x).0).contains(split_path(x).1) && x == kid_path(
            split_path(x).0,
            split_path(x).1,
        ) by {
            if x != p {
                assert(is_key(m, x));
                let q = split_path(x).0;
                let nm = split_path(x).1;
                assert(has_key(m.groups, q));
                let j = choose|j: int| 0 <= j < kids_of(m, q).len() && kids_of(m, q)[j] == nm;
                if q == parent {
                    assert(kids_of(m2, q)[j] == nm);
                } else {
                    assert(kids_of(m2, q) == kids_of(m, q));
                }
            } else {
                assert(kids_of(m2, parent)[ks.len() as int] == name);
            }
        }
        assert forall|x: Seq<u8>| #[trigger] is_key(m2, x) implies spec_normalize(x) == Ok::<Seq<u8>, HDF5Error>(x) by {
            if x != p {
                assert(is_key(m, x));
            }
        }
    }
}

/// Creating a group keeps a graph shaped as a tree.
pub proof fn law_create_group_keeps_shape(m: ModelView, path: Seq<u8>)
    requires
        tree_shape(m),
        valid_utf8(path),
        spec_create_group(m, path) is Ok,
    ensures
        tree_shape(spec_create_group(m, path)->Ok_0),
{
    crate::paths::law_normalize_idempotent(path);
    lemma_normalize_valid(path);
    lemma_create_norm_keeps_shape(m, spec_normalize(path)->Ok_0);
}

/// Storing a dataset at a path in normal form, once its parent group is
/// there, keeps a graph shaped as a tree, unless a group with children was there.
#[verifier::spinoff_prover]
#[verifier::rlimit(100)]
proof fn lemma_store_keeps_shape(m1: ModelView, p: Seq<u8>, rec: DatasetView)
    requires
        tree_shape(m1),
        spec_normalize(p) == Ok::<Seq<u8>, HDF5Error>(p),
        valid_utf8(p),
        p.len() > 0,
        has_key(m1.groups, split_path(p).0),
        has_key(m1.groups, p) ==> kids_of(m1, p).len() == 0,
    ensures
        tree_shape(
            ModelView {
                groups: remove_key(add_kid(m1.groups, split_path(p).0, split_path(p).1), p),
                datasets: put(m1.datasets, p, rec),
            },
        ),
{
    let (parent, name) = split_path(p);
    lemma_split_normal(p);
    let ks = kids_of(m1, parent);
    let g3 = add_kid(m1.groups, parent, name);
    let g4 = remove_key(g3, p);
    let d4 = put(m1.datasets, p, rec);
    let m2 = ModelView { groups: g4, datasets: d4 };
    let ks2 = if ks.contains(name) { ks } else { ks.push(name) };
    assert(parent != p);
    crate::model::lemma_add_kid(m1.groups, parent, name);
    lemma_remove(g3, p, p);
    crate::table::lemma_put_sorted(m1.datasets, p, rec);
    crate::model::lemma_remove_keys_valid(g3, p);
    crate::model::lemma_put_keys_valid(m1.datasets, p, rec);
    assert(find(m1.groups, parent) == Some(ks));
    if !ks.contains(name) {
        crate::table::lemma_put_sorted(m1.groups, parent, ks.push(name));
    }
    assert forall|x: Seq<u8>| #[trigger] find(g4, x) == if x == p {
        None::<Seq<Seq<u8>>>
    } else if x == parent {
        Some(ks2)
    } else {
        find(m1.groups, x)
    } by {
        lemma_remove(g3, p, x);
        if !ks.contains(name) {
            lemma_find_put(m1.groups, parent, ks.push(name), x);
        }
    }
    assert forall|x: Seq<u8>| #[trigger] find(d4, x) == if x == p {
        Some(rec)
    } else {
        find(m1.datasets, x)
    } by {
        lemma_find_put(m1.datasets, p, rec, x);
    }
    assert(find(g4, Seq::<u8>::empty()) is Some);
    assert(model_wf(m2));
    assert forall|g: Seq<u8>| #[trigger] has_key(m2.groups, g) implies distinct(kids_of(m2, g)) && forall|j: int|
        0 <= j < kids_of(m2, g).len() ==> good_component(#[trigger] kids_of(m2, g)[j]) && valid_utf8(
            kids_of(m2, g)[j],
        ) && has_key(m2.groups, kid_path(g, kids_of(m2, g)[j])) != has_key(m2.datasets, kid_path(g, kids_of(m2, g)[j])) by {
        assert(find(g4, g) is Some);
        assert(g != p);
        assert(has_key(m1.groups, g));
        let kg = kids_of(m1, g);
        assert forall|x: Seq<u8>| x != p implies has_key(m2.groups, x) == has_key(m1.groups, x) && has_key(
            m2.datasets,
            x,
        ) == has_key(m1.datasets, x) by {
            assert(find(g4, x) is Some == find(m1.groups, x) is Some);
            assert(find(d4, x) == find(m1.datasets, x));
        }
        if g == parent {
            assert forall|i: int, j: int| 0 <= i < j < ks2.len() implies ks2[i] != ks2[j] by {
                if !ks.contains(name) && j == ks.len() {
                    assert(ks2[i] == ks[i]);
                } else {
                    assert(ks2[i] == ks[i] && ks2[j] == ks[j]);
                }
            }
            assert forall|j: int| 0 <= j < ks2.len() implies good_component(#[trigger] ks2[j]) && valid_utf8(ks2[j])
                && has_key(m2.groups, kid_path(g, ks2[j])) != has_key(m2.datasets, kid_path(g, ks2[j])) by {
                assert(find(g4, p) is None);
                assert(find(d4, p) is Some);
                if j < ks.len() {
                    assert(ks2[j] == ks[j]);
                    assert(good_component(ks[j]) && valid_utf8(ks[j]));
                    if ks[j] == name {
                        assert(kid_path(g, ks[j]) == p);
                    } else {
                        lemma_split_good(g, ks[j]);
                        let kp = kid_path(g, ks[j]);
                        assert(kp != p);
                        assert(find(g4, kp) is Some == find(m1.groups, kp) is Some);
                        assert(find(d4, kp) == find(m1.datasets, kp));
                        assert(has_key(m1.groups, kp) != has_key(m1.datasets, kp));
                    }
                } else {
                    assert(ks2[j] == name);
                }
            }
        } else {
            assert(kids_of(m2, g) == kg);
            assert forall|j: int| 0 <= j < kg.len() implies kid_path(g, kg[j]) != p by {
                assert(good_component(kg[j]));
                lemma_split_good(g, kg[j]);
            }
        }
    }
    assert forall|x: Seq<u8>| #[trigger] is_key(m2, x) && x.len() > 0 implies has_key(m2.groups, split_path(x).0)
        && kids_of(m2, split_path(x).0).contains(split_path(x).1) && x == kid_path(split_path(x).0, split_path(x).1) by {
        if x == p {
            if ks.contains(name) {
                let j = choose|j: int| 0 <= j < ks.len() && ks[j] == name;
                assert(kids_of(m2, parent)[j] == name);
            } else {
                assert(kids_of(m2, parent)[ks.len() as int] == name);
            }
        } else {
            assert(find(g4, x) is Some ==> find(m1.groups, x) is Some);
            assert(find(d4, x) == find(m1.datasets, x));
            assert(is_key(m1, x));
            let q = split_path(x).0;
            let nm = split_path(x).1;
            assert(has_key(m1.groups, q));
            let j = choose|j: int| 0 <= j < kids_of(m1, q).len() && kids_of(m1, q)[j] == nm;
            if q == p {
                assert(kids_of(m1, p).len() > 0);
            }
            assert(q != p);
            if q == parent {
                if ks.contains(name) {
                    assert(kids_of(m2, q)[j] == nm);
                } else {
                    assert(kids_of(m2, q)[j] == nm);
                }
            } else {
                assert(kids_of(m2, q) == kids_of(m1, q));
            }
        }
    }
    assert forall|x: Seq<u8>| #[trigger] is_key(m2, x) implies spec_normalize(x) == Ok::<Seq<u8>, HDF5Error>(x) by {
        if x != p {
            assert(find(g4, x) is Some ==> find(m1.groups, x) is Some);
            assert(find(d4, x) == find(m1.datasets, x));
            assert(is_key(m1, x));
        }
    }
    assert forall|x: Seq<u8>| #[trigger] has_key(m2.datasets, x) implies x.len() > 0 by {
        if x != p {
            assert(find(d4, x) == find(m1.datasets, x));
        }
    }
}

/// Storing a dataset keeps a graph shaped as a tree, unless a group with
/// children was at its path (its children would be left without a parent).
#[verifier::spinoff_prover]
#[verifier::rlimit(80)]
pub proof fn law_put_dataset_keeps_shape(m: ModelView, path: Seq<u8>, rec: DatasetView)
    requires
        tree_shape(m),
        valid_utf8(path),
        spec_put_dataset(m, path, rec) is Ok,
        spec_normalize(path) matches Ok(p) && (has_key(m.groups, p) ==> kids_of(m, p).len() == 0),
    ensures
        tree_shape(spec_put_dataset(m, path, rec)->Ok_0),
{
    crate::paths::law_normalize_idempotent(path);
    lemma_normalize_valid(path);
    let p = spec_normalize(path)->Ok_0;
    assert(p.len() > 0);
    lemma_split_normal(p);
    let (parent, name) = split_path(p);
    if parent.len() > 0 && !has_key(m.groups, parent) {
        lemma_create_norm_keeps_shape(m, parent);
        let m1 = spec_create_group_norm(m, parent)->Ok_0;
        let (gp, pn) = split_path(parent);
        lemma_split_normal(parent);
        let g1 = put(m.groups, parent, Seq::<Seq<u8>>::empty());
        crate::table::lemma_put_sorted(m.groups, parent, Seq::<Seq<u8>>::empty());
        lemma_find_put(m.groups, parent, Seq::<Seq<u8>>::empty(), parent);
        lemma_find_put(m.groups, parent, Seq::<Seq<u8>>::empty(), p);
        assert(m1.groups == add_kid(g1, gp, pn));
        crate::model::lemma_add_kid(g1, gp, pn);
        assert(has_key(m1.groups, parent));
        assert(has_key(m1.groups, p) == has_key(g1, p));
        assert(has_key(m.groups, gp));
        lemma_find_put(m.groups, parent, Seq::<Seq<u8>>::empty(), gp);
        assert(find(g1, gp) is Some);
        let kk = find(g1, gp)->Some_0;
        if !kk.contains(pn) {
            lemma_find_put(g1, gp, kk.push(pn), p);
        }
        assert(find(m1.groups, p) == find(m.groups, p));
        lemma_store_keeps_shape(m1, p, rec);
    } else {
        if parent.len() == 0 {
            assert(has_key(m.groups, parent));
        }
        assert(spec_ensure_parent_norm(m, p) == Ok::<(ModelView, Seq<u8>, Seq<u8>), crate::error::ErrView>(
            (m, parent, name),
        ));
        lemma_store_keeps_shape(m, p, rec);
    }
}

/// Replacing the record of a dataset keeps a graph shaped as a tree.
pub proof fn law_replace_record_keeps_shape(m: ModelView, p: Seq<u8>, rec: DatasetView)
    requires
        tree_shape(m),
        has_key(m.datasets, p),
    ensures
        tree_shape(ModelView { groups: m.groups, datasets: put(m.datasets, p, rec) }),
{
    let d2 = put(m.datasets, p, rec);
    let m2 = ModelView { groups: m.groups, datasets: d2 };
    crate::table::lemma_put_sorted(m.datasets, p, rec);
    lemma_key_valid(m.datasets, p);
    crate::model::lemma_put_keys_valid(m.datasets, p, rec);
    assert forall|x: Seq<u8>| #[trigger] has_key(d2, x) == has_key(m.datasets, x) by {
        lemma_find_put(m.datasets, p, rec, x);
    }
    assert forall|x: Seq<u8>| #[trigger] is_key(m2, x) == is_key(m, x) by {
        assert(has_key(d2, x) == has_key(m.datasets, x));
    }
    assert forall|g: Seq<u8>| #[trigger] has_key(m2.groups, g) implies distinct(kids_of(m2, g)) && forall|j: int|
        0 <= j < kids_of(m2, g).len() ==> good_component(#[trigger] kids_of(m2, g)[j]) && valid_utf8(
            kids_of(m2, g)[j],
        ) && has_key(m2.groups, kid_path(g, kids_of(m2, g)[j])) != has_key(m2.datasets, kid_path(g, kids_of(m2, g)[j])) by {
        assert forall|j: int| 0 <= j < kids_of(m, g).len() implies has_key(d2, kid_path(g, kids_of(m, g)[j])) == has_key(
            m.datasets,
            kid_path(g, kids_of(m, g)[j]),
        ) by {}
    }
}

/// Limits under which a tree-shaped graph is written and read back
/// unchanged: child names short enough for a link message body, at most
/// `max_header_entries` children in a group, paths at most
/// `HDF5_MAX_WALK_DEPTH` components deep, storable datasets.
pub open spec fn file_limits(m: ModelView) -> bool {
    &&& forall|g: Seq<u8>|
        #[trigger] has_key(m.groups, g) ==> kids_of(m, g).len() <= crate::image::max_header_entries()
    &&& forall|g: Seq<u8>, j: int|
        #![trigger has_key(m.groups, g), kids_of(m, g)[j]]
        has_key(m.groups, g) && 0 <= j < kids_of(m, g).len() ==> kids_of(m, g)[j].len() < 65524
    &&& forall|x: Seq<u8>|
        #[trigger] is_key(m, x) ==> crate::encode::depth_of(x) <= crate::consts::HDF5_MAX_WALK_DEPTH
    &&& forall|x: Seq<u8>| #[trigger] has_key(m.datasets, x) ==> crate::image::storable(find(m.datasets, x)->Some_0)
}

/// A tree-shaped graph within the limits is one that is written and read back unchanged.
pub proof fn lemma_shape_tree_file(m: ModelView)
    requires
        tree_shape(m),
        file_limits(m),
    ensures
        crate::tree::tree_file(m),
{
    assert forall|g: Seq<u8>| #[trigger] has_key(m.groups, g) implies distinct(kids_of(m, g)) && forall|j: int|
        0 <= j < kids_of(m, g).len() ==> crate::image::plain_name(#[trigger] kids_of(m, g)[j]) && has_key(
            m.groups,
            kid_path(g, kids_of(m, g)[j]),
        ) != has_key(m.datasets, kid_path(g, kids_of(m, g)[j])) by {
        assert forall|j: int| 0 <= j < kids_of(m, g).len() implies crate::image::plain_name(
            #[trigger] kids_of(m, g)[j],
        ) by {
            assert(good_component(kids_of(m, g)[j]));
            assert(kids_of(m, g)[j].len() < 65524);
        }
    }
}

/// A tree-shaped graph within the limits is always written, and reading
/// back its image (when it fits in memory) gives the same graph (see
/// [`crate::tree::law_file_roundtrip`]).
pub proof fn law_shaped_file_roundtrip(m: ModelView)
    requires
        tree_shape(m),
        file_limits(m),
    ensures
        crate::encode::spec_encode(m) is Ok,
        crate::encode::spec_encode(m)->Ok_0.len() <= usize::MAX ==> crate::decode::spec_decode(
            crate::encode::spec_encode(m)->Ok_0,
        ) == Ok::<ModelView, crate::error::ErrView>(m),
{
    lemma_shape_tree_file(m);
    crate::encodable::law_encode_ok(m);
    if crate::encode::spec_encode(m)->Ok_0.len() <= usize::MAX {
        crate::tree::law_file_roundtrip(m);
    }
}

/// The graph of a new file is shaped as a tree.
pub proof fn law_empty_shape()
    ensures
        tree_shape(crate::model::empty_model()),
{
    let m = crate::model::empty_model();
    let e = Seq::<u8>::empty();
    lemma_lex_irrefl(e);
    assert(crate::table::count_lt(m.groups, e) == 0);
    assert(has_key(m.groups, e));
    reveal_with_fuel(valid_utf8, 1);
    assert(crate::model::keys_valid(m.groups));
    assert forall|g: Seq<u8>| #[trigger] has_key(m.groups, g) implies g == e by {
        crate::table::lemma_count_lt(m.groups, g);
    }
    assert(kids_of(m, e) =~= Seq::<Seq<u8>>::empty());
    lemma_norm_join(Seq::<Seq<u8>>::empty());
    assert(join(Seq::<Seq<u8>>::empty()) == e);
    assert forall|x: Seq<u8>| #[trigger] is_key(m, x) implies x == e by {
        crate::table::lemma_count_lt(m.groups, x);
        assert(!has_key(m.datasets, x));
    }
}

/// One call of the file object that changes its graph: creating a group
/// (`create_group`), storing a dataset (the `write_*` methods), or replacing
/// the record of an existing dataset (the `append_*` methods and
/// `write_attr_str`).
pub enum Step {
    /// Create the group at `path`.
    Group { path: Seq<u8> },
    /// Store `rec` at `path`.
    Store { path: Seq<u8>, rec: DatasetView },
    /// Replace the record at the dataset path `key`.
    Replace { key: Seq<u8>, rec: DatasetView },
}

/// The graph after one call; a call that fails leaves the graph as it was.
pub open spec fn step(m: ModelView, s: Step) -> ModelView {
    match s {
        Step::Group { path } => match spec_create_group(m, path) {
            Ok(m2) => m2,
            Err(_) => m,
        },
        Step::Store { path, rec } => match spec_put_dataset(m, path, rec) {
            Ok(m2) => m2,
            Err(_) => m,
        },
        Step::Replace { key, rec } => if has_key(m.datasets, key) {
            ModelView { groups: m.groups, datasets: put(m.datasets, key, rec) }
        } else {
            m
        },
    }
}

/// The graph after a sequence of calls.
pub open spec fn run(m: ModelView, steps: Seq<Step>) -> ModelView
    decreases steps.len(),
{
    if steps.len() == 0 {
        m
    } else {
        step(run(m, steps.drop_last()), steps.last())
    }
}

/// A call made with a UTF-8 path that does not store a dataset over a group
/// that has children.
pub open spec fn step_ok(m: ModelView, s: Step) -> bool {
    match s {
        Step::Group { path } => valid_utf8(path),
        Step::Store { path, rec } => valid_utf8(path) && (spec_normalize(path) matches Ok(p) ==> (has_key(
            m.groups,
            p,
        ) ==> kids_of(m, p).len() == 0)),
        Step::Replace { key, rec } => true,
    }
}

/// Every call of a sequence is allowed on the graph it is made on.
pub open spec fn steps_ok(m: ModelView, steps: Seq<Step>) -> bool
    decreases steps.len(),
{
    if steps.len() == 0 {
        true
    } else {
        steps_ok(m, steps.drop_last()) && step_ok(run(m, steps.drop_last()), steps.last())
    }
}

/// Any sequence of allowed calls keeps a graph shaped as a tree.
pub proof fn law_steps_keep_shape(m: ModelView, steps: Seq<Step>)
    requires
        tree_shape(m),
        steps_ok(m, steps),
    ensures
        tree_shape(run(m, steps)),
    decreases steps.len(),
{
    if steps.len() > 0 {
        law_steps_keep_shape(m, steps.drop_last());
        let m1 = run(m, steps.drop_last());
        match steps.last() {
            Step::Group { path } => {
                if spec_create_group(m1, path) is Ok {
                    law_create_group_keeps_shape(m1, path);
                }
            },
            Step::Store { path, rec } => {
                if spec_put_dataset(m1, path, rec) is Ok {
                    law_put_dataset_keeps_shape(m1, path, rec);
                }
            },
            Step::Replace { key, rec } => {
                if has_key(m1.datasets, key) {
                    law_replace_record_keeps_shape(m1, key, rec);
                }
            },
        }
    }
}

/// A file built from a new one by any sequence of allowed calls, within the
/// limits, is always written, and reads back from its written image (when
/// it fits in memory) as the same graph.
pub proof fn law_built_file_roundtrip(steps: Seq<Step>)
    requires
        steps_ok(crate::model::empty_model(), steps),
        file_limits(run(crate::model::empty_model(), steps)),
    ensures
        crate::encode::spec_encode(run(crate::model::empty_model(), steps)) is Ok,
        crate::encode::spec_encode(run(crate::model::empty_model(), steps))->Ok_0.len() <= usize::MAX
            ==> crate::decode::spec_decode(crate::encode::spec_encode(run(crate::model::empty_model(), steps))->Ok_0)
            == Ok::<ModelView, crate::error::ErrView>(run(crate::model::empty_model(), steps)),
{
    law_empty_shape();
    law_steps_keep_shape(crate::model::empty_model(), steps);
    law_shaped_file_roundtrip(run(crate::model::empty_model(), steps));
}

/// Every read of a file gives the same result after writing it to bytes and
/// reading it back, for a tree-shaped graph within the limits whose image
/// fits in memory.
pub proof fn law_reads_survive_bytes(m: ModelView)
    requires
        tree_shape(m),
        file_limits(m),
        crate::encode::spec_encode(m) matches Ok(img) && img.len() <= usize::MAX,
    ensures
        crate::decode::spec_decode(crate::encode::spec_encode(m)->Ok_0) matches Ok(m2) && forall|
            path: Seq<u8>,
            kind: crate::model::DTypeKind,
        |
            #[trigger] crate::file::spec_read_kind(m2, path, kind) == crate::file::spec_read_kind(m, path, kind),
{
    law_shaped_file_roundtrip(m);
}

} // verus!
