//! In-memory HDF5 graph used for both encode and the public file object.
//!
//! Groups and datasets are tables keyed by normalized path bytes, in byte
//! order (the order of `str`). The root group has the empty path.
use vstd::prelude::*;

use crate::consts::{HDF5_CREATED_ATTR, HDF5_WRITER_VERSION, HDF5_WRITER_VERSION_ATTR};
use crate::error::{ErrView, HDF5Error, Result};
use crate::messages::utf8_string;
use crate::paths::{bytes_eq, lemma_split_at_slash, lex_less, lex_lt, normalize_bytes, slash, spec_normalize};
use crate::table::{
    count_lt, find, has_key, keys, lemma_count_lt, lemma_find_put, lemma_put_sorted, lemma_remove,
    lemma_same_keys, put, put_entry, remove_entry, remove_key, sorted_keys, table_find, table_put,
    table_remove, table_view,
};
use crate::text::{decimal, decimal_string};
use crate::HDF5DType;
use core::time::Duration;
use std::time::SystemTime;
use vstd::pervasive::VecAdditionalExecFns;
use vstd::string::{StringExecFns, StringSliceAdditionalSpecFns};
use vstd::utf8::{decode_utf8, valid_utf8};

verus! {

/// Element type of a stored dataset.
#[derive(Clone, Copy, Debug, PartialEq, Eq, Structural)]
pub enum DTypeKind {
    /// IEEE binary64, little-endian.
    Float64,
    /// IEEE binary32, little-endian.
    Float32,
    /// Opaque element of the given size in bytes.
    Opaque(usize),
    /// Signed 8-bit integer.
    Int8,
    /// Signed 16-bit little-endian integer.
    Int16,
    /// Signed 32-bit little-endian integer.
    Int32,
    /// Signed 64-bit little-endian integer.
    Int64,
    /// Unsigned 8-bit integer.
    UInt8,
    /// Unsigned 16-bit little-endian integer.
    UInt16,
    /// Unsigned 32-bit little-endian integer.
    UInt32,
    /// Unsigned 64-bit little-endian integer.
    UInt64,
    /// A datatype this crate reads but does not specialize; `size` bytes per element.
    Other { size: usize },
}

/// Bytes per element.
pub open spec fn spec_elem_size(k: DTypeKind) -> nat {
    match k {
        DTypeKind::Float64 | DTypeKind::Int64 | DTypeKind::UInt64 => 8,
        DTypeKind::Float32 | DTypeKind::Int32 | DTypeKind::UInt32 => 4,
        DTypeKind::Int16 | DTypeKind::UInt16 => 2,
        DTypeKind::Int8 | DTypeKind::UInt8 => 1,
        DTypeKind::Opaque(n) => n as nat,
        DTypeKind::Other { size } => size as nat,
    }
}

/// The public name of a kind.
pub open spec fn spec_to_public(k: DTypeKind) -> HDF5DType {
    match k {
        DTypeKind::Float64 => HDF5DType::Float64,
        DTypeKind::Float32 => HDF5DType::Float32,
        DTypeKind::Opaque(n) => HDF5DType::Opaque(n),
        DTypeKind::Int8 => HDF5DType::Int8,
        DTypeKind::Int16 => HDF5DType::Int16,
        DTypeKind::Int32 => HDF5DType::Int32,
        DTypeKind::Int64 => HDF5DType::Int64,
        DTypeKind::UInt8 => HDF5DType::UInt8,
        DTypeKind::UInt16 => HDF5DType::UInt16,
        DTypeKind::UInt32 => HDF5DType::UInt32,
        DTypeKind::UInt64 => HDF5DType::UInt64,
        DTypeKind::Other { .. } => HDF5DType::Other,
    }
}

impl DTypeKind {
    /// Bytes per element.
    pub fn elem_size(self) -> (n: usize)
        ensures
            n == spec_elem_size(self),
    {
        match self {
            DTypeKind::Float64 | DTypeKind::Int64 | DTypeKind::UInt64 => 8,
            DTypeKind::Float32 | DTypeKind::Int32 | DTypeKind::UInt32 => 4,
            DTypeKind::Int16 | DTypeKind::UInt16 => 2,
            DTypeKind::Int8 | DTypeKind::UInt8 => 1,
            DTypeKind::Opaque(n) => n,
            DTypeKind::Other { size } => size,
        }
    }

    /// The public datatype this kind is reported as.
    pub fn to_public(self) -> (d: HDF5DType)
        ensures
            d == spec_to_public(self),
    {
        match self {
            DTypeKind::Float64 => HDF5DType::Float64,
            DTypeKind::Float32 => HDF5DType::Float32,
            DTypeKind::Opaque(n) => HDF5DType::Opaque(n),
            DTypeKind::Int8 => HDF5DType::Int8,
            DTypeKind::Int16 => HDF5DType::Int16,
            DTypeKind::Int32 => HDF5DType::Int32,
            DTypeKind::Int64 => HDF5DType::Int64,
            DTypeKind::UInt8 => HDF5DType::UInt8,
            DTypeKind::UInt16 => HDF5DType::UInt16,
            DTypeKind::UInt32 => HDF5DType::UInt32,
            DTypeKind::UInt64 => HDF5DType::UInt64,
            DTypeKind::Other { .. } => HDF5DType::Other,
        }
    }
}

/// One stored dataset.
#[derive(Clone, Debug)]
pub struct DatasetRec {
    /// Dataspace dimensions.
    pub shape: Vec<u64>,
    /// Element type.
    pub kind: DTypeKind,
    /// Raw little-endian payload.
    pub data: Vec<u8>,
    /// String attributes (name, value), in file order.
    pub attrs: Vec<(String, String)>,
    /// Storage is chunked in a way this crate does not read.
    pub chunked: bool,
    /// Storage goes through a filter pipeline.
    pub filtered: bool,
}

/// Abstract value of a [`DatasetRec`].
pub struct DatasetView {
    /// Dataspace dimensions.
    pub shape: Seq<u64>,
    /// Element type.
    pub kind: DTypeKind,
    /// Payload bytes.
    pub data: Seq<u8>,
    /// Attributes as characters.
    pub attrs: Seq<(Seq<char>, Seq<char>)>,
    /// Chunked storage this crate does not read.
    pub chunked: bool,
    /// Filtered storage.
    pub filtered: bool,
}

/// Attributes as characters.
pub open spec fn attrs_view(a: Seq<(String, String)>) -> Seq<(Seq<char>, Seq<char>)> {
    a.map_values(|e: (String, String)| (e.0@, e.1@))
}

impl View for DatasetRec {
    type V = DatasetView;

    open spec fn view(&self) -> DatasetView {
        DatasetView {
            shape: self.shape@,
            kind: self.kind,
            data: self.data@,
            attrs: attrs_view(self.attrs@),
            chunked: self.chunked,
            filtered: self.filtered,
        }
    }
}

/// The whole graph: groups with their children's names, and datasets.
#[derive(Clone, Debug)]
pub struct FileModel {
    /// Group path, and the names of its children in link order.
    pub groups: Vec<(Vec<u8>, Vec<Vec<u8>>)>,
    /// Dataset path and record.
    pub datasets: Vec<(Vec<u8>, DatasetRec)>,
}

/// Abstract value of a [`FileModel`].
pub struct ModelView {
    /// Group path and child names.
    pub groups: Seq<(Seq<u8>, Seq<Seq<u8>>)>,
    /// Dataset path and record.
    pub datasets: Seq<(Seq<u8>, DatasetView)>,
}

/// Child names as byte sequences.
pub open spec fn kids_view(k: Seq<Vec<u8>>) -> Seq<Seq<u8>> {
    k.map_values(|x: Vec<u8>| x@)
}

/// Groups as byte sequences.
pub open spec fn groups_view(g: Seq<(Vec<u8>, Vec<Vec<u8>>)>) -> Seq<(Seq<u8>, Seq<Seq<u8>>)> {
    g.map_values(|e: (Vec<u8>, Vec<Vec<u8>>)| (e.0@, kids_view(e.1@)))
}

/// Datasets by their views.
pub open spec fn datasets_view(d: Seq<(Vec<u8>, DatasetRec)>) -> Seq<(Seq<u8>, DatasetView)> {
    d.map_values(|e: (Vec<u8>, DatasetRec)| (e.0@, e.1@))
}

impl View for FileModel {
    type V = ModelView;

    open spec fn view(&self) -> ModelView {
        ModelView { groups: groups_view(self.groups@), datasets: datasets_view(self.datasets@) }
    }
}

/// Every key of the table is valid UTF-8.
pub open spec fn keys_valid<V>(s: Seq<(Seq<u8>, V)>) -> bool {
    forall|i: int| 0 <= i < s.len() ==> valid_utf8(#[trigger] s[i].0)
}

/// Well-formed graph: both tables sorted, text keys, the root group present.
pub open spec fn model_wf(m: ModelView) -> bool {
    &&& sorted_keys(m.groups)
    &&& sorted_keys(m.datasets)
    &&& keys_valid(m.groups)
    &&& keys_valid(m.datasets)
    &&& has_key(m.groups, Seq::empty())
}

/// Both tables sorted, with UTF-8 keys (what a sorted map of strings gives);
/// the root group may be missing.
pub open spec fn tables_ok(m: ModelView) -> bool {
    &&& sorted_keys(m.groups)
    &&& sorted_keys(m.datasets)
    &&& keys_valid(m.groups)
    &&& keys_valid(m.datasets)
}

/// The graph of a new file: the root group alone.
pub open spec fn empty_model() -> ModelView {
    ModelView { groups: seq![(Seq::empty(), Seq::empty())], datasets: Seq::empty() }
}

/// Index of the last `/` in `p`, or -1.
pub open spec fn last_slash(p: Seq<u8>) -> int
    decreases p.len(),
{
    if p.len() == 0 {
        -1
    } else if p.last() == slash() {
        p.len() - 1
    } else {
        last_slash(p.drop_last())
    }
}

/// Parent path and last component of a normalized path.
pub open spec fn split_path(p: Seq<u8>) -> (Seq<u8>, Seq<u8>) {
    let i = last_slash(p);
    if i < 0 {
        (Seq::empty(), p)
    } else {
        (p.subrange(0, i), p.subrange(i + 1, p.len() as int))
    }
}

/// Record `name` as a child of group `parent` unless it is listed already
/// (nothing when there is no such group).
pub open spec fn add_kid(g: Seq<(Seq<u8>, Seq<Seq<u8>>)>, parent: Seq<u8>, name: Seq<u8>) -> Seq<
    (Seq<u8>, Seq<Seq<u8>>),
> {
    if has_key(g, parent) {
        let kids = find(g, parent).unwrap();
        if kids.contains(name) {
            g
        } else {
            put(g, parent, kids.push(name))
        }
    } else {
        g
    }
}

/// Creating the group at normalized path `p`: the empty path is the root and
/// nothing happens; a dataset there is an error; the parent must be a group;
/// an existing group is left as it is; a new group is empty and listed as a
/// child of its parent.
pub open spec fn spec_create_group_norm(m: ModelView, p: Seq<u8>) -> core::result::Result<
    ModelView,
    ErrView,
> {
    if p.len() == 0 {
        Ok(m)
    } else if has_key(m.datasets, p) {
        Err(ErrView::InvalidHeader)
    } else {
        let (parent, name) = split_path(p);
        if !has_key(m.groups, parent) {
            Err(ErrView::NotFound(decode_utf8(parent)))
        } else if has_key(m.groups, p) {
            Ok(m)
        } else {
            Ok(
                ModelView {
                    groups: add_kid(put(m.groups, p, Seq::empty()), parent, name),
                    datasets: m.datasets,
                },
            )
        }
    }
}

/// Creating the group at `path` (bytes, before normalization).
pub open spec fn spec_create_group(m: ModelView, path: Seq<u8>) -> core::result::Result<
    ModelView,
    ErrView,
> {
    match spec_normalize(path) {
        Ok(p) => spec_create_group_norm(m, p),
        Err(e) => Err(e@),
    }
}

/// Making sure the parent of normalized path `p` exists (creating it when it
/// is missing and its own parent exists): the graph, the parent and the name.
pub open spec fn spec_ensure_parent_norm(m: ModelView, p: Seq<u8>) -> core::result::Result<
    (ModelView, Seq<u8>, Seq<u8>),
    ErrView,
> {
    let (parent, name) = split_path(p);
    if parent.len() > 0 && !has_key(m.groups, parent) {
        match spec_create_group_norm(m, parent) {
            Ok(m2) => Ok((m2, parent, name)),
            Err(e) => Err(e),
        }
    } else {
        Ok((m, parent, name))
    }
}

/// [`spec_ensure_parent_norm`] on a path before normalization.
pub open spec fn spec_ensure_parent(m: ModelView, path: Seq<u8>) -> core::result::Result<
    (ModelView, Seq<u8>, Seq<u8>),
    ErrView,
> {
    match spec_normalize(path) {
        Ok(p) => spec_ensure_parent_norm(m, p),
        Err(e) => Err(e@),
    }
}

/// Storing dataset `rec` at normalized path `p`: the parent is made sure of,
/// the name is listed in it, a group at `p` is dropped and the dataset is
/// stored (replacing one that was there).
pub open spec fn spec_put_dataset_norm(m: ModelView, p: Seq<u8>, rec: DatasetView) -> core::result::Result<
    ModelView,
    ErrView,
> {
    if p.len() == 0 {
        Err(ErrView::InvalidHeader)
    } else {
        match spec_ensure_parent_norm(m, p) {
            Err(e) => Err(e),
            Ok((m2, parent, name)) => Ok(
                ModelView {
                    groups: remove_key(add_kid(m2.groups, parent, name), p),
                    datasets: put(m2.datasets, p, rec),
                },
            ),
        }
    }
}

/// [`spec_put_dataset_norm`] on a path before normalization.
pub open spec fn spec_put_dataset(m: ModelView, path: Seq<u8>, rec: DatasetView) -> core::result::Result<
    ModelView,
    ErrView,
> {
    match spec_normalize(path) {
        Ok(p) => spec_put_dataset_norm(m, p, rec),
        Err(e) => Err(e@),
    }
}

/// Number of leading entries of sorted `ks` that sort before `k`.
pub open spec fn count_before(ks: Seq<Seq<u8>>, k: Seq<u8>) -> nat
    decreases ks.len(),
{
    if ks.len() == 0 {
        0
    } else if lex_lt(ks[0], k) {
        1 + count_before(ks.drop_first(), k)
    } else {
        0
    }
}

/// Group paths as listed: the root shown as `/`, all in sorted order.
pub open spec fn group_list(g: Seq<(Seq<u8>, Seq<Seq<u8>>)>) -> Seq<Seq<u8>> {
    if has_key(g, Seq::empty()) {
        let ks = keys(g).drop_first();
        ks.insert(count_before(ks, seq![slash()]) as int, seq![slash()])
    } else {
        keys(g)
    }
}

/// The two attributes written with each dataset: the writer version, and the
/// creation time `created`.
pub open spec fn default_attrs_view(created: Seq<char>) -> Seq<(Seq<char>, Seq<char>)> {
    seq![(HDF5_WRITER_VERSION_ATTR@, HDF5_WRITER_VERSION@), (HDF5_CREATED_ATTR@, created)]
}

/// Value of the first attribute named `name`.
pub open spec fn find_attr(a: Seq<(Seq<char>, Seq<char>)>, name: Seq<char>) -> Option<Seq<char>> {
    match attr_index(a, name) {
        Some(i) => Some(a[i].1),
        None => None,
    }
}

/// Index of the first attribute named `name`.
pub open spec fn attr_index(a: Seq<(Seq<char>, Seq<char>)>, name: Seq<char>) -> Option<int>
    decreases a.len(),
{
    if a.len() == 0 {
        None
    } else if a[0].0 == name {
        Some(0)
    } else {
        match attr_index(a.drop_first(), name) {
            Some(i) => Some(i + 1),
            None => None,
        }
    }
}

/// Attributes after setting `name` to `value`: the first attribute of that
/// name is overwritten, or a new one is appended.
pub open spec fn set_attr(a: Seq<(Seq<char>, Seq<char>)>, name: Seq<char>, value: Seq<char>) -> Seq<
    (Seq<char>, Seq<char>),
> {
    match attr_index(a, name) {
        Some(i) => a.update(i, (name, value)),
        None => a.push((name, value)),
    }
}

/// A creation stamp: the decimal count of seconds since the Unix epoch.
pub open spec fn is_stamp(c: Seq<char>) -> bool {
    exists|n: nat| c == decimal(n)
}

/// Declares `std::time::SystemTime`, which is carried through as an opaque value.
#[verifier::external_type_specification]
#[verifier::external_body]
pub struct ExSystemTime(SystemTime);

/// Wraps `std::time::SystemTime::now`. It reads the clock; nothing is claimed
/// of the value.
#[verifier::external_body]
fn system_now() -> SystemTime {
    SystemTime::now()
}

/// Wraps `SystemTime::duration_since` against `UNIX_EPOCH`, keeping `Ok` as
/// `Some`. Whether it succeeds and what it returns depend on the clock;
/// nothing is claimed.
#[verifier::external_body]
fn since_unix_epoch(t: &SystemTime) -> Option<Duration> {
    t.duration_since(std::time::UNIX_EPOCH).ok()
}

/// Wraps `Duration::as_secs`. The value depends on a clock reading; nothing is
/// claimed of it.
#[verifier::external_body]
fn whole_seconds(d: &Duration) -> u64 {
    d.as_secs()
}

/// Seconds since the Unix epoch in decimal, or `0` when the clock is before it.
pub fn created_stamp() -> (s: String)
    ensures
        is_stamp(s@),
{
    let now = system_now();
    let n: u64 = match since_unix_epoch(&now) {
        Some(d) => whole_seconds(&d),
        None => 0,
    };
    let s = decimal_string(n);
    assert(s@ == decimal(n as nat));
    s
}

/// Bytes known to be valid UTF-8, as a string.
pub fn text_of(b: Vec<u8>) -> (s: String)
    requires
        valid_utf8(b@),
    ensures
        s@ == decode_utf8(b@),
{
    match utf8_string(b) {
        Some(s) => s,
        None => String::new(),
    }
}

/// Normalized bytes of `path`.
pub fn norm_path(path: &str) -> (res: Result<Vec<u8>>)
    ensures
        match spec_normalize(path.spec_bytes()) {
            Ok(p) => res matches Ok(v) && v@ == p,
            Err(e) => res matches Err(e2) && e2 == e,
        },
        res matches Ok(v) ==> valid_utf8(v@),
{
    proof {
        vstd::utf8::encode_utf8_valid_utf8(path@);
    }
    normalize_bytes(path.as_bytes())
}

/// `last_slash` is -1 or the index of a `/`, with no `/` after it.
pub proof fn lemma_last_slash(p: Seq<u8>)
    ensures
        -1 <= last_slash(p) < p.len(),
        last_slash(p) >= 0 ==> p[last_slash(p)] == slash(),
        forall|j: int| last_slash(p) < j < p.len() ==> p[j] != slash(),
    decreases p.len(),
{
    if p.len() > 0 && p.last() != slash() {
        lemma_last_slash(p.drop_last());
        assert forall|j: int| last_slash(p) < j < p.len() implies p[j] != slash() by {
            if j < p.len() - 1 {
                assert(p[j] == p.drop_last()[j]);
            }
        }
    }
}

/// Parent and name of a normalized path.
pub fn split_last(p: &[u8]) -> (res: (Vec<u8>, Vec<u8>))
    ensures
        (res.0@, res.1@) == split_path(p@),
        valid_utf8(p@) ==> valid_utf8(res.0@) && valid_utf8(res.1@),
{
    let mut i = p.len();
    assert(p@.subrange(0, i as int) =~= p@);
    while i > 0 && p[i - 1] != 0x2f
        invariant
            i <= p@.len(),
            last_slash(p@) == last_slash(p@.subrange(0, i as int)),
        decreases i,
    {
        proof {
            assert(p@.subrange(0, i as int).drop_last() =~= p@.subrange(0, i - 1));
        }
        i = i - 1;
    }
    proof {
        if i > 0 {
            assert(p@.subrange(0, i as int).last() == p@[i - 1]);
        } else {
            assert(p@.subrange(0, 0) =~= Seq::<u8>::empty());
        }
        assert(p@.subrange(0, p@.len() as int) =~= p@);
        lemma_last_slash(p@);
    }
    if i == 0 {
        proof {
            assert(p@.subrange(0, p@.len() as int) =~= p@);
            if valid_utf8(p@) {
                reveal_with_fuel(valid_utf8, 1);
            }
        }
        (Vec::new(), vstd::slice::slice_to_vec(p))
    } else {
        proof {
            if valid_utf8(p@) {
                lemma_split_at_slash(p@, i - 1);
            }
        }
        (vstd::slice::slice_to_vec(&p[0..i - 1]), vstd::slice::slice_to_vec(&p[i..p.len()]))
    }
}

/// Whether two strings hold the same characters.
pub fn same_text(a: &str, b: &str) -> (r: bool)
    ensures
        r == (a@ == b@),
{
    let r = bytes_eq(a.as_bytes(), b.as_bytes());
    proof {
        vstd::utf8::encode_utf8_decode_utf8(a@);
        vstd::utf8::encode_utf8_decode_utf8(b@);
    }
    r
}

/// `attr_index` steps over a non-matching first attribute.
proof fn lemma_attr_index_step(a: Seq<(Seq<char>, Seq<char>)>, name: Seq<char>, i: int)
    requires
        0 <= i < a.len(),
        forall|j: int| 0 <= j < i ==> a[j].0 != name,
    ensures
        attr_index(a, name) == match attr_index(a.subrange(i, a.len() as int), name) {
            Some(k) => Some(k + i),
            None => None::<int>,
        },
    decreases i,
{
    if i > 0 {
        assert(a.drop_first().subrange(i - 1, a.drop_first().len() as int) =~= a.subrange(i, a.len() as int));
        assert forall|j: int| 0 <= j < i - 1 implies a.drop_first()[j].0 != name by {
            assert(a.drop_first()[j] == a[j + 1]);
        }
        lemma_attr_index_step(a.drop_first(), name, i - 1);
        assert(a[0].0 != name);
    } else {
        assert(a.subrange(0, a.len() as int) =~= a);
    }
}

/// Index of the first attribute named `name`.
pub fn attr_pos(attrs: &Vec<(String, String)>, name: &str) -> (r: Option<usize>)
    ensures
        r is None <==> attr_index(attrs_view(attrs@), name@) is None,
        r matches Some(i) ==> attr_index(attrs_view(attrs@), name@) == Some(i as int) && i < attrs@.len(),
{
    let ghost a = attrs_view(attrs@);
    let mut i: usize = 0;
    while i < attrs.len()
        invariant
            i <= attrs@.len(),
            a == attrs_view(attrs@),
            forall|j: int| 0 <= j < i ==> (#[trigger] a[j]).0 != name@,
        decreases attrs@.len() - i,
    {
        if same_text(attrs[i].0.as_str(), name) {
            proof {
                lemma_attr_index_step(a, name@, i as int);
                let sub = a.subrange(i as int, a.len() as int);
                assert(sub[0] == a[i as int]);
                assert(a[i as int].0 == name@);
                assert(attr_index(sub, name@) == Some(0int));
            }
            return Some(i);
        }
        i = i + 1;
    }
    proof {
        if a.len() > 0 {
            lemma_attr_index_step(a, name@, a.len() - 1);
            let r = a.subrange(a.len() - 1, a.len() as int);
            assert(r[0] == a[a.len() - 1]);
            assert(r.drop_first().len() == 0);
            assert(attr_index(r.drop_first(), name@) is None);
            assert(attr_index(r, name@) is None);
        }
    }
    None
}

/// Whether `name` is among `kids`.
fn has_name(kids: &Vec<Vec<u8>>, name: &[u8]) -> (b: bool)
    ensures
        b == kids_view(kids@).contains(name@),
{
    let mut i: usize = 0;
    while i < kids.len()
        invariant
            i <= kids@.len(),
            forall|j: int| 0 <= j < i ==> kids@[j]@ != name@,
        decreases kids@.len() - i,
    {
        if bytes_eq(kids[i].as_slice(), name) {
            proof {
                assert(kids_view(kids@)[i as int] == name@);
            }
            return true;
        }
        i = i + 1;
    }
    proof {
        if kids_view(kids@).contains(name@) {
            let j = choose|j: int| 0 <= j < kids_view(kids@).len() && kids_view(kids@)[j] == name@;
            assert(kids@[j]@ == name@);
        }
    }
    false
}

/// Storing into the raw group table stores into its view.
pub proof fn lemma_groups_put(g: Seq<(Vec<u8>, Vec<Vec<u8>>)>, k: Vec<u8>, v: Vec<Vec<u8>>)
    ensures
        groups_view(put_entry(g, k, v)) == put(groups_view(g), k@, kids_view(v@)),
{
    lemma_same_keys(table_view(g), groups_view(g), k@);
    lemma_count_lt(groups_view(g), k@);
    let c = count_lt(groups_view(g), k@) as int;
    if has_key(groups_view(g), k@) {
        assert(groups_view(put_entry(g, k, v)) =~= groups_view(g).update(c, (k@, kids_view(v@))));
    } else {
        assert(groups_view(put_entry(g, k, v)) =~= groups_view(g).insert(c, (k@, kids_view(v@))));
    }
}

/// Removing from the raw group table removes from its view.
pub proof fn lemma_groups_remove(g: Seq<(Vec<u8>, Vec<Vec<u8>>)>, k: Seq<u8>)
    ensures
        groups_view(remove_entry(g, k)) == remove_key(groups_view(g), k),
{
    lemma_same_keys(table_view(g), groups_view(g), k);
    lemma_count_lt(groups_view(g), k);
    let c = count_lt(groups_view(g), k) as int;
    if has_key(groups_view(g), k) {
        assert(groups_view(remove_entry(g, k)) =~= groups_view(g).remove(c));
    }
}

/// Storing into the raw dataset table stores into its view.
pub proof fn lemma_datasets_put(d: Seq<(Vec<u8>, DatasetRec)>, k: Vec<u8>, v: DatasetRec)
    ensures
        datasets_view(put_entry(d, k, v)) == put(datasets_view(d), k@, v@),
{
    lemma_same_keys(table_view(d), datasets_view(d), k@);
    lemma_count_lt(datasets_view(d), k@);
    let c = count_lt(datasets_view(d), k@) as int;
    if has_key(datasets_view(d), k@) {
        assert(datasets_view(put_entry(d, k, v)) =~= datasets_view(d).update(c, (k@, v@)));
    } else {
        assert(datasets_view(put_entry(d, k, v)) =~= datasets_view(d).insert(c, (k@, v@)));
    }
}

/// Storing under a valid key keeps every key valid.
pub proof fn lemma_put_keys_valid<V>(s: Seq<(Seq<u8>, V)>, k: Seq<u8>, v: V)
    requires
        keys_valid(s),
        valid_utf8(k),
    ensures
        keys_valid(put(s, k, v)),
{
    lemma_count_lt(s, k);
    let c = count_lt(s, k) as int;
    let t = put(s, k, v);
    assert forall|i: int| 0 <= i < t.len() implies valid_utf8(#[trigger] t[i].0) by {
        if has_key(s, k) {
            if i != c {
                assert(t[i] == s[i]);
            }
        } else if i < c {
            assert(t[i] == s[i]);
        } else if i > c {
            assert(t[i] == s[i - 1]);
        }
    }
}

/// Removing keeps every key valid.
pub proof fn lemma_remove_keys_valid<V>(s: Seq<(Seq<u8>, V)>, k: Seq<u8>)
    requires
        keys_valid(s),
    ensures
        keys_valid(remove_key(s, k)),
{
    lemma_count_lt(s, k);
    let c = count_lt(s, k) as int;
    let t = remove_key(s, k);
    assert forall|i: int| 0 <= i < t.len() implies valid_utf8(#[trigger] t[i].0) by {
        if has_key(s, k) {
            if i < c {
                assert(t[i] == s[i]);
            } else {
                assert(t[i] == s[i + 1]);
            }
        }
    }
}

/// Listing a child changes no key: sortedness, key validity and presence of
/// every key are kept.
pub proof fn lemma_add_kid(g: Seq<(Seq<u8>, Seq<Seq<u8>>)>, parent: Seq<u8>, name: Seq<u8>)
    requires
        sorted_keys(g),
    ensures
        add_kid(g, parent, name).len() == g.len(),
        forall|i: int| 0 <= i < g.len() ==> (#[trigger] add_kid(g, parent, name)[i]).0 == g[i].0,
        sorted_keys(add_kid(g, parent, name)),
        keys_valid(g) ==> keys_valid(add_kid(g, parent, name)),
        forall|k: Seq<u8>| #[trigger] has_key(add_kid(g, parent, name), k) == has_key(g, k),
{
    let t = add_kid(g, parent, name);
    lemma_count_lt(g, parent);
    assert forall|i: int| 0 <= i < g.len() implies (#[trigger] t[i]).0 == g[i].0 by {}
    assert forall|k: Seq<u8>| #[trigger] has_key(t, k) == has_key(g, k) by {
        lemma_same_keys(t, g, k);
    }
    lemma_same_keys(t, g, parent);
}

/// A first entry with the empty key is the root group.
pub proof fn lemma_has_key_first(g: Seq<(Seq<u8>, Seq<Seq<u8>>)>)
    requires
        sorted_keys(g),
        g.len() > 0,
        g[0].0 == Seq::<u8>::empty(),
    ensures
        has_key(g, Seq::empty()),
{
    crate::table::lemma_has_key(g, Seq::empty(), 0);
}

/// In a table with a root entry, the root comes first.
pub proof fn lemma_root_first(g: Seq<(Seq<u8>, Seq<Seq<u8>>)>)
    requires
        has_key(g, Seq::empty()),
    ensures
        g.len() > 0,
        g[0].0 == Seq::<u8>::empty(),
{
    assert(count_lt(g, Seq::empty()) == 0);
}

/// A copy of a byte string.
fn copy_bytes(v: &Vec<u8>) -> (r: Vec<u8>)
    ensures
        r@ == v@,
{
    let mut r: Vec<u8> = Vec::new();
    let mut i: usize = 0;
    while i < v.len()
        invariant
            i <= v@.len(),
            r@ == v@.subrange(0, i as int),
        decreases v@.len() - i,
    {
        r.push(v[i]);
        i = i + 1;
        proof {
            assert(r@ =~= v@.subrange(0, i as int));
        }
    }
    assert(r@ =~= v@);
    r
}

/// A copy of a dataset record.
fn copy_rec(d: &DatasetRec) -> (r: DatasetRec)
    ensures
        r@ == d@,
{
    let mut shape: Vec<u64> = Vec::new();
    let mut i: usize = 0;
    while i < d.shape.len()
        invariant
            i <= d.shape@.len(),
            shape@ == d.shape@.subrange(0, i as int),
        decreases d.shape@.len() - i,
    {
        shape.push(d.shape[i]);
        i = i + 1;
        proof {
            assert(shape@ =~= d.shape@.subrange(0, i as int));
        }
    }
    assert(shape@ =~= d.shape@);
    let mut attrs: Vec<(String, String)> = Vec::new();
    let mut j: usize = 0;
    while j < d.attrs.len()
        invariant
            j <= d.attrs@.len(),
            attrs@.len() == j,
            forall|t: int| 0 <= t < j ==> (#[trigger] attrs@[t]).0@ == d.attrs@[t].0@ && attrs@[t].1@ == d.attrs@[t].1@,
        decreases d.attrs@.len() - j,
    {
        let a = d.attrs[j].0.clone();
        let b = d.attrs[j].1.clone();
        attrs.push((a, b));
        j = j + 1;
    }
    assert(attrs_view(attrs@) =~= attrs_view(d.attrs@));
    DatasetRec {
        shape,
        kind: d.kind,
        data: copy_bytes(&d.data),
        attrs,
        chunked: d.chunked,
        filtered: d.filtered,
    }
}

impl FileModel {
    /// Well-formed graph (see [`model_wf`]).
    pub open spec fn wf(&self) -> bool {
        model_wf(self@)
    }

    /// Sorted tables with UTF-8 keys (see [`tables_ok`]).
    pub open spec fn ok(&self) -> bool {
        tables_ok(self@)
    }

    /// A copy of the graph, equal to it.
    pub fn copy(&self) -> (r: FileModel)
        ensures
            r@ == self@,
    {
        let mut groups: Vec<(Vec<u8>, Vec<Vec<u8>>)> = Vec::new();
        let mut i: usize = 0;
        while i < self.groups.len()
            invariant
                i <= self.groups@.len(),
                groups@.len() == i,
                forall|t: int|
                    0 <= t < i ==> (#[trigger] groups@[t]).0@ == self.groups@[t].0@ && kids_view(groups@[t].1@)
                        == kids_view(self.groups@[t].1@),
            decreases self.groups@.len() - i,
        {
            let src = &self.groups[i].1;
            let mut kids: Vec<Vec<u8>> = Vec::new();
            let mut j: usize = 0;
            while j < src.len()
                invariant
                    j <= src@.len(),
                    kids@.len() == j,
                    forall|t: int| 0 <= t < j ==> (#[trigger] kids@[t])@ == src@[t]@,
                decreases src@.len() - j,
            {
                kids.push(copy_bytes(&src[j]));
                j = j + 1;
            }
            assert(kids_view(kids@) =~= kids_view(src@));
            groups.push((copy_bytes(&self.groups[i].0), kids));
            i = i + 1;
        }
        let mut datasets: Vec<(Vec<u8>, DatasetRec)> = Vec::new();
        let mut k: usize = 0;
        while k < self.datasets.len()
            invariant
                k <= self.datasets@.len(),
                datasets@.len() == k,
                forall|t: int|
                    0 <= t < k ==> (#[trigger] datasets@[t]).0@ == self.datasets@[t].0@ && datasets@[t].1@
                        == self.datasets@[t].1@,
            decreases self.datasets@.len() - k,
        {
            datasets.push((copy_bytes(&self.datasets[k].0), copy_rec(&self.datasets[k].1)));
            k = k + 1;
        }
        assert(groups_view(groups@) =~= groups_view(self.groups@));
        assert(datasets_view(datasets@) =~= datasets_view(self.datasets@));
        FileModel { groups, datasets }
    }

    /// A graph with the root group alone.
    pub fn new() -> (m: Self)
        ensures
            m@ == empty_model(),
            m.wf(),
    {
        let mut groups: Vec<(Vec<u8>, Vec<Vec<u8>>)> = Vec::new();
        groups.push((Vec::new(), Vec::new()));
        let m = FileModel { groups, datasets: Vec::new() };
        proof {
            assert(m@.groups[0].0 =~= Seq::<u8>::empty());
            assert(m@.groups[0].1 =~= Seq::<Seq<u8>>::empty());
            assert(m@.groups =~= empty_model().groups);
            assert(m@.datasets =~= empty_model().datasets);
            assert(!lex_lt(Seq::<u8>::empty(), Seq::<u8>::empty()));
            assert(count_lt(m@.groups, Seq::empty()) == 0);
            reveal_with_fuel(valid_utf8, 1);
        }
        m
    }

    /// The normal form of `path`: its components, without empty ones and `.`,
    /// joined by `/`. `..` is `InvalidHeader`; a component longer than
    /// `HDF5_MAX_NAME_LEN` bytes is `NameTooLong`.
    pub fn normalize(path: &str) -> (res: Result<String>)
        ensures
            match spec_normalize(path.spec_bytes()) {
                Ok(p) => res matches Ok(s) && s@ == decode_utf8(p),
                Err(e) => res matches Err(e2) && e2 == e,
            },
    {
        let v = norm_path(path)?;
        Ok(text_of(v))
    }

    /// Parent path and last component of the normalized `path`.
    pub fn parent_name(path: &str) -> (res: Result<(String, String)>)
        ensures
            match spec_normalize(path.spec_bytes()) {
                Ok(p) => res matches Ok((a, b)) && a@ == decode_utf8(split_path(p).0) && b@
                    == decode_utf8(split_path(p).1),
                Err(e) => res matches Err(e2) && e2 == e,
            },
    {
        let v = norm_path(path)?;
        let (a, b) = split_last(v.as_slice());
        Ok((text_of(a), text_of(b)))
    }

    /// List `name` under group `parent`, if that group exists and does not list it yet.
    fn add_kid_exec(&mut self, parent: &[u8], name: Vec<u8>)
        ensures
            final(self)@ == (ModelView {
                groups: add_kid(old(self)@.groups, parent@, name@),
                datasets: old(self)@.datasets,
            }),
    {
        let (c, found) = table_find(&self.groups, parent);
        proof {
            lemma_same_keys(table_view(self.groups@), groups_view(self.groups@), parent@);
            lemma_count_lt(groups_view(self.groups@), parent@);
        }
        if found {
            let ghost g0 = self.groups@;
            let (key, mut kids) = self.groups.remove(c);
            let ghost kids0 = kids@;
            if !has_name(&kids, name.as_slice()) {
                kids.push(name);
                proof {
                    assert(kids_view(kids@) =~= kids_view(kids0).push(name@));
                }
            }
            self.groups.insert(c, (key, kids));
            proof {
                let gv = groups_view(g0);
                if kids_view(kids0).contains(name@) {
                    assert(self.groups@ =~= g0);
                } else {
                    assert(groups_view(self.groups@) =~= gv.update(c as int, (parent@, kids_view(kids0).push(name@))));
                }
            }
        }
    }

    /// Create the group at normalized `p`.
    fn create_group_norm(&mut self, p: &[u8]) -> (res: Result<()>)
        requires
            old(self).ok(),
            valid_utf8(p@),
        ensures
            final(self).ok(),
            old(self).wf() ==> final(self).wf(),
            match spec_create_group_norm(old(self)@, p@) {
                Ok(m) => res is Ok && final(self)@ == m,
                Err(e) => res matches Err(e2) && e2@ == e && final(self)@ == old(self)@,
            },
    {
        if p.len() == 0 {
            return Ok(());
        }
        let (_, in_ds) = table_find(&self.datasets, p);
        proof {
            lemma_same_keys(table_view(self.datasets@), datasets_view(self.datasets@), p@);
        }
        if in_ds {
            return Err(HDF5Error::InvalidHeader);
        }
        let (parent, name) = split_last(p);
        let (_, has_parent) = table_find(&self.groups, parent.as_slice());
        proof {
            lemma_same_keys(table_view(self.groups@), groups_view(self.groups@), parent@);
        }
        if !has_parent {
            return Err(HDF5Error::NotFound(text_of(parent)));
        }
        let (_, exists) = table_find(&self.groups, p);
        proof {
            lemma_same_keys(table_view(self.groups@), groups_view(self.groups@), p@);
        }
        if exists {
            return Ok(());
        }
        let ghost g0 = self@.groups;
        let ghost raw0 = self.groups@;
        let key = vstd::slice::slice_to_vec(p);
        let ghost kv = key;
        let empty: Vec<Vec<u8>> = Vec::new();
        let ghost ev = empty;
        table_put(&mut self.groups, key, empty);
        proof {
            lemma_groups_put(raw0, kv, ev);
            assert(kids_view(ev@) =~= Seq::<Seq<u8>>::empty());
            lemma_put_sorted(g0, p@, Seq::empty());
            lemma_put_keys_valid(g0, p@, Seq::empty());
            lemma_find_put(g0, p@, Seq::empty(), Seq::empty());
        }
        let ghost g1 = self@.groups;
        self.add_kid_exec(parent.as_slice(), name);
        proof {
            lemma_add_kid(g1, parent@, split_path(p@).1);
        }
        Ok(())
    }

    /// Create the group at `path`. Its parent must exist (the root always
    /// does); an existing group is left as it is.
    pub fn create_group(&mut self, path: &str) -> (res: Result<()>)
        requires
            old(self).ok(),
        ensures
            final(self).ok(),
            old(self).wf() ==> final(self).wf(),
            match spec_create_group(old(self)@, path.spec_bytes()) {
                Ok(m) => res is Ok && final(self)@ == m,
                Err(e) => res matches Err(e2) && e2@ == e && final(self)@ == old(self)@,
            },
    {
        let p = norm_path(path)?;
        self.create_group_norm(p.as_slice())
    }

    /// Make sure the parent of normalized `p` exists.
    fn ensure_parent_norm(&mut self, p: &[u8]) -> (res: Result<(Vec<u8>, Vec<u8>)>)
        requires
            old(self).ok(),
            valid_utf8(p@),
        ensures
            final(self).ok(),
            old(self).wf() ==> final(self).wf(),
            match spec_ensure_parent_norm(old(self)@, p@) {
                Ok((m, a, b)) => res matches Ok((x, y)) && final(self)@ == m && x@ == a && y@ == b
                    && valid_utf8(a) && valid_utf8(b),
                Err(e) => res matches Err(e2) && e2@ == e && final(self)@ == old(self)@,
            },
    {
        let (parent, name) = split_last(p);
        if parent.len() > 0 {
            let (_, found) = table_find(&self.groups, parent.as_slice());
            proof {
                lemma_same_keys(table_view(self.groups@), groups_view(self.groups@), parent@);
            }
            if !found {
                self.create_group_norm(parent.as_slice())?;
            }
        }
        Ok((parent, name))
    }

    /// Make sure the parent of `path` exists, creating it when its own parent
    /// exists. Returns the parent path and the last component.
    pub fn ensure_parent(&mut self, path: &str) -> (res: Result<(String, String)>)
        requires
            old(self).ok(),
        ensures
            final(self).ok(),
            old(self).wf() ==> final(self).wf(),
            match spec_ensure_parent(old(self)@, path.spec_bytes()) {
                Ok((m, a, b)) => res matches Ok((x, y)) && final(self)@ == m && x@ == decode_utf8(a)
                    && y@ == decode_utf8(b),
                Err(e) => res matches Err(e2) && e2@ == e && final(self)@ == old(self)@,
            },
    {
        let p = norm_path(path)?;
        let (a, b) = self.ensure_parent_norm(p.as_slice())?;
        Ok((text_of(a), text_of(b)))
    }

    /// Store `rec` at normalized `p`.
    fn put_dataset_norm(&mut self, p: &[u8], rec: DatasetRec) -> (res: Result<()>)
        requires
            old(self).ok(),
            valid_utf8(p@),
        ensures
            final(self).ok(),
            old(self).wf() ==> final(self).wf(),
            match spec_put_dataset_norm(old(self)@, p@, rec@) {
                Ok(m) => res is Ok && final(self)@ == m,
                Err(e) => res matches Err(e2) && e2@ == e && final(self)@ == old(self)@,
            },
    {
        if p.len() == 0 {
            return Err(HDF5Error::InvalidHeader);
        }
        let (parent, name) = self.ensure_parent_norm(p)?;
        let ghost g1 = self@.groups;
        self.add_kid_exec(parent.as_slice(), name);
        let ghost g2 = self@.groups;
        let ghost raw2 = self.groups@;
        proof {
            lemma_add_kid(g1, parent@, split_path(p@).1);
        }
        table_remove(&mut self.groups, p);
        proof {
            lemma_groups_remove(raw2, p@);
            lemma_remove(g2, p@, Seq::empty());
            lemma_remove_keys_valid(g2, p@);
        }
        let ghost d0 = self@.datasets;
        let ghost raw_d = self.datasets@;
        let key = vstd::slice::slice_to_vec(p);
        let ghost kv = key;
        let ghost rv = rec;
        table_put(&mut self.datasets, key, rec);
        proof {
            lemma_datasets_put(raw_d, kv, rv);
            lemma_put_sorted(d0, p@, rv@);
            lemma_put_keys_valid(d0, p@, rv@);
        }
        Ok(())
    }

    /// Store dataset `rec` at `path`, creating its parent group when that
    /// group's own parent exists. A group at `path` is replaced.
    pub fn put_dataset(&mut self, path: &str, rec: DatasetRec) -> (res: Result<()>)
        requires
            old(self).ok(),
        ensures
            final(self).ok(),
            old(self).wf() ==> final(self).wf(),
            match spec_put_dataset(old(self)@, path.spec_bytes(), rec@) {
                Ok(m) => res is Ok && final(self)@ == m,
                Err(e) => res matches Err(e2) && e2@ == e && final(self)@ == old(self)@,
            },
    {
        let p = norm_path(path)?;
        self.put_dataset_norm(p.as_slice(), rec)
    }

    /// The attributes written with every dataset: writer version and creation time.
    pub fn default_attrs() -> (v: Vec<(String, String)>)
        ensures
            is_stamp(attrs_view(v@)[1].1),
            attrs_view(v@) == default_attrs_view(attrs_view(v@)[1].1),
    {
        let created = created_stamp();
        let mut v: Vec<(String, String)> = Vec::new();
        v.push((String::from_str(HDF5_WRITER_VERSION_ATTR), String::from_str(HDF5_WRITER_VERSION)));
        v.push((String::from_str(HDF5_CREATED_ATTR), created));
        assert(attrs_view(v@) =~= default_attrs_view(attrs_view(v@)[1].1));
        v
    }

    /// Dataset paths, sorted.
    pub fn list_datasets(&self) -> (v: Vec<String>)
        requires
            self.ok(),
        ensures
            v@.len() == self@.datasets.len(),
            forall|i: int| 0 <= i < v@.len() ==> #[trigger] v@[i]@ == decode_utf8(self@.datasets[i].0),
    {
        let mut out: Vec<String> = Vec::new();
        let mut i: usize = 0;
        while i < self.datasets.len()
            invariant
                self.ok(),
                i <= self.datasets@.len(),
                out@.len() == i,
                forall|j: int| 0 <= j < i ==> #[trigger] out@[j]@ == decode_utf8(self@.datasets[j].0),
            decreases self.datasets@.len() - i,
        {
            let k = vstd::slice::slice_to_vec(self.datasets[i].0.as_slice());
            proof {
                assert(self@.datasets[i as int].0 == k@);
            }
            out.push(text_of(k));
            i = i + 1;
        }
        out
    }

    /// Insertion point of normalized `p` in the dataset table, and whether a
    /// dataset is stored there.
    pub fn find_dataset(&self, p: &[u8]) -> (res: (usize, bool))
        ensures
            res.0 == count_lt(self@.datasets, p@),
            res.1 == has_key(self@.datasets, p@),
            res.1 ==> res.0 < self@.datasets.len() && self@.datasets[res.0 as int].0 == p@,
    {
        proof {
            lemma_same_keys(table_view(self.datasets@), datasets_view(self.datasets@), p@);
            lemma_count_lt(datasets_view(self.datasets@), p@);
        }
        table_find(&self.datasets, p)
    }

    /// Replace the record of the dataset at index `c`, keeping its path.
    pub fn replace_dataset(&mut self, c: usize, rec: DatasetRec)
        requires
            old(self).ok(),
            c < old(self).datasets@.len(),
        ensures
            final(self).ok(),
            old(self).wf() ==> final(self).wf(),
            final(self)@ == (ModelView {
                groups: old(self)@.groups,
                datasets: old(self)@.datasets.update(c as int, (old(self)@.datasets[c as int].0, rec@)),
            }),
    {
        let ghost d0 = self@.datasets;
        let (key, _) = self.datasets.remove(c);
        let ghost kv = key;
        let ghost rv = rec;
        self.datasets.insert(c, (key, rec));
        proof {
            assert(self@.datasets =~= d0.update(c as int, (kv@, rv@)));
            lemma_same_keys(self@.datasets, d0, Seq::empty());
            assert forall|i: int| 0 <= i < self@.datasets.len() implies valid_utf8(#[trigger] self@.datasets[i].0) by {
                assert(self@.datasets[i].0 == d0[i].0);
            }
        }
    }

    /// Grow the dataset at index `c`: its first dimension becomes `first` and
    /// `extra` is appended to its payload.
    pub fn grow_dataset(&mut self, c: usize, first: u64, extra: &[u8])
        requires
            old(self).ok(),
            c < old(self).datasets@.len(),
            old(self)@.datasets[c as int].1.shape.len() > 0,
        ensures
            final(self).ok(),
            old(self).wf() ==> final(self).wf(),
            final(self)@ == (ModelView {
                groups: old(self)@.groups,
                datasets: old(self)@.datasets.update(
                    c as int,
                    (
                        old(self)@.datasets[c as int].0,
                        DatasetView {
                            shape: old(self)@.datasets[c as int].1.shape.update(0, first),
                            data: old(self)@.datasets[c as int].1.data + extra@,
                            ..old(self)@.datasets[c as int].1
                        },
                    ),
                ),
            }),
    {
        let ghost d0 = self@.datasets;
        let (key, mut rec) = self.datasets.remove(c);
        let ghost r0 = rec@;
        rec.shape.set(0, first);
        crate::messages::extend_bytes(&mut rec.data, extra);
        let ghost kv = key;
        let ghost rv = rec;
        self.datasets.insert(c, (key, rec));
        proof {
            assert(rv@ == DatasetView { shape: r0.shape.update(0, first), data: r0.data + extra@, ..r0 });
            assert(self@.datasets =~= d0.update(c as int, (kv@, rv@)));
            lemma_same_keys(self@.datasets, d0, Seq::empty());
            assert forall|i: int| 0 <= i < self@.datasets.len() implies valid_utf8(#[trigger] self@.datasets[i].0) by {
                assert(self@.datasets[i].0 == d0[i].0);
            }
        }
    }

    /// Set string attribute `name` of the dataset at index `c` to `value`.
    pub fn set_attr_at(&mut self, c: usize, name: &str, value: &str)
        requires
            old(self).ok(),
            c < old(self).datasets@.len(),
        ensures
            final(self).ok(),
            old(self).wf() ==> final(self).wf(),
            final(self)@ == (ModelView {
                groups: old(self)@.groups,
                datasets: old(self)@.datasets.update(
                    c as int,
                    (
                        old(self)@.datasets[c as int].0,
                        DatasetView {
                            attrs: set_attr(old(self)@.datasets[c as int].1.attrs, name@, value@),
                            ..old(self)@.datasets[c as int].1
                        },
                    ),
                ),
            }),
    {
        let ghost d0 = self@.datasets;
        let (key, mut rec) = self.datasets.remove(c);
        let ghost r0 = rec@;
        let pos = attr_pos(&rec.attrs, name);
        match pos {
            Some(i) => {
                let (_, _) = rec.attrs.remove(i);
                rec.attrs.insert(i, (String::from_str(name), String::from_str(value)));
                proof {
                    assert(attrs_view(rec.attrs@) =~= r0.attrs.update(i as int, (name@, value@)));
                }
            },
            None => {
                rec.attrs.push((String::from_str(name), String::from_str(value)));
                proof {
                    assert(attrs_view(rec.attrs@) =~= r0.attrs.push((name@, value@)));
                }
            },
        }
        assert(attrs_view(rec.attrs@) == set_attr(r0.attrs, name@, value@));
        assert(rec.shape@ == r0.shape);
        let ghost kv = key;
        let ghost rv = rec;
        self.datasets.insert(c, (key, rec));
        proof {
            assert(rv@ == DatasetView { attrs: set_attr(r0.attrs, name@, value@), ..r0 });
            assert(self@.datasets =~= d0.update(c as int, (kv@, rv@)));
            lemma_same_keys(self@.datasets, d0, Seq::empty());
            assert forall|i: int| 0 <= i < self@.datasets.len() implies valid_utf8(#[trigger] self@.datasets[i].0) by {
                assert(self@.datasets[i].0 == d0[i].0);
            }
        }
    }

    /// Group paths, sorted, the root shown as `/`.
    pub fn list_groups(&self) -> (v: Vec<String>)
        requires
            self.ok(),
        ensures
            v@.len() == group_list(self@.groups).len(),
            forall|i: int| 0 <= i < v@.len() ==> #[trigger] v@[i]@ == decode_utf8(group_list(self@.groups)[i]),
    {
        if self.groups.len() == 0 || self.groups[0].0.len() != 0 {
            proof {
                if has_key(self@.groups, Seq::empty()) {
                    lemma_root_first(self@.groups);
                }
            }
            let mut out: Vec<String> = Vec::new();
            let mut i: usize = 0;
            while i < self.groups.len()
                invariant
                    self.ok(),
                    !has_key(self@.groups, Seq::empty()),
                    i <= self.groups@.len(),
                    out@.len() == i,
                    forall|j: int| 0 <= j < i ==> #[trigger] out@[j]@ == decode_utf8(keys(self@.groups)[j]),
                decreases self.groups@.len() - i,
            {
                let k = vstd::slice::slice_to_vec(self.groups[i].0.as_slice());
                proof {
                    assert(self@.groups[i as int].0 == k@);
                    assert(keys(self@.groups)[i as int] == k@);
                    assert(valid_utf8(self@.groups[i as int].0));
                }
                out.push(text_of(k));
                i = i + 1;
            }
            return out;
        }
        proof {
            assert(self@.groups[0].0 =~= Seq::<u8>::empty());
            lemma_has_key_first(self@.groups);
        }
        let ghost g = self@.groups;
        let ghost ks = keys(g).drop_first();
        let ghost sk = seq![0x2fu8];
        let ghost ins = count_before(ks, sk) as int;
        let mut sl: Vec<u8> = Vec::new();
        sl.push(0x2f);
        proof {
            lemma_root_first(g);
            crate::paths::lemma_ascii_byte_valid(0x2f);
            assert(sl@ =~= sk);
            assert(ks.subrange(0, ks.len() as int) =~= ks);
        }
        let mut out: Vec<String> = Vec::new();
        let mut inserted = false;
        let mut i: usize = 1;
        while i < self.groups.len()
            invariant
                self.ok(),
                has_key(g, Seq::<u8>::empty()),
                g == self@.groups,
                ks == keys(g).drop_first(),
                ks.len() + 1 == g.len(),
                sl@ == sk,
                valid_utf8(sk),
                ins == count_before(ks, sk),
                1 <= i <= self.groups@.len(),
                !inserted ==> count_before(ks, sk) == (i - 1) + count_before(
                    ks.subrange(i - 1, ks.len() as int),
                    sk,
                ),
                inserted ==> ins < i - 1,
                out@.len() == (if inserted { i as int } else { i - 1 }),
                forall|t: int| 0 <= t < out@.len() ==> #[trigger] out@[t]@ == decode_utf8(
                    (if inserted { ks.take(i - 1).insert(ins, sk) } else { ks.take(i - 1) })[t],
                ),
            decreases self.groups@.len() - i,
        {
            let ghost j = i - 1;
            let ghost before = if inserted { ks.take(j).insert(ins, sk) } else { ks.take(j) };
            let ghost was = inserted;
            let key = self.groups[i].0.as_slice();
            proof {
                assert(ks[j] == g[i as int].0);
                assert(key@ == ks[j]);
            }
            if !inserted && !lex_less(key, sl.as_slice()) {
                proof {
                    let r = ks.subrange(j, ks.len() as int);
                    assert(r[0] == ks[j]);
                    assert(count_before(r, sk) == 0);
                }
                out.push(text_of(vstd::slice::slice_to_vec(sl.as_slice())));
                inserted = true;
            } else if !inserted {
                proof {
                    let r = ks.subrange(j, ks.len() as int);
                    assert(r[0] == ks[j]);
                    assert(r.drop_first() =~= ks.subrange(j + 1, ks.len() as int));
                }
            }
            let k = vstd::slice::slice_to_vec(key);
            proof {
                assert(valid_utf8(k@));
            }
            out.push(text_of(k));
            proof {
                let after = if inserted { ks.take(j + 1).insert(ins, sk) } else { ks.take(j + 1) };
                if was {
                    assert(after =~= before.push(ks[j]));
                } else if inserted {
                    assert(after =~= before.push(sk).push(ks[j]));
                } else {
                    assert(after =~= before.push(ks[j]));
                }
                assert forall|t: int| 0 <= t < out@.len() implies #[trigger] out@[t]@ == decode_utf8(after[t]) by {
                    if t < before.len() {
                        assert(after[t] == before[t]);
                    }
                }
            }
            i = i + 1;
        }
        if !inserted {
            out.push(text_of(vstd::slice::slice_to_vec(sl.as_slice())));
            proof {
                let r = ks.subrange(ks.len() as int, ks.len() as int);
                assert(r =~= Seq::<Seq<u8>>::empty());
                assert(ks.take(ks.len() as int) =~= ks);
                assert(ks.insert(ins, sk) =~= ks.push(sk));
                assert forall|t: int| 0 <= t < out@.len() implies #[trigger] out@[t]@ == decode_utf8(group_list(g)[t]) by {
                    if t < ks.len() {
                        assert(group_list(g)[t] == ks.take(ks.len() as int)[t]);
                    }
                }
            }
        } else {
            proof {
                assert(ks.take(ks.len() as int) =~= ks);
            }
        }
        out
    }
}

} // verus!
