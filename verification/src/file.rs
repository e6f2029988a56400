//! Public [`Hdf5File`] API over the in-memory graph.
use vstd::prelude::*;

use crate::consts::{HDF5_MAX_DIMS, HDF5_MAX_NAME_LEN};
use crate::decode::{decode, spec_decode};
use crate::encode::{encode, spec_encode};
use crate::error::{ErrView, HDF5Error, Result};
use crate::lanes::{
    from_i16_le, from_i32_le, from_i64_le, from_i8, from_u16_le, from_u32_le, from_u64_le, i16_lanes,
    i32_lanes, i64_lanes, i8_lanes, lanes, lanes_u32, lanes_u64, u16_lanes, unlanes, vals_i16, vals_i32,
    vals_i64, vals_i8, vals_u16, vals_u32, vals_u64,
};
use crate::model::{
    attr_pos, attrs_view, default_attrs_view, empty_model, find_attr, group_list, is_stamp, norm_path,
    set_attr, spec_create_group, spec_elem_size, spec_put_dataset, spec_to_public, text_of, DTypeKind,
    DatasetRec, DatasetView, FileModel, ModelView,
};
use crate::paths::spec_normalize;
use crate::table::{find, keys, put};
use crate::text::decimal;
use crate::HDF5DType;
use vstd::string::{StringExecFns, StringSliceAdditionalSpecFns};
use vstd::utf8::{decode_utf8, encode_utf8};

verus! {

/// Dataset stored at `path`, whatever its storage.
pub open spec fn spec_dataset_meta(m: ModelView, path: Seq<u8>) -> core::result::Result<
    DatasetView,
    ErrView,
> {
    match spec_normalize(path) {
        Err(e) => Err(e@),
        Ok(p) => match find(m.datasets, p) {
            Some(d) => Ok(d),
            None => Err(ErrView::NotFound(decode_utf8(p))),
        },
    }
}

/// Dataset at `path` whose payload can be read: filtered and chunked storage
/// are named errors.
pub open spec fn spec_dataset(m: ModelView, path: Seq<u8>) -> core::result::Result<
    DatasetView,
    ErrView,
> {
    match spec_dataset_meta(m, path) {
        Ok(d) => if d.filtered {
            Err(ErrView::FilteredNotSupported)
        } else if d.chunked {
            Err(ErrView::ChunkedNotSupported)
        } else {
            Ok(d)
        },
        Err(e) => Err(e),
    }
}

/// Readable dataset at `path` of element type `kind`.
pub open spec fn spec_read_kind(m: ModelView, path: Seq<u8>, kind: DTypeKind) -> core::result::Result<
    DatasetView,
    ErrView,
> {
    match spec_dataset(m, path) {
        Ok(d) => if d.kind == kind {
            Ok(d)
        } else {
            Err(ErrView::TypeMismatch)
        },
        Err(e) => Err(e),
    }
}

/// Dimensions as `usize`.
pub open spec fn shape_usize(s: Seq<u64>) -> Seq<usize> {
    s.map_values(|d: u64| d as usize)
}

/// Dimensions as `u64`.
pub open spec fn shape_u64(s: Seq<usize>) -> Seq<u64> {
    s.map_values(|d: usize| d as u64)
}

/// Product of `s`, multiplied from the left, `None` once it leaves `usize`.
pub open spec fn checked_product(s: Seq<usize>) -> Option<nat>
    decreases s.len(),
{
    if s.len() == 0 {
        Some(1)
    } else {
        match checked_product(s.drop_last()) {
            Some(a) => if a * s.last() <= usize::MAX {
                Some(a * (s.last() as nat))
            } else {
                None
            },
            None => None,
        }
    }
}

/// `a + b`, or `u64::MAX` when that overflows.
pub open spec fn sat_add(a: u64, b: u64) -> u64 {
    if a + b > u64::MAX {
        u64::MAX
    } else {
        (a + b) as u64
    }
}

/// `a * b`, or `usize::MAX` when that overflows.
pub open spec fn sat_mul(a: usize, b: usize) -> usize {
    if a * b > usize::MAX {
        usize::MAX
    } else {
        (a * b) as usize
    }
}

/// The record a write stores: the dimensions, kind and payload given, the
/// default attributes with creation time `created`, contiguous and
/// unfiltered.
pub open spec fn written_rec(shape: Seq<usize>, kind: DTypeKind, data: Seq<u8>, created: Seq<char>) -> DatasetView {
    DatasetView {
        shape: shape_u64(shape),
        kind,
        data,
        attrs: default_attrs_view(created),
        chunked: false,
        filtered: false,
    }
}

/// Writing `data` of element type `kind` with dimensions `shape` at `path`:
/// rank at most `HDF5_MAX_DIMS`, exactly `product(shape) * elem_size` bytes,
/// then the dataset is stored with the two default attributes, `created`
/// being the creation stamp.
pub open spec fn spec_write(
    m: ModelView,
    path: Seq<u8>,
    shape: Seq<usize>,
    kind: DTypeKind,
    data: Seq<u8>,
    created: Seq<char>,
) -> core::result::Result<ModelView, ErrView> {
    if shape.len() > HDF5_MAX_DIMS {
        Err(ErrView::RankNotSupported)
    } else {
        match checked_product(shape) {
            None => Err(ErrView::ShapeMismatch),
            Some(n) => if n * spec_elem_size(kind) > usize::MAX {
                Err(ErrView::ShapeMismatch)
            } else if data.len() != n * spec_elem_size(kind) {
                Err(ErrView::ShapeMismatch)
            } else {
                spec_put_dataset(m, path, written_rec(shape, kind, data, created))
            },
        }
    }
}

/// Appending `n_elems` elements (`extra` bytes) of type `kind` with
/// dimensions `shape` to the dataset at `path`: it must be readable, of that
/// type, of the same rank (not a scalar), with equal trailing dimensions;
/// its first dimension grows by `shape[0]` (saturating) and its payload by
/// `extra`.
pub open spec fn spec_append(
    m: ModelView,
    path: Seq<u8>,
    shape: Seq<usize>,
    kind: DTypeKind,
    extra: Seq<u8>,
    n_elems: nat,
) -> core::result::Result<ModelView, ErrView> {
    match spec_normalize(path) {
        Err(e) => Err(e@),
        Ok(p) => match find(m.datasets, p) {
            None => Err(ErrView::NotFound(decode_utf8(p))),
            Some(d) => if d.filtered {
                Err(ErrView::FilteredNotSupported)
            } else if d.chunked {
                Err(ErrView::ChunkedNotSupported)
            } else if d.kind != kind {
                Err(ErrView::TypeMismatch)
            } else {
                match checked_product(shape) {
                    None => Err(ErrView::ShapeMismatch),
                    Some(expect) => if n_elems != expect {
                        Err(ErrView::ShapeMismatch)
                    } else if d.shape.len() == 0 {
                        Err(ErrView::ShapeMismatch)
                    } else if d.shape.len() != shape.len() {
                        Err(ErrView::ShapeMismatch)
                    } else if d.shape.len() >= 2 && d.shape.subrange(1, d.shape.len() as int)
                        != shape_u64(shape).subrange(1, shape.len() as int) {
                        Err(ErrView::ShapeMismatch)
                    } else {
                        Ok(
                            ModelView {
                                groups: m.groups,
                                datasets: put(
                                    m.datasets,
                                    p,
                                    DatasetView {
                                        shape: d.shape.update(0, sat_add(d.shape[0], shape[0] as u64)),
                                        data: d.data + extra,
                                        ..d
                                    },
                                ),
                            },
                        )
                    },
                }
            },
        },
    }
}

/// Appending opaque records: their size is that of the existing dataset's
/// elements, and `data` must hold `product(shape)` of them.
pub open spec fn spec_append_opaque(m: ModelView, path: Seq<u8>, shape: Seq<usize>, data: Seq<u8>) -> core::result::Result<
    ModelView,
    ErrView,
> {
    match spec_dataset_meta(m, path) {
        Err(e) => Err(e),
        Ok(d) => {
            let elem = spec_elem_size(d.kind);
            match checked_product(shape) {
                None => Err(ErrView::ShapeMismatch),
                Some(n) => if n * elem > usize::MAX {
                    Err(ErrView::ShapeMismatch)
                } else if data.len() != n * elem {
                    Err(ErrView::ShapeMismatch)
                } else {
                    spec_append(m, path, shape, DTypeKind::Opaque(elem as usize), data, n)
                },
            }
        },
    }
}

/// Rows `[row_start, row_end)` of a readable binary64 dataset: the shape with
/// its first dimension replaced, and the lanes of those rows. Rows beyond the
/// payload (a file whose payload is shorter than its dataspace) are
/// `ShapeMismatch`.
pub open spec fn spec_read_slice(m: ModelView, path: Seq<u8>, row_start: usize, row_end: usize) -> core::result::Result<
    (Seq<usize>, Seq<int>),
    ErrView,
> {
    match spec_read_kind(m, path, DTypeKind::Float64) {
        Err(e) => Err(e),
        Ok(d) => {
            let shape = shape_usize(d.shape);
            let bits = unlanes(d.data, 8);
            if row_end < row_start {
                Err(ErrView::ShapeMismatch)
            } else if shape.len() == 0 {
                Err(ErrView::ShapeMismatch)
            } else if row_end > shape[0] {
                Err(ErrView::ShapeMismatch)
            } else {
                match checked_product(shape.subrange(1, shape.len() as int)) {
                    None => Err(ErrView::ShapeMismatch),
                    Some(rest) => if sat_mul(row_end, rest as usize) > bits.len() {
                        Err(ErrView::ShapeMismatch)
                    } else {
                        Ok(
                        (
                            seq![(row_end - row_start) as usize] + shape.subrange(1, shape.len() as int),
                            bits.subrange(
                                sat_mul(row_start, rest as usize) as int,
                                sat_mul(row_end, rest as usize) as int,
                            ),
                        ),
                    )
                    },
                }
            }
        },
    }
}

/// Writing string attribute `name` = `value` on the dataset at `path`.
pub open spec fn spec_write_attr(m: ModelView, path: Seq<u8>, name: Seq<char>, value: Seq<char>) -> core::result::Result<
    ModelView,
    ErrView,
> {
    if encode_utf8(name).len() > HDF5_MAX_NAME_LEN || encode_utf8(value).len() > HDF5_MAX_NAME_LEN {
        Err(ErrView::NameTooLong)
    } else {
        match spec_normalize(path) {
            Err(e) => Err(e@),
            Ok(p) => match find(m.datasets, p) {
                None => Err(ErrView::NotFound(decode_utf8(p))),
                Some(d) => Ok(
                    ModelView {
                        groups: m.groups,
                        datasets: put(m.datasets, p, DatasetView { attrs: set_attr(d.attrs, name, value), ..d }),
                    },
                ),
            },
        }
    }
}

/// A mutation's result against its specification: on success the new graph
/// is the one specified, on failure the error is the one specified and the
/// graph is unchanged.
pub open spec fn outcome(
    before: ModelView,
    after: ModelView,
    res: Result<()>,
    r: core::result::Result<ModelView, ErrView>,
) -> bool {
    match r {
        Ok(m) => res is Ok && after == m,
        Err(e) => res matches Err(e2) && e2@ == e && after == before,
    }
}

/// The outcome of a write, for some creation stamp.
pub open spec fn write_outcome(
    before: ModelView,
    after: ModelView,
    res: Result<()>,
    path: Seq<u8>,
    shape: Seq<usize>,
    kind: DTypeKind,
    data: Seq<u8>,
) -> bool {
    exists|c: Seq<char>| #[trigger]
        is_stamp(c) && outcome(before, after, res, spec_write(before, path, shape, kind, data, c))
}

/// An HDF5 file held as a logical graph and (re)serialized to bytes on demand.
#[derive(Debug)]
pub struct Hdf5File {
    model: FileModel,
}

impl View for Hdf5File {
    type V = ModelView;

    closed spec fn view(&self) -> ModelView {
        self.model@
    }
}

impl Hdf5File {
    /// The graph is well formed.
    #[verifier::type_invariant]
    spec fn inv(self) -> bool {
        self.model.wf()
    }

    /// Empty file with a root group. Writes superblock version 2 on `to_bytes`.
    pub fn create() -> (f: Self)
        ensures
            f@ == empty_model(),
    {
        Hdf5File { model: FileModel::new() }
    }

    /// Parse a complete HDF5 file image. A missing format signature is
    /// `InvalidSignature`.
    pub fn from_bytes(bytes: &[u8]) -> (res: Result<Self>)
        ensures
            match spec_decode(bytes@) {
                Ok(m) => res matches Ok(f) && f@ == m,
                Err(e) => res matches Err(e2) && e2@ == e,
            },
    {
        let model = decode(bytes)?;
        Ok(Hdf5File { model })
    }

    /// Serialize to a standard HDF5 superblock-v2 file image.
    pub fn to_bytes(&self) -> (res: Result<Vec<u8>>)
        ensures
            match spec_encode(self@) {
                Ok(b) => res matches Ok(v) && v@ == b,
                Err(e) => res == Err::<Vec<u8>, HDF5Error>(e),
            },
    {
        proof {
            use_type_invariant(self);
        }
        encode(&self.model)
    }

    /// Create an empty file object; nothing is written until it is saved.
    pub fn create_file(_path: &str) -> (res: Result<Self>)
        ensures
            res matches Ok(f) && f@ == empty_model(),
    {
        Ok(Self::create())
    }

    /// Dataset paths (no leading slash), sorted.
    pub fn list_datasets(&self) -> (v: Vec<String>)
        ensures
            v@.len() == self@.datasets.len(),
            forall|i: int| 0 <= i < v@.len() ==> #[trigger] v@[i]@ == decode_utf8(keys(self@.datasets)[i]),
    {
        proof {
            use_type_invariant(self);
        }
        self.model.list_datasets()
    }

    /// Group paths, sorted. Root is `"/"`.
    pub fn list_groups(&self) -> (v: Vec<String>)
        ensures
            v@.len() == group_list(self@.groups).len(),
            forall|i: int| 0 <= i < v@.len() ==> #[trigger] v@[i]@ == decode_utf8(group_list(self@.groups)[i]),
    {
        proof {
            use_type_invariant(self);
        }
        self.model.list_groups()
    }

    /// The stored dataset at `path`.
    fn dataset_meta(&self, path: &str) -> (res: Result<&DatasetRec>)
        ensures
            match spec_dataset_meta(self@, path.spec_bytes()) {
                Ok(d) => res matches Ok(r) && r@ == d,
                Err(e) => res matches Err(e2) && e2@ == e,
            },
    {
        proof {
            use_type_invariant(self);
        }
        let p = norm_path(path)?;
        let (c, found) = self.model.find_dataset(p.as_slice());
        if !found {
            return Err(HDF5Error::NotFound(text_of(p)));
        }
        Ok(&self.model.datasets[c].1)
    }

    /// The dataset at `path`, if its payload can be read.
    fn dataset(&self, path: &str) -> (res: Result<&DatasetRec>)
        ensures
            match spec_dataset(self@, path.spec_bytes()) {
                Ok(d) => res matches Ok(r) && r@ == d,
                Err(e) => res matches Err(e2) && e2@ == e,
            },
    {
        let ds = self.dataset_meta(path)?;
        if ds.filtered {
            return Err(HDF5Error::FilteredNotSupported);
        }
        if ds.chunked {
            return Err(HDF5Error::ChunkedNotSupported);
        }
        Ok(ds)
    }

    /// The dataset at `path`, if its payload can be read and has type `kind`.
    fn read_kind(&self, path: &str, kind: DTypeKind) -> (res: Result<&DatasetRec>)
        ensures
            match spec_read_kind(self@, path.spec_bytes(), kind) {
                Ok(d) => res matches Ok(r) && r@ == d,
                Err(e) => res matches Err(e2) && e2@ == e,
            },
    {
        let ds = self.dataset(path)?;
        if ds.kind != kind {
            return Err(HDF5Error::TypeMismatch);
        }
        Ok(ds)
    }

    /// Dataspace dimensions of `path`. Reported for chunked and filtered
    /// datasets too; reading those still returns a named error.
    pub fn dataset_shape(&self, path: &str) -> (res: Result<Vec<usize>>)
        ensures
            match spec_dataset_meta(self@, path.spec_bytes()) {
                Ok(d) => res matches Ok(s) && s@ == shape_usize(d.shape),
                Err(e) => res matches Err(e2) && e2@ == e,
            },
    {
        let ds = self.dataset_meta(path)?;
        Ok(dims_usize(&ds.shape))
    }

    /// Datatype of `path`. Chunked datasets still report a type.
    pub fn dataset_dtype(&self, path: &str) -> (res: Result<HDF5DType>)
        ensures
            match spec_dataset_meta(self@, path.spec_bytes()) {
                Ok(d) => res == Ok::<HDF5DType, HDF5Error>(spec_to_public(d.kind)),
                Err(e) => res matches Err(e2) && e2@ == e,
            },
    {
        let ds = self.dataset_meta(path)?;
        Ok(ds.kind.to_public())
    }

    /// Create a group. Parent must exist (root always does).
    pub fn create_group(&mut self, path: &str) -> (res: Result<()>)
        ensures
            match spec_create_group(old(self)@, path.spec_bytes()) {
                Ok(m) => res is Ok && final(self)@ == m,
                Err(e) => res matches Err(e2) && e2@ == e && final(self)@ == old(self)@,
            },
    {
        proof {
            use_type_invariant(&*self);
        }
        let mut m = FileModel::new();
        std::mem::swap(&mut m, &mut self.model);
        let r = m.create_group(path);
        self.model = m;
        r
    }

    /// Store `data` as a dataset of type `kind` and dimensions `shape`.
    fn write_bits(&mut self, path: &str, shape: &[usize], kind: DTypeKind, data: Vec<u8>) -> (res: Result<()>)
        ensures
            write_outcome(old(self)@, final(self)@, res, path.spec_bytes(), shape@, kind, data@),
    {
        proof {
            use_type_invariant(&*self);
            assert(is_stamp(decimal(0)));
        }
        if shape.len() > HDF5_MAX_DIMS {
            return Err(HDF5Error::RankNotSupported);
        }
        let n = match product(shape) {
            Some(n) => n,
            None => return Err(HDF5Error::ShapeMismatch),
        };
        let need = match n.checked_mul(kind.elem_size()) {
            Some(x) => x,
            None => return Err(HDF5Error::ShapeMismatch),
        };
        if data.len() != need {
            return Err(HDF5Error::ShapeMismatch);
        }
        let attrs = FileModel::default_attrs();
        let ghost c = attrs_view(attrs@)[1].1;
        let rec = DatasetRec { shape: dims_u64(shape), kind, data, attrs, chunked: false, filtered: false };
        let mut m = FileModel::new();
        std::mem::swap(&mut m, &mut self.model);
        let r = m.put_dataset(path, rec);
        self.model = m;
        assert(is_stamp(c));
        r
    }

    /// Write IEEE binary64 little-endian lanes. `bits.len()` must equal the
    /// product of `shape` (empty `shape` is a scalar, one element). Rank 0
    /// through `HDF5_MAX_DIMS`.
    pub fn write_f64(&mut self, path: &str, shape: &[usize], bits: &[u64]) -> (res: Result<()>)
        ensures
            write_outcome(old(self)@, final(self)@, res, path.spec_bytes(), shape@, DTypeKind::Float64, lanes(vals_u64(bits@), 8)),
    {
        self.write_ieee64(path, shape, bits)
    }

    /// IEEE binary64 little-endian lanes. Same as `write_f64`.
    pub fn write_ieee64(&mut self, path: &str, shape: &[usize], bits: &[u64]) -> (res: Result<()>)
        ensures
            write_outcome(old(self)@, final(self)@, res, path.spec_bytes(), shape@, DTypeKind::Float64, lanes(vals_u64(bits@), 8)),
    {
        self.write_bits(path, shape, DTypeKind::Float64, lanes_u64(bits))
    }

    /// Write IEEE binary32 little-endian lanes.
    pub fn write_f32(&mut self, path: &str, shape: &[usize], bits: &[u32]) -> (res: Result<()>)
        ensures
            write_outcome(old(self)@, final(self)@, res, path.spec_bytes(), shape@, DTypeKind::Float32, lanes(vals_u32(bits@), 4)),
    {
        self.write_ieee32(path, shape, bits)
    }

    /// IEEE binary32 little-endian lanes. Same as `write_f32`.
    pub fn write_ieee32(&mut self, path: &str, shape: &[usize], bits: &[u32]) -> (res: Result<()>)
        ensures
            write_outcome(old(self)@, final(self)@, res, path.spec_bytes(), shape@, DTypeKind::Float32, lanes(vals_u32(bits@), 4)),
    {
        self.write_bits(path, shape, DTypeKind::Float32, lanes_u32(bits))
    }

    /// Write opaque records of `elem_size` bytes. `data.len()` must equal
    /// `shape.product() * elem_size`.
    pub fn write_opaque(&mut self, path: &str, shape: &[usize], elem_size: usize, data: &[u8]) -> (res: Result<()>)
        ensures
            write_outcome(old(self)@, final(self)@, res, path.spec_bytes(), shape@, DTypeKind::Opaque(elem_size), data@),
    {
        self.write_bits(path, shape, DTypeKind::Opaque(elem_size), vstd::slice::slice_to_vec(data))
    }

    /// Write signed 8-bit lanes.
    pub fn write_i8(&mut self, path: &str, shape: &[usize], bits: &[i8]) -> (res: Result<()>)
        ensures
            write_outcome(old(self)@, final(self)@, res, path.spec_bytes(), shape@, DTypeKind::Int8, lanes(vals_i8(bits@), 1)),
    {
        self.write_bits(path, shape, DTypeKind::Int8, i8_lanes(bits))
    }

    /// Write signed 16-bit little-endian lanes.
    pub fn write_i16(&mut self, path: &str, shape: &[usize], bits: &[i16]) -> (res: Result<()>)
        ensures
            write_outcome(old(self)@, final(self)@, res, path.spec_bytes(), shape@, DTypeKind::Int16, lanes(vals_i16(bits@), 2)),
    {
        self.write_bits(path, shape, DTypeKind::Int16, i16_lanes(bits))
    }

    /// Write signed 32-bit little-endian lanes.
    pub fn write_i32(&mut self, path: &str, shape: &[usize], bits: &[i32]) -> (res: Result<()>)
        ensures
            write_outcome(old(self)@, final(self)@, res, path.spec_bytes(), shape@, DTypeKind::Int32, lanes(vals_i32(bits@), 4)),
    {
        self.write_bits(path, shape, DTypeKind::Int32, i32_lanes(bits))
    }

    /// Write signed 64-bit little-endian lanes.
    pub fn write_i64(&mut self, path: &str, shape: &[usize], bits: &[i64]) -> (res: Result<()>)
        ensures
            write_outcome(old(self)@, final(self)@, res, path.spec_bytes(), shape@, DTypeKind::Int64, lanes(vals_i64(bits@), 8)),
    {
        self.write_bits(path, shape, DTypeKind::Int64, i64_lanes(bits))
    }

    /// Write unsigned 8-bit lanes.
    pub fn write_u8(&mut self, path: &str, shape: &[usize], bits: &[u8]) -> (res: Result<()>)
        ensures
            write_outcome(old(self)@, final(self)@, res, path.spec_bytes(), shape@, DTypeKind::UInt8, bits@),
    {
        self.write_bits(path, shape, DTypeKind::UInt8, vstd::slice::slice_to_vec(bits))
    }

    /// Write unsigned 16-bit little-endian lanes.
    pub fn write_u16(&mut self, path: &str, shape: &[usize], bits: &[u16]) -> (res: Result<()>)
        ensures
            write_outcome(old(self)@, final(self)@, res, path.spec_bytes(), shape@, DTypeKind::UInt16, lanes(vals_u16(bits@), 2)),
    {
        self.write_bits(path, shape, DTypeKind::UInt16, u16_lanes(bits))
    }

    /// Write unsigned 32-bit little-endian lanes.
    pub fn write_u32(&mut self, path: &str, shape: &[usize], bits: &[u32]) -> (res: Result<()>)
        ensures
            write_outcome(old(self)@, final(self)@, res, path.spec_bytes(), shape@, DTypeKind::UInt32, lanes(vals_u32(bits@), 4)),
    {
        self.write_bits(path, shape, DTypeKind::UInt32, lanes_u32(bits))
    }

    /// Write unsigned 64-bit little-endian lanes.
    pub fn write_u64(&mut self, path: &str, shape: &[usize], bits: &[u64]) -> (res: Result<()>)
        ensures
            write_outcome(old(self)@, final(self)@, res, path.spec_bytes(), shape@, DTypeKind::UInt64, lanes(vals_u64(bits@), 8)),
    {
        self.write_bits(path, shape, DTypeKind::UInt64, lanes_u64(bits))
    }

    /// Read IEEE binary64 lanes and the dataspace shape.
    pub fn read_f64(&self, path: &str) -> (res: Result<(Vec<usize>, Vec<u64>)>)
        ensures
            match spec_read_kind(self@, path.spec_bytes(), DTypeKind::Float64) {
                Ok(d) => res matches Ok((s, v)) && s@ == shape_usize(d.shape) && vals_u64(v@) == unlanes(d.data, 8),
                Err(e) => res matches Err(e2) && e2@ == e,
            },
    {
        self.read_ieee64(path)
    }

    /// IEEE binary64 lanes and dataspace shape. Same as `read_f64`.
    pub fn read_ieee64(&self, path: &str) -> (res: Result<(Vec<usize>, Vec<u64>)>)
        ensures
            match spec_read_kind(self@, path.spec_bytes(), DTypeKind::Float64) {
                Ok(d) => res matches Ok((s, v)) && s@ == shape_usize(d.shape) && vals_u64(v@) == unlanes(d.data, 8),
                Err(e) => res matches Err(e2) && e2@ == e,
            },
    {
        let ds = self.read_kind(path, DTypeKind::Float64)?;
        Ok((dims_usize(&ds.shape), from_u64_le(ds.data.as_slice())))
    }

    /// Read IEEE binary32 lanes and the dataspace shape.
    pub fn read_f32(&self, path: &str) -> (res: Result<(Vec<usize>, Vec<u32>)>)
        ensures
            match spec_read_kind(self@, path.spec_bytes(), DTypeKind::Float32) {
                Ok(d) => res matches Ok((s, v)) && s@ == shape_usize(d.shape) && vals_u32(v@) == unlanes(d.data, 4),
                Err(e) => res matches Err(e2) && e2@ == e,
            },
    {
        self.read_ieee32(path)
    }

    /// IEEE binary32 lanes and dataspace shape. Same as `read_f32`.
    pub fn read_ieee32(&self, path: &str) -> (res: Result<(Vec<usize>, Vec<u32>)>)
        ensures
            match spec_read_kind(self@, path.spec_bytes(), DTypeKind::Float32) {
                Ok(d) => res matches Ok((s, v)) && s@ == shape_usize(d.shape) && vals_u32(v@) == unlanes(d.data, 4),
                Err(e) => res matches Err(e2) && e2@ == e,
            },
    {
        let ds = self.read_kind(path, DTypeKind::Float32)?;
        Ok((dims_usize(&ds.shape), from_u32_le(ds.data.as_slice())))
    }

    /// Read opaque payload, shape, and element size.
    pub fn read_opaque(&self, path: &str) -> (res: Result<(Vec<usize>, usize, Vec<u8>)>)
        ensures
            match spec_dataset(self@, path.spec_bytes()) {
                Ok(d) => match d.kind {
                    DTypeKind::Opaque(sz) => res matches Ok((s, z, v)) && s@ == shape_usize(d.shape) && z == sz
                        && v@ == d.data,
                    _ => res matches Err(e2) && e2@ == ErrView::TypeMismatch,
                },
                Err(e) => res matches Err(e2) && e2@ == e,
            },
    {
        let ds = self.dataset(path)?;
        match ds.kind {
            DTypeKind::Opaque(sz) => Ok((dims_usize(&ds.shape), sz, vstd::slice::slice_to_vec(ds.data.as_slice()))),
            _ => Err(HDF5Error::TypeMismatch),
        }
    }

    /// Read signed 8-bit lanes.
    pub fn read_i8(&self, path: &str) -> (res: Result<(Vec<usize>, Vec<i8>)>)
        ensures
            match spec_read_kind(self@, path.spec_bytes(), DTypeKind::Int8) {
                Ok(d) => res matches Ok((s, v)) && s@ == shape_usize(d.shape) && vals_i8(v@) == unlanes(d.data, 1),
                Err(e) => res matches Err(e2) && e2@ == e,
            },
    {
        let ds = self.read_kind(path, DTypeKind::Int8)?;
        Ok((dims_usize(&ds.shape), from_i8(ds.data.as_slice())))
    }

    /// Read signed 16-bit little-endian lanes.
    pub fn read_i16(&self, path: &str) -> (res: Result<(Vec<usize>, Vec<i16>)>)
        ensures
            match spec_read_kind(self@, path.spec_bytes(), DTypeKind::Int16) {
                Ok(d) => res matches Ok((s, v)) && s@ == shape_usize(d.shape) && vals_i16(v@) == unlanes(d.data, 2),
                Err(e) => res matches Err(e2) && e2@ == e,
            },
    {
        let ds = self.read_kind(path, DTypeKind::Int16)?;
        Ok((dims_usize(&ds.shape), from_i16_le(ds.data.as_slice())))
    }

    /// Read signed 32-bit little-endian lanes.
    pub fn read_i32(&self, path: &str) -> (res: Result<(Vec<usize>, Vec<i32>)>)
        ensures
            match spec_read_kind(self@, path.spec_bytes(), DTypeKind::Int32) {
                Ok(d) => res matches Ok((s, v)) && s@ == shape_usize(d.shape) && vals_i32(v@) == unlanes(d.data, 4),
                Err(e) => res matches Err(e2) && e2@ == e,
            },
    {
        let ds = self.read_kind(path, DTypeKind::Int32)?;
        Ok((dims_usize(&ds.shape), from_i32_le(ds.data.as_slice())))
    }

    /// Read signed 64-bit little-endian lanes.
    pub fn read_i64(&self, path: &str) -> (res: Result<(Vec<usize>, Vec<i64>)>)
        ensures
            match spec_read_kind(self@, path.spec_bytes(), DTypeKind::Int64) {
                Ok(d) => res matches Ok((s, v)) && s@ == shape_usize(d.shape) && vals_i64(v@) == unlanes(d.data, 8),
                Err(e) => res matches Err(e2) && e2@ == e,
            },
    {
        let ds = self.read_kind(path, DTypeKind::Int64)?;
        Ok((dims_usize(&ds.shape), from_i64_le(ds.data.as_slice())))
    }

    /// Read unsigned 8-bit lanes.
    pub fn read_u8(&self, path: &str) -> (res: Result<(Vec<usize>, Vec<u8>)>)
        ensures
            match spec_read_kind(self@, path.spec_bytes(), DTypeKind::UInt8) {
                Ok(d) => res matches Ok((s, v)) && s@ == shape_usize(d.shape) && v@ == d.data,
                Err(e) => res matches Err(e2) && e2@ == e,
            },
    {
        let ds = self.read_kind(path, DTypeKind::UInt8)?;
        Ok((dims_usize(&ds.shape), vstd::slice::slice_to_vec(ds.data.as_slice())))
    }

    /// Read unsigned 16-bit little-endian lanes.
    pub fn read_u16(&self, path: &str) -> (res: Result<(Vec<usize>, Vec<u16>)>)
        ensures
            match spec_read_kind(self@, path.spec_bytes(), DTypeKind::UInt16) {
                Ok(d) => res matches Ok((s, v)) && s@ == shape_usize(d.shape) && vals_u16(v@) == unlanes(d.data, 2),
                Err(e) => res matches Err(e2) && e2@ == e,
            },
    {
        let ds = self.read_kind(path, DTypeKind::UInt16)?;
        Ok((dims_usize(&ds.shape), from_u16_le(ds.data.as_slice())))
    }

    /// Read unsigned 32-bit little-endian lanes.
    pub fn read_u32(&self, path: &str) -> (res: Result<(Vec<usize>, Vec<u32>)>)
        ensures
            match spec_read_kind(self@, path.spec_bytes(), DTypeKind::UInt32) {
                Ok(d) => res matches Ok((s, v)) && s@ == shape_usize(d.shape) && vals_u32(v@) == unlanes(d.data, 4),
                Err(e) => res matches Err(e2) && e2@ == e,
            },
    {
        let ds = self.read_kind(path, DTypeKind::UInt32)?;
        Ok((dims_usize(&ds.shape), from_u32_le(ds.data.as_slice())))
    }

    /// Read unsigned 64-bit little-endian lanes.
    pub fn read_u64(&self, path: &str) -> (res: Result<(Vec<usize>, Vec<u64>)>)
        ensures
            match spec_read_kind(self@, path.spec_bytes(), DTypeKind::UInt64) {
                Ok(d) => res matches Ok((s, v)) && s@ == shape_usize(d.shape) && vals_u64(v@) == unlanes(d.data, 8),
                Err(e) => res matches Err(e2) && e2@ == e,
            },
    {
        let ds = self.read_kind(path, DTypeKind::UInt64)?;
        Ok((dims_usize(&ds.shape), from_u64_le(ds.data.as_slice())))
    }

    /// Rows `[row_start, row_end)` along the first axis of an IEEE binary64
    /// dataset. Errors: those of `read_f64`, and `ShapeMismatch` for rows out
    /// of range or beyond the payload.
    pub fn read_f64_slice(&self, path: &str, row_start: usize, row_end: usize) -> (res: Result<(Vec<usize>, Vec<u64>)>)
        ensures
            match spec_read_slice(self@, path.spec_bytes(), row_start, row_end) {
                Ok((sh, b)) => res matches Ok((s, v)) && s@ == sh && vals_u64(v@) == b,
                Err(e) => res matches Err(e2) && e2@ == e,
            },
    {
        let (shape, bits) = self.read_f64(path)?;
        if row_end < row_start {
            return Err(HDF5Error::ShapeMismatch);
        }
        if shape.len() == 0 {
            return Err(HDF5Error::ShapeMismatch);
        }
        if row_end > shape[0] {
            return Err(HDF5Error::ShapeMismatch);
        }
        let tail = vstd::slice::slice_subrange(shape.as_slice(), 1, shape.len());
        let rest = match product(tail) {
            Some(r) => r,
            None => return Err(HDF5Error::ShapeMismatch),
        };
        let start = saturating_mul(row_start, rest);
        let end = saturating_mul(row_end, rest);
        proof {
            lemma_sat_mul_mono(row_start, row_end, rest);
        }
        if end > bits.len() {
            return Err(HDF5Error::ShapeMismatch);
        }
        let mut out_shape: Vec<usize> = Vec::new();
        out_shape.push(row_end - row_start);
        crate::messages::extend_usizes(&mut out_shape, tail);
        let picked = vstd::slice::slice_to_vec(vstd::slice::slice_subrange(bits.as_slice(), start, end));
        proof {
            assert(vals_u64(picked@) =~= vals_u64(bits@).subrange(start as int, end as int));
        }
        Ok((out_shape, picked))
    }

    /// Append rows of element type `kind` (`extra` bytes, `n_elems` elements).
    fn append_kind(&mut self, path: &str, shape: &[usize], kind: DTypeKind, extra: &[u8], n_elems: usize) -> (res: Result<()>)
        ensures
            outcome(old(self)@, final(self)@, res, spec_append(old(self)@, path.spec_bytes(), shape@, kind, extra@, n_elems as nat)),
    {
        proof {
            use_type_invariant(&*self);
        }
        let p = norm_path(path)?;
        let (c, found) = self.model.find_dataset(p.as_slice());
        if !found {
            return Err(HDF5Error::NotFound(text_of(p)));
        }
        let ds = &self.model.datasets[c].1;
        if ds.filtered {
            return Err(HDF5Error::FilteredNotSupported);
        }
        if ds.chunked {
            return Err(HDF5Error::ChunkedNotSupported);
        }
        if ds.kind != kind {
            return Err(HDF5Error::TypeMismatch);
        }
        let expect = match product(shape) {
            Some(x) => x,
            None => return Err(HDF5Error::ShapeMismatch),
        };
        if n_elems != expect {
            return Err(HDF5Error::ShapeMismatch);
        }
        if ds.shape.len() == 0 {
            return Err(HDF5Error::ShapeMismatch);
        }
        if ds.shape.len() != shape.len() {
            return Err(HDF5Error::ShapeMismatch);
        }
        if ds.shape.len() >= 2 && !tails_equal(&ds.shape, shape) {
            return Err(HDF5Error::ShapeMismatch);
        }
        let first = ds.shape[0].saturating_add(shape[0] as u64);
        let mut m = FileModel::new();
        std::mem::swap(&mut m, &mut self.model);
        m.grow_dataset(c, first, extra);
        self.model = m;
        Ok(())
    }

    /// Append rows to an existing IEEE binary64 dataset. Trailing dimensions
    /// must match. Rank-1 appends to the single axis.
    pub fn append_f64(&mut self, path: &str, shape: &[usize], bits: &[u64]) -> (res: Result<()>)
        ensures
            outcome(old(self)@, final(self)@, res, spec_append(old(self)@, path.spec_bytes(), shape@, DTypeKind::Float64, lanes(vals_u64(bits@), 8), bits@.len())),
    {
        self.append_ieee64(path, shape, bits)
    }

    /// Append IEEE binary64 rows. Same as `append_f64`.
    pub fn append_ieee64(&mut self, path: &str, shape: &[usize], bits: &[u64]) -> (res: Result<()>)
        ensures
            outcome(old(self)@, final(self)@, res, spec_append(old(self)@, path.spec_bytes(), shape@, DTypeKind::Float64, lanes(vals_u64(bits@), 8), bits@.len())),
    {
        let extra = lanes_u64(bits);
        self.append_kind(path, shape, DTypeKind::Float64, extra.as_slice(), bits.len())
    }

    /// Append IEEE binary32 rows.
    pub fn append_f32(&mut self, path: &str, shape: &[usize], bits: &[u32]) -> (res: Result<()>)
        ensures
            outcome(old(self)@, final(self)@, res, spec_append(old(self)@, path.spec_bytes(), shape@, DTypeKind::Float32, lanes(vals_u32(bits@), 4), bits@.len())),
    {
        self.append_ieee32(path, shape, bits)
    }

    /// Append IEEE binary32 rows. Same as `append_f32`.
    pub fn append_ieee32(&mut self, path: &str, shape: &[usize], bits: &[u32]) -> (res: Result<()>)
        ensures
            outcome(old(self)@, final(self)@, res, spec_append(old(self)@, path.spec_bytes(), shape@, DTypeKind::Float32, lanes(vals_u32(bits@), 4), bits@.len())),
    {
        let extra = lanes_u32(bits);
        self.append_kind(path, shape, DTypeKind::Float32, extra.as_slice(), bits.len())
    }

    /// Append signed 32-bit rows.
    pub fn append_i32(&mut self, path: &str, shape: &[usize], bits: &[i32]) -> (res: Result<()>)
        ensures
            outcome(old(self)@, final(self)@, res, spec_append(old(self)@, path.spec_bytes(), shape@, DTypeKind::Int32, lanes(vals_i32(bits@), 4), bits@.len())),
    {
        let extra = i32_lanes(bits);
        self.append_kind(path, shape, DTypeKind::Int32, extra.as_slice(), bits.len())
    }

    /// Append unsigned 64-bit rows.
    pub fn append_u64(&mut self, path: &str, shape: &[usize], bits: &[u64]) -> (res: Result<()>)
        ensures
            outcome(old(self)@, final(self)@, res, spec_append(old(self)@, path.spec_bytes(), shape@, DTypeKind::UInt64, lanes(vals_u64(bits@), 8), bits@.len())),
    {
        let extra = lanes_u64(bits);
        self.append_kind(path, shape, DTypeKind::UInt64, extra.as_slice(), bits.len())
    }

    /// Append opaque records. `data.len()` must equal `shape.product() * elem_size`
    /// of the existing dataset.
    pub fn append_opaque(&mut self, path: &str, shape: &[usize], data: &[u8]) -> (res: Result<()>)
        ensures
            outcome(old(self)@, final(self)@, res, spec_append_opaque(old(self)@, path.spec_bytes(), shape@, data@)),
    {
        let elem = {
            let ds = self.dataset_meta(path)?;
            ds.kind.elem_size()
        };
        let n = match product(shape) {
            Some(x) => x,
            None => return Err(HDF5Error::ShapeMismatch),
        };
        let need = match n.checked_mul(elem) {
            Some(x) => x,
            None => return Err(HDF5Error::ShapeMismatch),
        };
        if data.len() != need {
            return Err(HDF5Error::ShapeMismatch);
        }
        self.append_kind(path, shape, DTypeKind::Opaque(elem), data, n)
    }

    /// Read a string attribute on a dataset.
    pub fn read_attr_str(&self, path: &str, name: &str) -> (res: Result<String>)
        ensures
            match spec_dataset_meta(self@, path.spec_bytes()) {
                Ok(d) => match find_attr(d.attrs, name@) {
                    Some(v) => res matches Ok(s) && s@ == v,
                    None => res matches Err(e2) && e2@ == ErrView::NotFound(name@),
                },
                Err(e) => res matches Err(e2) && e2@ == e,
            },
    {
        let ds = self.dataset_meta(path)?;
        match attr_pos(&ds.attrs, name) {
            Some(i) => Ok(ds.attrs[i].1.clone()),
            None => Err(HDF5Error::NotFound(String::from_str(name))),
        }
    }

    /// String attributes on `path` (name, value), in file order.
    pub fn list_attrs(&self, path: &str) -> (res: Result<Vec<(String, String)>>)
        ensures
            match spec_dataset_meta(self@, path.spec_bytes()) {
                Ok(d) => res matches Ok(v) && attrs_view(v@) == d.attrs,
                Err(e) => res matches Err(e2) && e2@ == e,
            },
    {
        let ds = self.dataset_meta(path)?;
        let mut out: Vec<(String, String)> = Vec::new();
        let mut i: usize = 0;
        while i < ds.attrs.len()
            invariant
                i <= ds.attrs@.len(),
                attrs_view(out@) =~= attrs_view(ds.attrs@).take(i as int),
            decreases ds.attrs@.len() - i,
        {
            let ghost before = out@;
            let a = ds.attrs[i].0.clone();
            let b = ds.attrs[i].1.clone();
            out.push((a, b));
            proof {
                assert(attrs_view(out@) =~= attrs_view(before).push((a@, b@)));
                assert(attrs_view(ds.attrs@).take(i + 1) =~= attrs_view(ds.attrs@).take(i as int).push(
                    attrs_view(ds.attrs@)[i as int],
                ));
            }
            i = i + 1;
        }
        assert(attrs_view(ds.attrs@).take(ds.attrs@.len() as int) =~= attrs_view(ds.attrs@));
        Ok(out)
    }

    /// Write or replace a string attribute on a dataset.
    pub fn write_attr_str(&mut self, path: &str, name: &str, value: &str) -> (res: Result<()>)
        ensures
            outcome(old(self)@, final(self)@, res, spec_write_attr(old(self)@, path.spec_bytes(), name@, value@)),
    {
        proof {
            use_type_invariant(&*self);
        }
        if name.as_bytes().len() > HDF5_MAX_NAME_LEN || value.as_bytes().len() > HDF5_MAX_NAME_LEN {
            return Err(HDF5Error::NameTooLong);
        }
        let p = norm_path(path)?;
        let (c, found) = self.model.find_dataset(p.as_slice());
        if !found {
            return Err(HDF5Error::NotFound(text_of(p)));
        }
        let mut m = FileModel::new();
        std::mem::swap(&mut m, &mut self.model);
        m.set_attr_at(c, name, value);
        self.model = m;
        Ok(())
    }
}

/// Dimensions as `usize`.
fn dims_usize(s: &Vec<u64>) -> (v: Vec<usize>)
    ensures
        v@ == shape_usize(s@),
{
    let mut v: Vec<usize> = Vec::new();
    let mut i: usize = 0;
    while i < s.len()
        invariant
            i <= s@.len(),
            v@ =~= shape_usize(s@).take(i as int),
        decreases s@.len() - i,
    {
        v.push(s[i] as usize);
        i = i + 1;
    }
    assert(shape_usize(s@).take(s@.len() as int) =~= shape_usize(s@));
    v
}

/// Dimensions as `u64`.
fn dims_u64(s: &[usize]) -> (v: Vec<u64>)
    ensures
        v@ == shape_u64(s@),
{
    let mut v: Vec<u64> = Vec::new();
    let mut i: usize = 0;
    while i < s.len()
        invariant
            i <= s@.len(),
            v@ =~= shape_u64(s@).take(i as int),
        decreases s@.len() - i,
    {
        v.push(s[i] as u64);
        i = i + 1;
    }
    assert(shape_u64(s@).take(s@.len() as int) =~= shape_u64(s@));
    v
}

impl Clone for Hdf5File {
    /// A copy holding the same groups and datasets.
    fn clone(&self) -> (r: Self)
        ensures
            r@ == self@,
    {
        proof {
            use_type_invariant(self);
        }
        Hdf5File { model: self.model.copy() }
    }
}

impl Default for Hdf5File {
    /// Same as `Hdf5File::create`.
    fn default() -> (f: Self)
        ensures
            f@ == empty_model(),
    {
        Self::create()
    }
}

/// Dataset paths in `file`.
pub fn list_datasets(file: &Hdf5File) -> (v: Vec<String>)
    ensures
        v@.len() == file@.datasets.len(),
        forall|i: int| 0 <= i < v@.len() ==> #[trigger] v@[i]@ == decode_utf8(keys(file@.datasets)[i]),
{
    file.list_datasets()
}

/// Group paths in `file`.
pub fn list_groups(file: &Hdf5File) -> (v: Vec<String>)
    ensures
        v@.len() == group_list(file@.groups).len(),
        forall|i: int| 0 <= i < v@.len() ==> #[trigger] v@[i]@ == decode_utf8(group_list(file@.groups)[i]),
{
    file.list_groups()
}

/// Shape of dataset `path`.
pub fn dataset_shape(file: &Hdf5File, path: &str) -> (res: Result<Vec<usize>>)
    ensures
        match spec_dataset_meta(file@, path.spec_bytes()) {
            Ok(d) => res matches Ok(s) && s@ == shape_usize(d.shape),
            Err(e) => res matches Err(e2) && e2@ == e,
        },
{
    file.dataset_shape(path)
}

/// Datatype of dataset `path`.
pub fn dataset_dtype(file: &Hdf5File, path: &str) -> (res: Result<HDF5DType>)
    ensures
        match spec_dataset_meta(file@, path.spec_bytes()) {
            Ok(d) => res == Ok::<HDF5DType, HDF5Error>(spec_to_public(d.kind)),
            Err(e) => res matches Err(e2) && e2@ == e,
        },
{
    file.dataset_dtype(path)
}

/// Whether dimensions after the first agree.
fn tails_equal(a: &Vec<u64>, b: &[usize]) -> (r: bool)
    requires
        a@.len() == b@.len(),
        a@.len() >= 1,
    ensures
        r == (a@.subrange(1, a@.len() as int) == shape_u64(b@).subrange(1, b@.len() as int)),
{
    let mut i: usize = 1;
    while i < a.len()
        invariant
            1 <= i <= a@.len(),
            a@.len() == b@.len(),
            forall|j: int| 1 <= j < i ==> a@[j] == b@[j] as u64,
        decreases a@.len() - i,
    {
        if a[i] != b[i] as u64 {
            proof {
                assert(a@.subrange(1, a@.len() as int)[i - 1] != shape_u64(b@).subrange(1, b@.len() as int)[i - 1]);
            }
            return false;
        }
        i = i + 1;
    }
    assert(a@.subrange(1, a@.len() as int) =~= shape_u64(b@).subrange(1, b@.len() as int));
    true
}

/// `a * b`, or `usize::MAX` when that overflows.
fn saturating_mul(a: usize, b: usize) -> (r: usize)
    ensures
        r == sat_mul(a, b),
{
    match a.checked_mul(b) {
        Some(x) => x,
        None => usize::MAX,
    }
}

/// Saturating multiplication is monotone in its first factor.
proof fn lemma_sat_mul_mono(a: usize, b: usize, r: usize)
    requires
        a <= b,
    ensures
        sat_mul(a, r) <= sat_mul(b, r),
{
    assert(a * r <= b * r) by (nonlinear_arith)
        requires
            a <= b,
    ;
}

/// Product of `s` from the left, `None` on overflow.
fn product(s: &[usize]) -> (r: Option<usize>)
    ensures
        match checked_product(s@) {
            Some(n) => r == Some(n as usize),
            None => r is None,
        },
{
    let mut acc: usize = 1;
    let mut i: usize = 0;
    assert(s@.take(0) =~= Seq::<usize>::empty());
    while i < s.len()
        invariant
            i <= s@.len(),
            checked_product(s@.take(i as int)) == Some(acc as nat),
        decreases s@.len() - i,
    {
        proof {
            assert(s@.take(i + 1).drop_last() =~= s@.take(i as int));
        }
        match acc.checked_mul(s[i]) {
            Some(x) => {
                acc = x;
            },
            None => {
                proof {
                    lemma_product_none(s@, i as int);
                }
                return None;
            },
        }
        i = i + 1;
    }
    assert(s@.take(s@.len() as int) =~= s@);
    Some(acc)
}

/// Once a prefix overflows, the whole product does.
proof fn lemma_product_none(s: Seq<usize>, i: int)
    requires
        0 <= i < s.len(),
        checked_product(s.take(i + 1)) is None,
    ensures
        checked_product(s) is None,
    decreases s.len() - i,
{
    if i + 1 < s.len() {
        assert(s.take(i + 2).drop_last() =~= s.take(i + 1));
        lemma_product_none(s, i + 1);
    } else {
        assert(s.take(i + 1) =~= s);
    }
}

} // verus!
