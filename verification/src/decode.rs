//! Parse an HDF5 file image into a [`FileModel`].
use vstd::prelude::*;

use crate::btree::{
    read_local_heap, spec_read_local_heap, spec_walk_group, walk_group_btree, ChildView, GroupChild,
    chunks_view, read_gheap_object, spec_read_gheap, spec_walk_chunks, walk_chunk_btree, ChunkView,
};
use crate::buf::{le_at, rd_slice, size_ok, undef_addr, Reader};
use crate::consts::{
    HDF5_MAX_WALK_DEPTH, HDF5_MSG_ATTRIBUTE, HDF5_MSG_DATASPACE, HDF5_MSG_DATATYPE, HDF5_MSG_FILTER,
    HDF5_MSG_LAYOUT, HDF5_MSG_LINK, HDF5_MSG_LINK_INFO, HDF5_MSG_SYMBOL_TABLE,
};
use crate::error::{ErrView, HDF5Error, Result};
use crate::messages::{
    parse_link, parse_link_info_heap, parse_symbol_table, spec_parse_link, spec_parse_link_info_heap,
    spec_parse_symbol_table, cstr_bytes, cstr_string, parse_attribute, parse_dataspace, parse_datatype,
    parse_filter_count, parse_layout, spec_parse_attribute, spec_parse_dataspace, spec_parse_datatype,
    spec_parse_filter_count, spec_parse_layout, LayoutView, ParsedDType, ParsedLayout,
};
use crate::model::{
    attrs_view, empty_model, spec_create_group, spec_elem_size, spec_put_dataset, DTypeKind, DatasetRec,
    DatasetView, FileModel, ModelView,
};
use crate::ohdr::{msg_views, parse_ohdr, spec_parse_ohdr, MsgView, RawMsg};
use crate::superblock::{parse, spec_parse_superblock, Superblock};
use vstd::string::{StringExecFns, StringSliceAdditionalSpecFns};
use vstd::utf8::{decode_utf8, encode_utf8, valid_utf8};
use vstd::pervasive::VecAdditionalExecFns;

verus! {

/// `a * b`, or `u64::MAX` when that overflows.
pub open spec fn sat_mul64(a: u64, b: u64) -> u64 {
    if a * b > u64::MAX {
        u64::MAX
    } else {
        (a * b) as u64
    }
}

/// `a + b`, or `u64::MAX` when that overflows.
pub open spec fn sat_add64(a: u64, b: u64) -> u64 {
    if a + b > u64::MAX {
        u64::MAX
    } else {
        (a + b) as u64
    }
}

/// `a * b`, or `usize::MAX` when that overflows.
pub open spec fn sat_mul_usize(a: usize, b: usize) -> usize {
    if a * b > usize::MAX {
        usize::MAX
    } else {
        (a * b) as usize
    }
}

fn mul_sat64(a: u64, b: u64) -> (r: u64)
    ensures
        r == sat_mul64(a, b),
{
    match a.checked_mul(b) {
        Some(x) => x,
        None => u64::MAX,
    }
}

fn mul_sat_usize(a: usize, b: usize) -> (r: usize)
    ensures
        r == sat_mul_usize(a, b),
{
    match a.checked_mul(b) {
        Some(x) => x,
        None => usize::MAX,
    }
}

/// Number of elements of a dataspace, saturating at `u64::MAX` (1 for a scalar).
pub open spec fn spec_elem_count(dims: Seq<u64>) -> u64
    decreases dims.len(),
{
    if dims.len() == 0 {
        1
    } else {
        sat_mul64(spec_elem_count(dims.drop_last()), dims.last())
    }
}

/// Number of elements of a dataspace, saturating.
pub fn elem_count(dims: &[u64]) -> (n: u64)
    ensures
        n == spec_elem_count(dims@),
{
    let mut acc: u64 = 1;
    let mut i: usize = 0;
    assert(dims@.take(0) =~= Seq::<u64>::empty());
    while i < dims.len()
        invariant
            i <= dims@.len(),
            acc == spec_elem_count(dims@.take(i as int)),
        decreases dims@.len() - i,
    {
        assert(dims@.take(i + 1).drop_last() =~= dims@.take(i as int));
        acc = mul_sat64(acc, dims[i]);
        i = i + 1;
    }
    assert(dims@.take(dims@.len() as int) =~= dims@);
    acc
}

/// Extent walked along a chunk dimension: a zero extent counts as one.
pub open spec fn extent(c: u32) -> nat {
    if c == 0 {
        1
    } else {
        c as nat
    }
}

/// Copy element `l` of the chunk to element `g` of the dataset, when both
/// lie within their buffers (the element offsets saturate).
pub open spec fn copy_elem(dest: Seq<u8>, src: Seq<u8>, elem: usize, g: u64, l: u64) -> Seq<u8> {
    let ds = sat_mul_usize(g as usize, elem);
    let ss = sat_mul_usize(l as usize, elem);
    if ds + elem <= dest.len() && ss + elem <= src.len() {
        dest.subrange(0, ds as int) + src.subrange(ss as int, ss + elem) + dest.subrange(
            ds + elem,
            dest.len() as int,
        )
    } else {
        dest
    }
}

/// Copy the part of the chunk below dimension `i`, where `g` and `l` are the
/// dataset and chunk element indices built from the outer dimensions.
pub open spec fn copy_dim(
    dest: Seq<u8>,
    shape: Seq<u64>,
    elem: usize,
    origin: Seq<u64>,
    chunk: Seq<u32>,
    src: Seq<u8>,
    i: nat,
    g: u64,
    l: u64,
) -> Seq<u8>
    decreases shape.len() - i, 1nat, 0nat,
{
    if i >= shape.len() {
        copy_elem(dest, src, elem, g, l)
    } else {
        copy_range(dest, shape, elem, origin, chunk, src, i, g, l, 0)
    }
}

/// Copy, in order, the slices of dimension `i` from chunk position `li` on;
/// a slice outside the dataset is skipped.
pub open spec fn copy_range(
    dest: Seq<u8>,
    shape: Seq<u64>,
    elem: usize,
    origin: Seq<u64>,
    chunk: Seq<u32>,
    src: Seq<u8>,
    i: nat,
    g: u64,
    l: u64,
    li: nat,
) -> Seq<u8>
    decreases shape.len() - i, 0nat, extent(chunk[i as int]) - li,
{
    if i >= shape.len() || li >= extent(chunk[i as int]) {
        dest
    } else {
        let gi = sat_add64(origin[i as int], li as u64);
        let next = if gi >= shape[i as int] {
            dest
        } else {
            copy_dim(
                dest,
                shape,
                elem,
                origin,
                chunk,
                src,
                i + 1,
                sat_add64(sat_mul64(g, shape[i as int]), gi),
                sat_add64(sat_mul64(l, chunk[i as int] as u64), li as u64),
            )
        };
        copy_range(next, shape, elem, origin, chunk, src, i, g, l, li + 1)
    }
}

/// Copying one chunk into the dataset buffer: a scalar takes the leading
/// bytes; otherwise every element of the chunk (row-major order) that falls
/// inside the dataset is placed at its position.
pub open spec fn spec_copy_chunk(
    dest: Seq<u8>,
    shape: Seq<u64>,
    elem: usize,
    origin: Seq<u64>,
    chunk: Seq<u32>,
    src: Seq<u8>,
) -> Result<Seq<u8>> {
    if shape.len() == 0 {
        let n = if elem <= src.len() && elem <= dest.len() {
            elem as int
        } else if src.len() <= dest.len() {
            src.len() as int
        } else {
            dest.len() as int
        };
        Ok(src.subrange(0, n) + dest.subrange(n, dest.len() as int))
    } else if origin.len() < shape.len() || chunk.len() < shape.len() {
        Err(HDF5Error::ShapeMismatch)
    } else {
        Ok(copy_dim(dest, shape, elem, origin, chunk, src, 0, 0, 0))
    }
}

/// Copy element `l` of `src` to element `g` of `dest`.
fn copy_one(dest: &mut Vec<u8>, src: &[u8], elem: usize, g: u64, l: u64)
    ensures
        final(dest)@ == copy_elem(old(dest)@, src@, elem, g, l),
{
    let ds = mul_sat_usize(g as usize, elem);
    let ss = mul_sat_usize(l as usize, elem);
    let dl = dest.len();
    let sl = src.len();
    let fits = match (ds.checked_add(elem), ss.checked_add(elem)) {
        (Some(de), Some(se)) => de <= dl && se <= sl,
        _ => false,
    };
    if fits {
        let ghost d0 = dest@;
        let mut k: usize = 0;
        while k < elem
            invariant
                k <= elem,
                ds + elem <= d0.len(),
                ss + elem <= src@.len(),
                ds + elem <= usize::MAX,
                ss + elem <= usize::MAX,
                dest@ =~= d0.subrange(0, ds as int) + src@.subrange(ss as int, ss + k) + d0.subrange(
                    ds + k,
                    d0.len() as int,
                ),
            decreases elem - k,
        {
            dest.set(ds + k, src[ss + k]);
            k = k + 1;
        }
    }
}

/// Copy the part of the chunk below dimension `i`.
fn copy_dims(
    dest: &mut Vec<u8>,
    shape: &[u64],
    elem: usize,
    origin: &[u64],
    chunk: &[u32],
    src: &[u8],
    i: usize,
    g: u64,
    l: u64,
)
    requires
        i <= shape@.len(),
        origin@.len() >= shape@.len(),
        chunk@.len() >= shape@.len(),
    ensures
        final(dest)@ == copy_dim(old(dest)@, shape@, elem, origin@, chunk@, src@, i as nat, g, l),
    decreases shape@.len() - i, 1nat,
{
    if i >= shape.len() {
        copy_one(dest, src, elem, g, l);
        return;
    }
    let c = chunk[i];
    let ext: u64 = if c == 0 { 1 } else { c as u64 };
    let mut li: u64 = 0;
    while li < ext
        invariant
            i < shape@.len(),
            origin@.len() >= shape@.len(),
            chunk@.len() >= shape@.len(),
            c == chunk@[i as int],
            ext == extent(c),
            li <= ext,
            copy_dim(old(dest)@, shape@, elem, origin@, chunk@, src@, i as nat, g, l) == copy_range(
                dest@,
                shape@,
                elem,
                origin@,
                chunk@,
                src@,
                i as nat,
                g,
                l,
                li as nat,
            ),
        decreases ext - li,
    {
        let gi = origin[i].saturating_add(li);
        if gi < shape[i] {
            let gn = mul_sat64(g, shape[i]).saturating_add(gi);
            let ln = mul_sat64(l, c as u64).saturating_add(li);
            copy_dims(dest, shape, elem, origin, chunk, src, i + 1, gn, ln);
        }
        li = li + 1;
    }
}

/// Copy one chunk into the dataset buffer.
pub fn copy_chunk(
    dest: &mut Vec<u8>,
    shape: &[u64],
    elem: usize,
    origin: &[u64],
    chunk: &[u32],
    src: &[u8],
) -> (res: Result<()>)
    ensures
        match spec_copy_chunk(old(dest)@, shape@, elem, origin@, chunk@, src@) {
            Ok(d) => res is Ok && final(dest)@ == d,
            Err(e) => res == Err::<(), HDF5Error>(e) && final(dest)@ == old(dest)@,
        },
{
    let rank = shape.len();
    if rank == 0 {
        let n = if elem <= src.len() && elem <= dest.len() {
            elem
        } else if src.len() <= dest.len() {
            src.len()
        } else {
            dest.len()
        };
        let ghost d0 = dest@;
        let mut k: usize = 0;
        while k < n
            invariant
                k <= n,
                n <= src@.len(),
                n <= d0.len(),
                dest@ =~= src@.subrange(0, k as int) + d0.subrange(k as int, d0.len() as int),
            decreases n - k,
        {
            dest.set(k, src[k]);
            k = k + 1;
        }
        return Ok(());
    }
    if origin.len() < rank || chunk.len() < rank {
        return Err(HDF5Error::ShapeMismatch);
    }
    copy_dims(dest, shape, elem, origin, chunk, src, 0, 0, 0);
    Ok(())
}

/// Dimensions of a chunk along the dataset's axes: a trailing element-size
/// dimension is dropped; a scalar has none; another rank is an error.
pub open spec fn spatial_dims(shape: Seq<u64>, chunk_dims: Seq<u32>) -> Option<Seq<u32>> {
    if chunk_dims.len() == shape.len() + 1 {
        Some(chunk_dims.subrange(0, shape.len() as int))
    } else if chunk_dims.len() == shape.len() {
        Some(chunk_dims)
    } else if shape.len() == 0 {
        Some(Seq::empty())
    } else {
        None
    }
}

/// Placing the chunks, in order, into `out`: a filtered chunk is an error, an
/// empty one is skipped, the others are read from the file and copied.
pub open spec fn spec_apply_chunks(
    d: Seq<u8>,
    out: Seq<u8>,
    shape: Seq<u64>,
    elem: usize,
    spatial: Seq<u32>,
    chunks: Seq<ChunkView>,
) -> Result<Seq<u8>>
    decreases chunks.len(),
{
    if chunks.len() == 0 {
        Ok(out)
    } else {
        let ch = chunks[0];
        if ch.filter_mask != 0 {
            Err(HDF5Error::FilteredNotSupported)
        } else if ch.size == 0 {
            spec_apply_chunks(d, out, shape, elem, spatial, chunks.drop_first())
        } else {
            match rd_slice(d, ch.addr, ch.size as u64) {
                Err(e) => Err(e),
                Ok(raw) => match spec_copy_chunk(out, shape, elem, ch.offset, spatial, raw) {
                    Err(e) => Err(e),
                    Ok(o2) => spec_apply_chunks(d, o2, shape, elem, spatial, chunks.drop_first()),
                },
            }
        }
    }
}

/// The payload of an uncompressed chunked dataset, assembled from the chunks
/// its B-tree indexes into a zero-filled buffer of `elem_count * elem` bytes.
/// Chunks the index does not list stay zero.
pub open spec fn spec_assemble(
    d: Seq<u8>,
    osize: u8,
    lsize: u8,
    btree_addr: u64,
    shape: Seq<u64>,
    chunk_dims: Seq<u32>,
    elem: usize,
) -> Result<Seq<u8>> {
    if elem == 0 {
        Err(HDF5Error::InvalidHeader)
    } else if !size_ok(osize) {
        Err(HDF5Error::UnsupportedVersion(osize))
    } else if !size_ok(lsize) {
        Err(HDF5Error::UnsupportedVersion(lsize))
    } else if btree_addr == undef_addr(osize) {
        Err(HDF5Error::ChunkedNotSupported)
    } else if chunk_dims.len() == 0 {
        Err(HDF5Error::ChunkedNotSupported)
    } else {
        match spec_walk_chunks(d, btree_addr, chunk_dims.len(), osize, lsize, 0) {
            Err(e) => Err(e),
            Ok(chunks) => {
                let nb = sat_mul64(spec_elem_count(shape), elem as u64);
                if nb > usize::MAX {
                    Err(HDF5Error::ShapeMismatch)
                } else {
                    match spatial_dims(shape, chunk_dims) {
                        None => Err(HDF5Error::ShapeMismatch),
                        Some(sp) => spec_apply_chunks(
                            d,
                            Seq::new(nb as nat, |i: int| 0u8),
                            shape,
                            elem,
                            sp,
                            chunks,
                        ),
                    }
                }
            },
        }
    }
}

/// Assemble the payload of an uncompressed chunked dataset.
pub fn assemble_chunks(
    data: &[u8],
    offset_size: u8,
    length_size: u8,
    btree_addr: u64,
    shape: &[u64],
    chunk_dims: &[u32],
    elem: usize,
) -> (res: Result<Vec<u8>>)
    ensures
        match spec_assemble(data@, offset_size, length_size, btree_addr, shape@, chunk_dims@, elem) {
            Ok(v) => res matches Ok(o) && o@ == v,
            Err(e) => res matches Err(e2) && e2 == e,
        },
{
    if elem == 0 {
        return Err(HDF5Error::InvalidHeader);
    }
    let r = Reader::new(data, offset_size, length_size)?;
    if r.is_undef(btree_addr) {
        return Err(HDF5Error::ChunkedNotSupported);
    }
    let ndims = chunk_dims.len();
    if ndims == 0 {
        return Err(HDF5Error::ChunkedNotSupported);
    }
    let chunks = walk_chunk_btree(data, btree_addr, ndims, offset_size, length_size, 0)?;
    let nb = mul_sat64(elem_count(shape), elem as u64);
    if nb > usize::MAX as u64 {
        return Err(HDF5Error::ShapeMismatch);
    }
    let nbytes = nb as usize;
    let mut out: Vec<u8> = vec![0u8; nbytes];
    assert(out@ =~= Seq::new(nb as nat, |i: int| 0u8));
    let spatial: Vec<u32> = if chunk_dims.len() - 1 == shape.len() {
        vstd::slice::slice_to_vec(vstd::slice::slice_subrange(chunk_dims, 0, shape.len()))
    } else if chunk_dims.len() == shape.len() {
        vstd::slice::slice_to_vec(chunk_dims)
    } else if shape.len() == 0 {
        Vec::new()
    } else {
        return Err(HDF5Error::ShapeMismatch);
    };
    let ghost cs = chunks_view(chunks@);
    let ghost sp = spatial@;
    let ghost out0 = out@;
    assert(spatial_dims(shape@, chunk_dims@) == Some(sp));
    assert(spec_assemble(data@, offset_size, length_size, btree_addr, shape@, chunk_dims@, elem)
        == spec_apply_chunks(data@, out0, shape@, elem, sp, cs));
    let mut j: usize = 0;
    assert(cs.skip(0) =~= cs);
    while j < chunks.len()
        invariant
            j <= chunks@.len(),
            cs == chunks_view(chunks@),
            sp == spatial@,
            size_ok(offset_size),
            size_ok(length_size),
            spec_assemble(data@, offset_size, length_size, btree_addr, shape@, chunk_dims@, elem)
                == spec_apply_chunks(data@, out0, shape@, elem, sp, cs),
            spec_apply_chunks(data@, out0, shape@, elem, sp, cs) == spec_apply_chunks(
                data@,
                out@,
                shape@,
                elem,
                sp,
                cs.skip(j as int),
            ),
        decreases chunks@.len() - j,
    {
        let ghost rest = cs.skip(j as int);
        assert(rest[0] == chunks@[j as int]@);
        assert(rest.drop_first() =~= cs.skip(j + 1));
        let ch = &chunks[j];
        if ch.filter_mask != 0 {
            return Err(HDF5Error::FilteredNotSupported);
        }
        if ch.size != 0 {
            let rd = Reader::new(data, offset_size, length_size)?;
            let raw = rd.slice_at(ch.addr, ch.size as u64)?;
            copy_chunk(&mut out, shape, elem, ch.offset.as_slice(), spatial.as_slice(), raw)?;
        }
        j = j + 1;
    }
    assert(cs.skip(chunks@.len() as int) =~= Seq::<ChunkView>::empty());
    Ok(out)
}

/// Element type of a parsed datatype: strings and unknown classes are
/// `Other` (at least one byte per element).
pub open spec fn spec_dtype_kind(d: ParsedDType) -> DTypeKind {
    match d {
        ParsedDType::Float64Le => DTypeKind::Float64,
        ParsedDType::Float32Le => DTypeKind::Float32,
        ParsedDType::Int8Le => DTypeKind::Int8,
        ParsedDType::Int16Le => DTypeKind::Int16,
        ParsedDType::Int32Le => DTypeKind::Int32,
        ParsedDType::Int64Le => DTypeKind::Int64,
        ParsedDType::UInt8Le => DTypeKind::UInt8,
        ParsedDType::UInt16Le => DTypeKind::UInt16,
        ParsedDType::UInt32Le => DTypeKind::UInt32,
        ParsedDType::UInt64Le => DTypeKind::UInt64,
        ParsedDType::Opaque { size } => DTypeKind::Opaque(size),
        ParsedDType::FixedString { size } => DTypeKind::Other { size: if size == 0 { 1 } else { size } },
        ParsedDType::Other { size } => DTypeKind::Other { size: if size == 0 { 1 } else { size } },
        ParsedDType::VlenString => DTypeKind::Other { size: 1 },
    }
}

/// Element type of a parsed datatype.
pub fn dtype_kind(dtype: ParsedDType) -> (k: DTypeKind)
    ensures
        k == spec_dtype_kind(dtype),
{
    match dtype {
        ParsedDType::Float64Le => DTypeKind::Float64,
        ParsedDType::Float32Le => DTypeKind::Float32,
        ParsedDType::Int8Le => DTypeKind::Int8,
        ParsedDType::Int16Le => DTypeKind::Int16,
        ParsedDType::Int32Le => DTypeKind::Int32,
        ParsedDType::Int64Le => DTypeKind::Int64,
        ParsedDType::UInt8Le => DTypeKind::UInt8,
        ParsedDType::UInt16Le => DTypeKind::UInt16,
        ParsedDType::UInt32Le => DTypeKind::UInt32,
        ParsedDType::UInt64Le => DTypeKind::UInt64,
        ParsedDType::Opaque { size } => DTypeKind::Opaque(size),
        ParsedDType::FixedString { size } | ParsedDType::Other { size } => DTypeKind::Other {
            size: if size == 0 { 1 } else { size },
        },
        ParsedDType::VlenString => DTypeKind::Other { size: 1 },
    }
}

/// A readable dataset record.
pub open spec fn plain_rec(
    kind: DTypeKind,
    shape: Seq<u64>,
    data: Seq<u8>,
    attrs: Seq<(Seq<char>, Seq<char>)>,
) -> DatasetView {
    DatasetView { shape, kind, data, attrs, chunked: false, filtered: false }
}

/// A readable dataset record.
pub fn make_rec(kind: DTypeKind, shape: Vec<u64>, data: Vec<u8>, attrs: Vec<(String, String)>) -> (r:
    DatasetRec)
    ensures
        r@ == plain_rec(kind, shape@, data@, attrs_view(attrs@)),
{
    DatasetRec { shape, kind, data, attrs, chunked: false, filtered: false }
}

/// Global-heap ID of a variable-length string: length, collection address,
/// object index; older files omit the length.
pub open spec fn spec_vlen_heap_id(raw: Seq<u8>, osize: u8) -> Option<(u64, u32)> {
    if raw.len() >= 8 + osize {
        if size_ok(osize) {
            Some((le_at(raw, 4, osize as int) as u64, le_at(raw, 4 + osize, 4) as u32))
        } else {
            None
        }
    } else if raw.len() >= 4 + osize {
        if size_ok(osize) {
            Some((le_at(raw, 0, osize as int) as u64, le_at(raw, osize as int, 4) as u32))
        } else {
            None
        }
    } else {
        None
    }
}

/// On-disk VL string: `u32` length, collection address, `u32` heap index.
/// Older files omit the length and store only the global-heap ID.
pub fn parse_vlen_heap_id(raw: &[u8], offset_size: u8) -> (res: Option<(u64, u32)>)
    ensures
        res == spec_vlen_heap_id(raw@, offset_size),
{
    let off = offset_size as usize;
    let with_len = 4 + off + 4;
    let without = off + 4;
    if raw.len() >= with_len {
        let mut r = match Reader::new(raw, offset_size, 8) {
            Ok(r) => r,
            Err(_) => return None,
        };
        let _len = r.u32().ok()?;
        let coll = r.addr().ok()?;
        let idx = r.u32().ok()?;
        return Some((coll, idx));
    }
    if raw.len() >= without {
        let mut r = match Reader::new(raw, offset_size, 8) {
            Ok(r) => r,
            Err(_) => return None,
        };
        let coll = r.addr().ok()?;
        let idx = r.u32().ok()?;
        return Some((coll, idx));
    }
    None
}

/// Text of a byte string up to its first zero, if it is UTF-8.
pub open spec fn cstr_text(b: Seq<u8>) -> Option<Seq<char>> {
    if valid_utf8(cstr_bytes(b)) {
        Some(decode_utf8(cstr_bytes(b)))
    } else {
        None
    }
}

/// Text of a string attribute: a fixed string up to its first zero; a
/// variable-length string through the global heap (an undefined collection
/// is the empty string). Anything else, or an unreadable value, has none.
pub open spec fn spec_attr_text(d: Seq<u8>, osize: u8, lsize: u8, dtype: ParsedDType, raw: Seq<u8>) -> Option<
    Seq<char>,
> {
    match dtype {
        ParsedDType::FixedString { .. } => cstr_text(raw),
        ParsedDType::VlenString => match spec_vlen_heap_id(raw, osize) {
            None => None,
            Some((coll, idx)) => if !size_ok(lsize) {
                None
            } else if coll == undef_addr(osize) {
                Some(Seq::empty())
            } else {
                match spec_read_gheap(d, coll, idx, osize, lsize) {
                    Ok(obj) => cstr_text(obj),
                    Err(_) => None,
                }
            },
        },
        _ => None,
    }
}

/// Text of a string attribute.
pub fn attr_to_string(data: &[u8], sb: &Superblock, dtype: &ParsedDType, raw: &[u8]) -> (res: Option<String>)
    ensures
        match spec_attr_text(data@, sb.offset_size, sb.length_size, *dtype, raw@) {
            Some(t) => res matches Some(s) && s@ == t,
            None => res is None,
        },
{
    match dtype {
        ParsedDType::FixedString { .. } => cstr_string(raw),
        ParsedDType::VlenString => {
            let (coll, idx) = parse_vlen_heap_id(raw, sb.offset_size)?;
            let r = match Reader::new(raw, sb.offset_size, sb.length_size) {
                Ok(r) => r,
                Err(_) => return None,
            };
            if r.is_undef(coll) {
                return Some(String::new());
            }
            let obj = match read_gheap_object(data, coll, idx, sb.offset_size, sb.length_size) {
                Ok(o) => o,
                Err(_) => return None,
            };
            cstr_string(obj.as_slice())
        },
        _ => None,
    }
}

/// The first message of type `ty`.
pub open spec fn first_msg(ms: Seq<MsgView>, ty: u8) -> Option<MsgView>
    decreases ms.len(),
{
    if ms.len() == 0 {
        None
    } else if ms[0].ty == ty {
        Some(ms[0])
    } else {
        first_msg(ms.drop_first(), ty)
    }
}

/// Skipping messages of other types does not change the first match.
pub proof fn lemma_first_msg_skip(ms: Seq<MsgView>, ty: u8, i: int)
    requires
        0 <= i <= ms.len(),
        forall|j: int| 0 <= j < i ==> (#[trigger] ms[j]).ty != ty,
    ensures
        first_msg(ms, ty) == first_msg(ms.subrange(i, ms.len() as int), ty),
    decreases i,
{
    if i > 0 {
        assert forall|j: int| 0 <= j < i - 1 implies (#[trigger] ms.drop_first()[j]).ty != ty by {
            assert(ms.drop_first()[j] == ms[j + 1]);
        }
        lemma_first_msg_skip(ms.drop_first(), ty, i - 1);
        assert(ms.drop_first().subrange(i - 1, ms.drop_first().len() as int) =~= ms.subrange(i, ms.len() as int));
    } else {
        assert(ms.subrange(0, ms.len() as int) =~= ms);
    }
}

/// Index of the first message of type `ty`.
fn find_msg(msgs: &[RawMsg], ty: u8) -> (r: Option<usize>)
    ensures
        match first_msg(msg_views(msgs@), ty) {
            Some(m) => r matches Some(i) && i < msgs@.len() && msgs@[i as int]@ == m,
            None => r is None,
        },
{
    let ghost ms = msg_views(msgs@);
    let mut i: usize = 0;
    while i < msgs.len()
        invariant
            i <= msgs@.len(),
            ms == msg_views(msgs@),
            forall|j: int| 0 <= j < i ==> (#[trigger] ms[j]).ty != ty,
        decreases msgs@.len() - i,
    {
        if msgs[i].ty == ty {
            proof {
                lemma_first_msg_skip(ms, ty, i as int);
                assert(ms.subrange(i as int, ms.len() as int)[0] == ms[i as int]);
            }
            return Some(i);
        }
        proof {
            assert(ms[i as int].ty == msgs@[i as int].ty);
        }
        i = i + 1;
    }
    proof {
        lemma_first_msg_skip(ms, ty, ms.len() as int);
    }
    None
}

/// String attributes of an object, in message order: attributes that do not
/// parse, or whose value is not text, are left out.
pub open spec fn spec_attr_list(d: Seq<u8>, osize: u8, lsize: u8, ms: Seq<MsgView>) -> Seq<
    (Seq<char>, Seq<char>),
>
    decreases ms.len(),
{
    if ms.len() == 0 {
        Seq::empty()
    } else {
        let rest = spec_attr_list(d, osize, lsize, ms.drop_last());
        let m = ms.last();
        if m.ty == HDF5_MSG_ATTRIBUTE {
            match spec_parse_attribute(m.body, osize, lsize) {
                Ok((nb, dt, raw)) => match spec_attr_text(d, osize, lsize, dt, raw) {
                    Some(t) => rest.push((decode_utf8(nb), t)),
                    None => rest,
                },
                Err(_) => rest,
            }
        } else {
            rest
        }
    }
}

/// Filter count of the last filter-pipeline message (1 when it does not
/// parse), or 0 without one.
pub open spec fn spec_filters(ms: Seq<MsgView>) -> u8
    decreases ms.len(),
{
    if ms.len() == 0 {
        0
    } else if ms.last().ty == HDF5_MSG_FILTER {
        match spec_parse_filter_count(ms.last().body) {
            Ok(n) => n,
            Err(_) => 1,
        }
    } else {
        spec_filters(ms.drop_last())
    }
}

/// The dataset an object header describes, if it has a datatype, a dataspace
/// and a layout message (the first of each): contiguous data is read from the
/// file, compact data taken from the message, uncompressed chunks assembled;
/// filtered chunked data, or chunks that cannot be assembled, leave a record
/// marked as not readable. Errors of the three messages, and of reading
/// contiguous data, are the result.
#[verifier::opaque]
pub open spec fn spec_try_dataset(d: Seq<u8>, osize: u8, lsize: u8, ms: Seq<MsgView>) -> Result<
    Option<DatasetView>,
> {
    match (first_msg(ms, HDF5_MSG_DATATYPE), first_msg(ms, HDF5_MSG_DATASPACE), first_msg(ms, HDF5_MSG_LAYOUT)) {
        (Some(dm), Some(sm), Some(lm)) => match spec_parse_datatype(dm.body) {
            Err(e) => Err(e),
            Ok(dt) => match spec_parse_dataspace(sm.body, lsize) {
                Err(e) => Err(e),
                Ok(dims) => match spec_parse_layout(lm.body, osize, lsize) {
                    Err(e) => Err(e),
                    Ok(lay) => {
                        let attrs = spec_attr_list(d, osize, lsize, ms);
                        let filtered = spec_filters(ms) > 0;
                        let kind = spec_dtype_kind(dt);
                        match lay {
                            LayoutView::Chunked { addr, chunk_dims } => if filtered {
                                Ok(
                                    Some(
                                        DatasetView {
                                            shape: dims,
                                            kind,
                                            data: Seq::empty(),
                                            attrs,
                                            chunked: true,
                                            filtered: true,
                                        },
                                    ),
                                )
                            } else {
                                match spec_assemble(
                                    d,
                                    osize,
                                    lsize,
                                    addr,
                                    dims,
                                    chunk_dims,
                                    spec_elem_size(kind) as usize,
                                ) {
                                    Ok(raw) => Ok(Some(plain_rec(kind, dims, raw, attrs))),
                                    Err(_) => Ok(
                                        Some(
                                            DatasetView {
                                                shape: dims,
                                                kind,
                                                data: Seq::empty(),
                                                attrs,
                                                chunked: true,
                                                filtered: false,
                                            },
                                        ),
                                    ),
                                }
                            },
                            LayoutView::Compact { data } => Ok(Some(plain_rec(kind, dims, data, attrs))),
                            LayoutView::Contiguous { addr, size } => {
                                let n = if size == 0 {
                                    sat_mul64(spec_elem_count(dims), spec_elem_size(kind) as u64)
                                } else {
                                    size
                                };
                                if n == 0 {
                                    Ok(Some(plain_rec(kind, dims, Seq::empty(), attrs)))
                                } else if !size_ok(osize) {
                                    Err(HDF5Error::UnsupportedVersion(osize))
                                } else if !size_ok(lsize) {
                                    Err(HDF5Error::UnsupportedVersion(lsize))
                                } else {
                                    match rd_slice(d, addr, n) {
                                        Err(e) => Err(e),
                                        Ok(raw) => Ok(Some(plain_rec(kind, dims, raw, attrs))),
                                    }
                                }
                            },
                        }
                    },
                },
            },
        },
        _ => Ok(None),
    }
}

/// The dataset an object header describes, if it is one.
#[verifier::rlimit(50)]
pub fn try_dataset(data: &[u8], sb: &Superblock, msgs: &[RawMsg]) -> (res: Result<Option<DatasetRec>>)
    ensures
        match spec_try_dataset(data@, sb.offset_size, sb.length_size, msg_views(msgs@)) {
            Ok(None) => res matches Ok(None),
            Ok(Some(v)) => res matches Ok(Some(r)) && r@ == v,
            Err(e) => res matches Err(e2) && e2 == e,
        },
{
    proof {
        reveal(spec_try_dataset);
    }
    let ghost ms = msg_views(msgs@);
    let dti = find_msg(msgs, HDF5_MSG_DATATYPE);
    let spi = find_msg(msgs, HDF5_MSG_DATASPACE);
    let lai = find_msg(msgs, HDF5_MSG_LAYOUT);
    let (dti, spi, lai) = match (dti, spi, lai) {
        (Some(a), Some(b), Some(c)) => (a, b, c),
        _ => return Ok(None),
    };
    let dtype = parse_datatype(msgs[dti].body.as_slice())?;
    let space = parse_dataspace(msgs[spi].body.as_slice(), sb.length_size)?;
    let layout = parse_layout(msgs[lai].body.as_slice(), sb.offset_size, sb.length_size)?;
    let mut attrs: Vec<(String, String)> = Vec::new();
    let mut i: usize = 0;
    assert(ms.take(0) =~= Seq::<MsgView>::empty());
    while i < msgs.len()
        invariant
            i <= msgs@.len(),
            ms == msg_views(msgs@),
            attrs_view(attrs@) == spec_attr_list(data@, sb.offset_size, sb.length_size, ms.take(i as int)),
        decreases msgs@.len() - i,
    {
        proof {
            assert(ms.take(i + 1).drop_last() =~= ms.take(i as int));
            assert(ms.take(i + 1).last() == msgs@[i as int]@);
        }
        if msgs[i].ty == HDF5_MSG_ATTRIBUTE {
            if let Ok(a) = parse_attribute(msgs[i].body.as_slice(), sb.offset_size, sb.length_size) {
                if let Some(s) = attr_to_string(data, sb, &a.dtype, a.data.as_slice()) {
                    let ghost before = attrs@;
                    let ghost nv = a.name@;
                    let ghost sv = s@;
                    attrs.push((a.name, s));
                    proof {
                        assert(attrs_view(attrs@) =~= attrs_view(before).push((nv, sv)));
                    }
                }
            }
        }
        i = i + 1;
    }
    proof {
        assert(ms.take(msgs@.len() as int) =~= ms);
    }
    let mut nfilters: u8 = 0;
    let mut j: usize = 0;
    while j < msgs.len()
        invariant
            j <= msgs@.len(),
            ms == msg_views(msgs@),
            nfilters == spec_filters(ms.take(j as int)),
        decreases msgs@.len() - j,
    {
        proof {
            assert(ms.take(j + 1).drop_last() =~= ms.take(j as int));
            assert(ms.take(j + 1).last() == msgs@[j as int]@);
        }
        if msgs[j].ty == HDF5_MSG_FILTER {
            nfilters = match parse_filter_count(msgs[j].body.as_slice()) {
                Ok(n) => n,
                Err(_) => 1,
            };
        }
        j = j + 1;
    }
    proof {
        assert(ms.take(msgs@.len() as int) =~= ms);
    }
    let filtered = nfilters > 0;
    let kind = dtype_kind(dtype);
    match layout {
        ParsedLayout::Chunked { addr, chunk_dims } => {
            if filtered {
                return Ok(
                    Some(
                        DatasetRec {
                            shape: space.dims,
                            kind,
                            data: Vec::new(),
                            attrs,
                            chunked: true,
                            filtered: true,
                        },
                    ),
                );
            }
            let assembled = assemble_chunks(
                data,
                sb.offset_size,
                sb.length_size,
                addr,
                space.dims.as_slice(),
                chunk_dims.as_slice(),
                kind.elem_size(),
            );
            match assembled {
                Ok(raw) => Ok(Some(make_rec(kind, space.dims, raw, attrs))),
                Err(_) => Ok(
                    Some(
                        DatasetRec {
                            shape: space.dims,
                            kind,
                            data: Vec::new(),
                            attrs,
                            chunked: true,
                            filtered: false,
                        },
                    ),
                ),
            }
        },
        ParsedLayout::Compact { data: raw } => Ok(Some(make_rec(kind, space.dims, raw, attrs))),
        ParsedLayout::Contiguous { addr, size } => {
            let n = if size == 0 {
                mul_sat64(elem_count(space.dims.as_slice()), kind.elem_size() as u64)
            } else {
                size
            };
            let raw = if n == 0 {
                Vec::new()
            } else {
                vstd::slice::slice_to_vec(
                    Reader::new(data, sb.offset_size, sb.length_size)?.slice_at(addr, n)?,
                )
            };
            Ok(Some(make_rec(kind, space.dims, raw, attrs)))
        },
    }
}

/// Children named by link messages, in message order.
pub open spec fn spec_links(ms: Seq<MsgView>, osize: u8) -> Result<Seq<(Seq<char>, u64)>>
    decreases ms.len(),
{
    if ms.len() == 0 {
        Ok(Seq::empty())
    } else {
        match spec_links(ms.drop_last(), osize) {
            Err(e) => Err(e),
            Ok(acc) => if ms.last().ty == HDF5_MSG_LINK {
                match spec_parse_link(ms.last().body, osize) {
                    Err(e) => Err(e),
                    Ok((nb, o)) => Ok(acc.push((decode_utf8(nb), o))),
                }
            } else {
                Ok(acc)
            },
        }
    }
}

/// Children listed by the symbol table of B-tree `bt` and local heap `hp`.
pub open spec fn spec_table_kids(d: Seq<u8>, osize: u8, lsize: u8, bt: u64, hp: u64) -> Result<
    Seq<(Seq<char>, u64)>,
> {
    match spec_read_local_heap(d, hp, osize, lsize) {
        Err(e) => Err(e),
        Ok(h) => match spec_walk_group(d, bt, h, osize, lsize, 0) {
            Err(e) => Err(e),
            Ok(cs) => Ok(cs.map_values(|c: ChildView| (decode_utf8(c.0), c.1))),
        },
    }
}

/// Children of a group: a dense link index is an error; links, if there are
/// any, else the symbol table (that of the header, else the one cached in the
/// superblock for the root).
#[verifier::opaque]
pub open spec fn spec_group_kids(
    d: Seq<u8>,
    sb: Superblock,
    ms: Seq<MsgView>,
    btree: Option<u64>,
    heap: Option<u64>,
) -> Result<Seq<(Seq<char>, u64)>> {
    let dense = match first_msg(ms, HDF5_MSG_LINK_INFO) {
        Some(h) => match spec_parse_link_info_heap(h.body, sb.offset_size) {
            Err(e) => Err(e),
            Ok(Some(_)) => Err(HDF5Error::DenseGroupsNotSupported),
            Ok(None) => Ok(()),
        },
        None => Ok(()),
    };
    match dense {
        Err(e) => Err(e),
        Ok(()) => match spec_links(ms, sb.offset_size) {
            Err(e) => Err(e),
            Ok(links) => if links.len() > 0 {
                Ok(links)
            } else {
                match first_msg(ms, HDF5_MSG_SYMBOL_TABLE) {
                    Some(m) => match spec_parse_symbol_table(m.body, sb.offset_size) {
                        Err(e) => Err(e),
                        Ok((bt, hp)) => spec_table_kids(d, sb.offset_size, sb.length_size, bt, hp),
                    },
                    None => match (btree, heap) {
                        (Some(bt), Some(hp)) => spec_table_kids(d, sb.offset_size, sb.length_size, bt, hp),
                        _ => Ok(Seq::empty()),
                    },
                }
            },
        },
    }
}

/// Children by their views.
pub open spec fn kid_views(k: Seq<(String, u64)>) -> Seq<(Seq<char>, u64)> {
    k.map_values(|e: (String, u64)| (e.0@, e.1))
}

/// Group children as parsed.
fn children_of(cs: &Vec<GroupChild>) -> (v: Vec<(String, u64)>)
    ensures
        kid_views(v@) == cs@.map_values(|c: GroupChild| (c.name@, c.ohdr)),
{
    let ghost want = cs@.map_values(|c: GroupChild| (c.name@, c.ohdr));
    let mut out: Vec<(String, u64)> = Vec::new();
    let mut i: usize = 0;
    while i < cs.len()
        invariant
            i <= cs@.len(),
            want == cs@.map_values(|c: GroupChild| (c.name@, c.ohdr)),
            kid_views(out@) =~= want.take(i as int),
        decreases cs@.len() - i,
    {
        let ghost before = out@;
        let name = cs[i].name.clone();
        out.push((name, cs[i].ohdr));
        proof {
            assert(kid_views(out@) =~= kid_views(before).push(want[i as int]));
            assert(want.take(i + 1) =~= want.take(i as int).push(want[i as int]));
        }
        i = i + 1;
    }
    assert(want.take(cs@.len() as int) =~= want);
    out
}

/// Children listed by a symbol table.
fn table_kids(data: &[u8], sb: &Superblock, bt: u64, hp: u64) -> (res: Result<Vec<(String, u64)>>)
    ensures
        match spec_table_kids(data@, sb.offset_size, sb.length_size, bt, hp) {
            Ok(k) => res matches Ok(v) && kid_views(v@) == k,
            Err(e) => res matches Err(e2) && e2 == e,
        },
{
    let heap_bytes = read_local_heap(data, hp, sb.offset_size, sb.length_size)?;
    let cs = walk_group_btree(data, bt, heap_bytes, sb.offset_size, sb.length_size, 0)?;
    let ghost vs = spec_walk_group(data@, bt, heap_bytes@, sb.offset_size, sb.length_size, 0)->Ok_0;
    let ghost csv = cs@;
    let out = children_of(&cs);
    proof {
        assert forall|i: int| 0 <= i < vs.len() implies #[trigger] kid_views(out@)[i] == vs.map_values(
            |c: ChildView| (decode_utf8(c.0), c.1),
        )[i] by {
            assert(crate::btree::child_is(csv[i], vs[i]));
        }
        assert(kid_views(out@) =~= vs.map_values(|c: ChildView| (decode_utf8(c.0), c.1)));
    }
    Ok(out)
}

/// Children of a group object.
fn group_kids(
    data: &[u8],
    sb: &Superblock,
    msgs: &[RawMsg],
    btree: Option<u64>,
    heap: Option<u64>,
) -> (res: Result<Vec<(String, u64)>>)
    ensures
        match spec_group_kids(data@, *sb, msg_views(msgs@), btree, heap) {
            Ok(k) => res matches Ok(v) && kid_views(v@) == k,
            Err(e) => res matches Err(e2) && e2 == e,
        },
{
    proof {
        reveal(spec_group_kids);
    }
    let ghost ms = msg_views(msgs@);
    if let Some(h) = find_msg(msgs, HDF5_MSG_LINK_INFO) {
        if parse_link_info_heap(msgs[h].body.as_slice(), sb.offset_size)?.is_some() {
            return Err(HDF5Error::DenseGroupsNotSupported);
        }
    }
    let mut kids: Vec<(String, u64)> = Vec::new();
    let mut i: usize = 0;
    assert(ms.take(0) =~= Seq::<MsgView>::empty());
    assert(kid_views(kids@) =~= Seq::<(Seq<char>, u64)>::empty());
    while i < msgs.len()
        invariant
            i <= msgs@.len(),
            ms == msg_views(msgs@),
            spec_links(ms.take(i as int), sb.offset_size) == Ok::<Seq<(Seq<char>, u64)>, HDF5Error>(
                kid_views(kids@),
            ),
            spec_group_kids(data@, *sb, ms, btree, heap) == (match spec_links(ms, sb.offset_size) {
                Err(e) => Err(e),
                Ok(links) => if links.len() > 0 {
                    Ok(links)
                } else {
                    match first_msg(ms, HDF5_MSG_SYMBOL_TABLE) {
                        Some(m) => match spec_parse_symbol_table(m.body, sb.offset_size) {
                            Err(e) => Err(e),
                            Ok((bt, hp)) => spec_table_kids(data@, sb.offset_size, sb.length_size, bt, hp),
                        },
                        None => match (btree, heap) {
                            (Some(bt), Some(hp)) => spec_table_kids(data@, sb.offset_size, sb.length_size, bt, hp),
                            _ => Ok(Seq::empty()),
                        },
                    }
                },
            }),
        decreases msgs@.len() - i,
    {
        proof {
            assert(ms.take(i + 1).drop_last() =~= ms.take(i as int));
            assert(ms.take(i + 1).last() == msgs@[i as int]@);
        }
        if msgs[i].ty == HDF5_MSG_LINK {
            let l = match parse_link(msgs[i].body.as_slice(), sb.offset_size) {
                Ok(l) => l,
                Err(e) => {
                    proof {
                        lemma_links_err_stable(ms, sb.offset_size, i + 1);
                    }
                    return Err(e);
                },
            };
            let ghost before = kids@;
            let ghost nv = l.name@;
            let ghost ov = l.ohdr;
            kids.push((l.name, l.ohdr));
            proof {
                assert(kid_views(kids@) =~= kid_views(before).push((nv, ov)));
            }
        }
        i = i + 1;
    }
    proof {
        assert(ms.take(msgs@.len() as int) =~= ms);
    }
    if kids.len() == 0 {
        if let Some(m) = find_msg(msgs, HDF5_MSG_SYMBOL_TABLE) {
            let (bt, hp) = parse_symbol_table(msgs[m].body.as_slice(), sb.offset_size)?;
            return table_kids(data, sb, bt, hp);
        } else if let (Some(bt), Some(hp)) = (btree, heap) {
            return table_kids(data, sb, bt, hp);
        }
    }
    Ok(kids)
}

/// Once the links of a prefix fail, those of the whole list fail the same way.
proof fn lemma_links_err_stable(ms: Seq<MsgView>, osize: u8, k: int)
    requires
        0 <= k <= ms.len(),
        spec_links(ms.take(k), osize) is Err,
    ensures
        spec_links(ms, osize) == spec_links(ms.take(k), osize),
    decreases ms.len() - k,
{
    if k < ms.len() {
        assert(ms.take(k + 1).drop_last() =~= ms.take(k));
        lemma_links_err_stable(ms, osize, k + 1);
    } else {
        assert(ms.take(k) =~= ms);
    }
}

/// Path of child `name` under `path` (the root has the empty path).
pub open spec fn child_path(path: Seq<char>, name: Seq<char>) -> Seq<char> {
    if encode_utf8(path).len() == 0 {
        name
    } else {
        path + seq!['/'] + name
    }
}

/// Reading the object whose header is at `ohdr` into the graph under `path`:
/// a dataset is stored there; anything else is a group, created there, whose
/// children are read in turn one level deeper. Headers nested deeper than
/// `HDF5_MAX_WALK_DEPTH` are refused.
pub open spec fn spec_walk(
    d: Seq<u8>,
    sb: Superblock,
    ohdr: u64,
    path: Seq<char>,
    m: ModelView,
    depth: nat,
    btree: Option<u64>,
    heap: Option<u64>,
) -> core::result::Result<ModelView, ErrView>
    decreases HDF5_MAX_WALK_DEPTH + 1 - depth, 1nat, 0nat,
{
    if depth > HDF5_MAX_WALK_DEPTH {
        Err(ErrView::InvalidHeader)
    } else {
        match spec_parse_ohdr(d, ohdr, sb.offset_size, sb.length_size) {
            Err(e) => Err(e@),
            Ok(ms) => match spec_try_dataset(d, sb.offset_size, sb.length_size, ms) {
                Err(e) => Err(e@),
                Ok(Some(ds)) => if encode_utf8(path).len() > 0 {
                    spec_put_dataset(m, encode_utf8(path), ds)
                } else {
                    Ok(m)
                },
                Ok(None) => {
                    let m1 = if encode_utf8(path).len() > 0 {
                        spec_create_group(m, encode_utf8(path))
                    } else {
                        Ok(m)
                    };
                    match m1 {
                        Err(e) => Err(e),
                        Ok(m1) => match spec_group_kids(d, sb, ms, btree, heap) {
                            Err(e) => Err(e@),
                            Ok(kids) => spec_walk_kids(d, sb, kids, path, m1, depth),
                        },
                    }
                },
            },
        }
    }
}

/// Reading children `kids` of the group at `path`, in order.
pub open spec fn spec_walk_kids(
    d: Seq<u8>,
    sb: Superblock,
    kids: Seq<(Seq<char>, u64)>,
    path: Seq<char>,
    m: ModelView,
    depth: nat,
) -> core::result::Result<ModelView, ErrView>
    decreases HDF5_MAX_WALK_DEPTH + 1 - depth, 0nat, kids.len(),
{
    if kids.len() == 0 || depth > HDF5_MAX_WALK_DEPTH {
        Ok(m)
    } else {
        match spec_walk(d, sb, kids[0].1, child_path(path, kids[0].0), m, depth + 1, None, None) {
            Err(e) => Err(e),
            Ok(m2) => spec_walk_kids(d, sb, kids.drop_first(), path, m2, depth),
        }
    }
}

/// Read the object at `ohdr` into `model` under `path`.
#[verifier::rlimit(50)]
fn walk(
    data: &[u8],
    sb: &Superblock,
    ohdr: u64,
    path: &str,
    model: &mut FileModel,
    depth: usize,
    btree: Option<u64>,
    heap: Option<u64>,
) -> (res: Result<()>)
    requires
        old(model).wf(),
    ensures
        final(model).wf(),
        match spec_walk(data@, *sb, ohdr, path@, old(model)@, depth as nat, btree, heap) {
            Ok(m) => res is Ok && final(model)@ == m,
            Err(e) => res matches Err(e2) && e2@ == e,
        },
    decreases HDF5_MAX_WALK_DEPTH + 1 - depth,
{
    if depth > HDF5_MAX_WALK_DEPTH {
        return Err(HDF5Error::InvalidHeader);
    }
    let msgs = parse_ohdr(data, ohdr, sb.offset_size, sb.length_size)?;
    if let Some(ds) = try_dataset(data, sb, msgs.as_slice())? {
        if !path.is_empty() {
            model.put_dataset(path, ds)?;
        }
        return Ok(());
    }
    if !path.is_empty() {
        model.create_group(path)?;
    }
    let kids = group_kids(data, sb, msgs.as_slice(), btree, heap)?;
    let ghost kv = kid_views(kids@);
    let ghost m1 = model@;
    let mut i: usize = 0;
    assert(kv.skip(0) =~= kv);
    while i < kids.len()
        invariant
            i <= kids@.len(),
            kv == kid_views(kids@),
            depth <= HDF5_MAX_WALK_DEPTH,
            model.wf(),
            spec_walk(data@, *sb, ohdr, path@, old(model)@, depth as nat, btree, heap)
                == spec_walk_kids(data@, *sb, kv, path@, m1, depth as nat),
            spec_walk_kids(data@, *sb, kv, path@, m1, depth as nat) == spec_walk_kids(
                data@,
                *sb,
                kv.skip(i as int),
                path@,
                model@,
                depth as nat,
            ),
        decreases kids@.len() - i,
    {
        let ghost rest = kv.skip(i as int);
        let ghost m_before = model@;
        assert(rest[0] == (kids@[i as int].0@, kids@[i as int].1));
        assert(rest.drop_first() =~= kv.skip(i + 1));
        let name = &kids[i].0;
        let mut cp = String::from_str(path);
        if !path.is_empty() {
            cp.append("/");
            proof {
                reveal_strlit("/");
            }
        }
        cp.append(name.as_str());
        proof {
            assert(cp@ =~= child_path(path@, name@));
        }
        let r = walk(data, sb, kids[i].1, cp.as_str(), model, depth + 1, None, None);
        proof {
            assert(rest.len() > 0);
            assert(spec_walk_kids(data@, *sb, rest, path@, m_before, depth as nat) == match spec_walk(
                data@,
                *sb,
                rest[0].1,
                child_path(path@, rest[0].0),
                m_before,
                (depth + 1) as nat,
                None,
                None,
            ) {
                Err(e) => Err(e),
                Ok(m2) => spec_walk_kids(data@, *sb, rest.drop_first(), path@, m2, depth as nat),
            });
        }
        match r {
            Ok(()) => {},
            Err(e) => {
                return Err(e);
            },
        }
        i = i + 1;
    }
    assert(kv.skip(kids@.len() as int) =~= Seq::<(Seq<char>, u64)>::empty());
    Ok(())
}

/// The graph a file image holds: the superblock is found and the root
/// group read, recursively.
pub open spec fn spec_decode(d: Seq<u8>) -> core::result::Result<ModelView, ErrView> {
    match spec_parse_superblock(d) {
        Err(e) => Err(e@),
        Ok(sb) => spec_walk(d, sb, sb.root_ohdr, Seq::empty(), empty_model(), 0, sb.root_btree, sb.root_heap),
    }
}

/// Parse a complete file image.
#[verifier::rlimit(50)]
pub fn decode(data: &[u8]) -> (res: Result<FileModel>)
    ensures
        match spec_decode(data@) {
            Ok(m) => res matches Ok(f) && f@ == m && f.wf(),
            Err(e) => res matches Err(e2) && e2@ == e,
        },
{
    let sb = parse(data)?;
    let mut model = FileModel::new();
    let root = "";
    proof {
        reveal_strlit("");
        assert(root@ =~= Seq::<char>::empty());
    }
    let r = walk(data, &sb, sb.root_ohdr, root, &mut model, 0, sb.root_btree, sb.root_heap);
    match r {
        Ok(()) => Ok(model),
        Err(e) => Err(e),
    }
}

} // verus!
