//! Object-header message bodies this crate writes and reads.
use vstd::prelude::*;

use crate::buf::{
    le16, le32, le_bytes, push_u16, push_u32, push_u64, rd_bytes, rd_le, size_ok, undef_addr, Reader,
};
use crate::consts::{
    HDF5_ATTR_VERSION, HDF5_CLASS_FLOAT, HDF5_CLASS_INTEGER, HDF5_CLASS_OPAQUE, HDF5_CLASS_STRING,
    HDF5_CLASS_VLEN, HDF5_DATASPACE_VERSION, HDF5_DTYPE_VERSION, HDF5_LAYOUT_CHUNKED, HDF5_LAYOUT_COMPACT,
    HDF5_FILL_VERSION, HDF5_LAYOUT_CONTIGUOUS, HDF5_LAYOUT_VERSION, HDF5_LINK_VERSION, HDF5_MAX_DIMS,
    HDF5_MAX_NAME_LEN, HDF5_OPAQUE_TAG, HDF5_SPACE_SCALAR, HDF5_SPACE_SIMPLE, HDF5_UNDEF_ADDR_8,
    HDF5_UNLIMITED,
};
use crate::error::{HDF5Error, Result};
use vstd::string::StringSliceAdditionalSpecFns;
use vstd::utf8::{decode_utf8, valid_utf8};

verus! {

/// In-memory datatype after parsing a datatype message.
#[derive(Clone, Copy, Debug, PartialEq, Eq, Structural)]
pub enum ParsedDType {
    /// IEEE binary64, little-endian.
    Float64Le,
    /// IEEE binary32, little-endian.
    Float32Le,
    /// Signed 8-bit integer.
    Int8Le,
    /// Signed 16-bit little-endian integer.
    Int16Le,
    /// Signed 32-bit little-endian integer.
    Int32Le,
    /// Signed 64-bit little-endian integer.
    Int64Le,
    /// Unsigned 8-bit integer.
    UInt8Le,
    /// Unsigned 16-bit little-endian integer.
    UInt16Le,
    /// Unsigned 32-bit little-endian integer.
    UInt32Le,
    /// Unsigned 64-bit little-endian integer.
    UInt64Le,
    /// Opaque records of `size` bytes.
    Opaque { size: usize },
    /// Fixed-length string of `size` bytes.
    FixedString { size: usize },
    /// Variable-length string (global heap).
    VlenString,
    /// Any other datatype, with its element size.
    Other { size: usize },
}

/// Element size in bytes of a parsed datatype (0 for variable-length strings).
pub open spec fn spec_element_size(d: ParsedDType) -> int {
    match d {
        ParsedDType::Float64Le => 8,
        ParsedDType::Float32Le => 4,
        ParsedDType::Int8Le => 1,
        ParsedDType::Int16Le => 2,
        ParsedDType::Int32Le => 4,
        ParsedDType::Int64Le => 8,
        ParsedDType::UInt8Le => 1,
        ParsedDType::UInt16Le => 2,
        ParsedDType::UInt32Le => 4,
        ParsedDType::UInt64Le => 8,
        ParsedDType::Opaque { size } => size as int,
        ParsedDType::FixedString { size } => size as int,
        ParsedDType::VlenString => 0,
        ParsedDType::Other { size } => size as int,
    }
}

impl ParsedDType {
    /// Element size in bytes (0 for variable-length strings).
    pub fn element_size(&self) -> (n: usize)
        ensures
            n == spec_element_size(*self),
    {
        match *self {
            Self::Float64Le => 8,
            Self::Float32Le => 4,
            Self::Int8Le => 1,
            Self::Int16Le => 2,
            Self::Int32Le => 4,
            Self::Int64Le => 8,
            Self::UInt8Le => 1,
            Self::UInt16Le => 2,
            Self::UInt32Le => 4,
            Self::UInt64Le => 8,
            Self::Opaque { size } => size,
            Self::FixedString { size } => size,
            Self::VlenString => 0,
            Self::Other { size } => size,
        }
    }
}

/// First byte of a version-1 datatype message of class `class`.
pub open spec fn dtype_head(class: u8) -> u8 {
    (HDF5_DTYPE_VERSION * 16 + class) as u8
}

/// Datatype message for IEEE binary64 little-endian.
pub open spec fn spec_ieee_f64le() -> Seq<u8> {
    seq![dtype_head(HDF5_CLASS_FLOAT), 0x20u8, 63u8, 0u8] + le_bytes(8, 4) + le_bytes(0, 2)
        + le_bytes(64, 2) + seq![52u8, 11u8, 0u8, 52u8] + le_bytes(1023, 4)
}

/// Datatype message for IEEE binary32 little-endian.
pub open spec fn spec_ieee_f32le() -> Seq<u8> {
    seq![dtype_head(HDF5_CLASS_FLOAT), 0x20u8, 31u8, 0u8] + le_bytes(4, 4) + le_bytes(0, 2)
        + le_bytes(32, 2) + seq![23u8, 8u8, 0u8, 23u8] + le_bytes(127, 4)
}

/// Datatype message for opaque records of `elem_size` bytes with this crate's tag.
pub open spec fn spec_opaque(elem_size: u32) -> Seq<u8> {
    seq![dtype_head(HDF5_CLASS_OPAQUE), 8u8, 0u8, 0u8] + le_bytes(elem_size as int, 4)
        + HDF5_OPAQUE_TAG@
}

/// Datatype message for a NUL-terminated fixed-length string of `nbytes`.
pub open spec fn spec_fixed_string(nbytes: u32) -> Seq<u8> {
    seq![dtype_head(HDF5_CLASS_STRING), 0u8, 0u8, 0u8] + le_bytes(nbytes as int, 4)
}

/// Datatype message for a little-endian integer of `size` bytes.
pub open spec fn spec_integer(size: u32, signed: bool) -> Seq<u8> {
    seq![dtype_head(HDF5_CLASS_INTEGER), if signed { 0x08u8 } else { 0u8 }, 0u8, 0u8]
        + le_bytes(size as int, 4) + le_bytes(0, 2) + le_bytes(size as int * 8, 2)
}

/// Datatype message for IEEE binary64 little-endian.
pub fn encode_ieee_f64le() -> (v: Vec<u8>)
    ensures
        v@ == spec_ieee_f64le(),
{
    let mut v = Vec::with_capacity(20);
    v.push(HDF5_DTYPE_VERSION * 16 + HDF5_CLASS_FLOAT);
    v.push(0x20);
    v.push(63);
    v.push(0);
    push_u32(&mut v, 8);
    push_u16(&mut v, 0);
    push_u16(&mut v, 64);
    v.push(52);
    v.push(11);
    v.push(0);
    v.push(52);
    push_u32(&mut v, 1023);
    assert(v@ =~= spec_ieee_f64le());
    v
}

/// Datatype message for IEEE binary32 little-endian.
pub fn encode_ieee_f32le() -> (v: Vec<u8>)
    ensures
        v@ == spec_ieee_f32le(),
{
    let mut v = Vec::with_capacity(20);
    v.push(HDF5_DTYPE_VERSION * 16 + HDF5_CLASS_FLOAT);
    v.push(0x20);
    v.push(31);
    v.push(0);
    push_u32(&mut v, 4);
    push_u16(&mut v, 0);
    push_u16(&mut v, 32);
    v.push(23);
    v.push(8);
    v.push(0);
    v.push(23);
    push_u32(&mut v, 127);
    assert(v@ =~= spec_ieee_f32le());
    v
}

/// Append all of `s` to `v`.
pub fn extend_bytes(v: &mut Vec<u8>, s: &[u8])
    ensures
        final(v)@ == old(v)@ + s@,
{
    let mut i: usize = 0;
    while i < s.len()
        invariant
            i <= s@.len(),
            v@ == old(v)@ + s@.subrange(0, i as int),
        decreases s@.len() - i,
    {
        v.push(s[i]);
        i = i + 1;
        assert(v@ =~= old(v)@ + s@.subrange(0, i as int));
    }
    assert(s@.subrange(0, i as int) =~= s@);
}

/// Datatype message for opaque records of `elem_size` bytes.
pub fn encode_opaque(elem_size: u32) -> (v: Vec<u8>)
    ensures
        v@ == spec_opaque(elem_size),
{
    let mut v = Vec::with_capacity(16);
    v.push(HDF5_DTYPE_VERSION * 16 + HDF5_CLASS_OPAQUE);
    v.push(8);
    v.push(0);
    v.push(0);
    push_u32(&mut v, elem_size);
    let tag = HDF5_OPAQUE_TAG;
    extend_bytes(&mut v, &tag);
    assert(v@ =~= spec_opaque(elem_size));
    v
}

/// Datatype message for a fixed-length string of `nbytes`.
pub fn encode_fixed_string(nbytes: u32) -> (v: Vec<u8>)
    ensures
        v@ == spec_fixed_string(nbytes),
{
    let mut v = Vec::with_capacity(8);
    v.push(HDF5_DTYPE_VERSION * 16 + HDF5_CLASS_STRING);
    v.push(0);
    v.push(0);
    v.push(0);
    push_u32(&mut v, nbytes);
    assert(v@ =~= spec_fixed_string(nbytes));
    v
}

/// Datatype message for a little-endian integer of `size` bytes (1, 2, 4 or 8).
pub fn encode_integer(size: u32, signed: bool) -> (v: Vec<u8>)
    requires
        size <= 8,
    ensures
        v@ == spec_integer(size, signed),
{
    let mut v = Vec::with_capacity(12);
    v.push(HDF5_DTYPE_VERSION * 16 + HDF5_CLASS_INTEGER);
    v.push(if signed { 0x08 } else { 0 });
    v.push(0);
    v.push(0);
    push_u32(&mut v, size);
    push_u16(&mut v, 0);
    push_u16(&mut v, (size * 8) as u16);
    assert(v@ =~= spec_integer(size, signed));
    v
}

/// The little-endian 8-byte encodings of `s`, concatenated.
pub open spec fn le8_concat(s: Seq<u64>) -> Seq<u8>
    decreases s.len(),
{
    if s.len() == 0 {
        Seq::empty()
    } else {
        le8_concat(s.drop_last()) + le_bytes(s.last() as int, 8)
    }
}

/// Maximum dimensions written for `dims`: the first is unlimited when asked.
pub open spec fn spec_max_dims(dims: Seq<u64>, unlimited_first: bool) -> Seq<u64> {
    if unlimited_first && dims.len() > 0 {
        dims.update(0, HDF5_UNLIMITED)
    } else {
        dims
    }
}

/// Dataspace message (version 2) for `dims`: scalar when empty, simple with
/// maximum dimensions otherwise.
pub open spec fn spec_dataspace(dims: Seq<u64>, unlimited_first: bool) -> Result<Seq<u8>> {
    if dims.len() > HDF5_MAX_DIMS {
        Err(HDF5Error::RankNotSupported)
    } else if dims.len() == 0 {
        Ok(seq![HDF5_DATASPACE_VERSION, 0u8, 0u8, HDF5_SPACE_SCALAR])
    } else {
        Ok(seq![HDF5_DATASPACE_VERSION, dims.len() as u8, 1u8, HDF5_SPACE_SIMPLE] + le8_concat(dims)
            + le8_concat(spec_max_dims(dims, unlimited_first)))
    }
}

/// Append the 8-byte encodings of `dims`, replacing the first by unlimited when asked.
fn push_dims(v: &mut Vec<u8>, dims: &[u64], unlimited_first: bool)
    ensures
        final(v)@ == old(v)@ + le8_concat(spec_max_dims(dims@, unlimited_first)),
{
    let ghost m = spec_max_dims(dims@, unlimited_first);
    let mut i: usize = 0;
    while i < dims.len()
        invariant
            i <= dims@.len(),
            m == spec_max_dims(dims@, unlimited_first),
            v@ == old(v)@ + le8_concat(m.subrange(0, i as int)),
        decreases dims@.len() - i,
    {
        let d = if unlimited_first && i == 0 { HDF5_UNLIMITED } else { dims[i] };
        push_u64(v, d);
        proof {
            assert(m.subrange(0, i + 1).drop_last() =~= m.subrange(0, i as int));
            assert(m[i as int] == d);
        }
        i = i + 1;
    }
    assert(m.subrange(0, i as int) =~= m);
}

/// Dataspace message for `dims`.
pub fn encode_dataspace(dims: &[u64], unlimited_first: bool) -> (res: Result<Vec<u8>>)
    ensures
        match spec_dataspace(dims@, unlimited_first) {
            Ok(s) => res matches Ok(v) && v@ == s,
            Err(e) => res == Err::<Vec<u8>, HDF5Error>(e),
        },
{
    if dims.len() > HDF5_MAX_DIMS {
        return Err(HDF5Error::RankNotSupported);
    }
    if dims.len() == 0 {
        let v = vec![HDF5_DATASPACE_VERSION, 0, 0, HDF5_SPACE_SCALAR];
        assert(v@ =~= seq![HDF5_DATASPACE_VERSION, 0u8, 0u8, HDF5_SPACE_SCALAR]);
        return Ok(v);
    }
    let mut v = Vec::new();
    v.push(HDF5_DATASPACE_VERSION);
    v.push(dims.len() as u8);
    v.push(1);
    v.push(HDF5_SPACE_SIMPLE);
    push_dims(&mut v, dims, false);
    push_dims(&mut v, dims, unlimited_first);
    proof {
        assert(spec_max_dims(dims@, false) == dims@);
    }
    assert(v@ =~= seq![HDF5_DATASPACE_VERSION, dims@.len() as u8, 1u8, HDF5_SPACE_SIMPLE]
        + le8_concat(dims@) + le8_concat(spec_max_dims(dims@, unlimited_first)));
    Ok(v)
}

/// Layout message (version 3) for contiguous storage at `addr` of `size` bytes.
pub open spec fn spec_layout_contiguous(addr: u64, size: u64) -> Seq<u8> {
    seq![HDF5_LAYOUT_VERSION, HDF5_LAYOUT_CONTIGUOUS] + le_bytes(addr as int, 8) + le_bytes(
        size as int,
        8,
    )
}

/// Layout message for contiguous storage.
pub fn encode_layout_contiguous(addr: u64, size: u64) -> (v: Vec<u8>)
    ensures
        v@ == spec_layout_contiguous(addr, size),
{
    let mut v = Vec::with_capacity(18);
    v.push(HDF5_LAYOUT_VERSION);
    v.push(HDF5_LAYOUT_CONTIGUOUS);
    push_u64(&mut v, addr);
    push_u64(&mut v, size);
    assert(v@ =~= spec_layout_contiguous(addr, size));
    v
}

/// Fill-value message: version 3, fill value undefined.
pub open spec fn spec_fill() -> Seq<u8> {
    seq![HDF5_FILL_VERSION, 0x02u8]
}

/// Fill-value message.
pub fn encode_fill() -> (v: Vec<u8>)
    ensures
        v@ == spec_fill(),
{
    let v = vec![HDF5_FILL_VERSION, 0x02];
    assert(v@ =~= spec_fill());
    v
}

/// Link-info message: no creation order, no fractal heap, no name index.
pub open spec fn spec_link_info() -> Seq<u8> {
    seq![0u8, 0u8] + le_bytes(HDF5_UNDEF_ADDR_8 as int, 8) + le_bytes(HDF5_UNDEF_ADDR_8 as int, 8)
}

/// Link-info message for a compact group.
pub fn encode_link_info() -> (v: Vec<u8>)
    ensures
        v@ == spec_link_info(),
{
    let mut v = Vec::with_capacity(18);
    v.push(0);
    v.push(0);
    push_u64(&mut v, HDF5_UNDEF_ADDR_8);
    push_u64(&mut v, HDF5_UNDEF_ADDR_8);
    assert(v@ =~= spec_link_info());
    v
}

/// Group-info message with default values.
pub open spec fn spec_group_info() -> Seq<u8> {
    seq![0u8, 0u8]
}

/// Group-info message.
pub fn encode_group_info() -> (v: Vec<u8>)
    ensures
        v@ == spec_group_info(),
{
    let v = vec![0, 0];
    assert(v@ =~= spec_group_info());
    v
}

/// Hard-link message naming `name` and pointing at object header `ohdr`; the
/// name length is stored in 1 byte below 256, in 2 bytes otherwise.
pub open spec fn spec_hard_link(name: Seq<u8>, ohdr: u64) -> Result<Seq<u8>> {
    let n = name.len();
    if n > HDF5_MAX_NAME_LEN {
        Err(HDF5Error::NameTooLong)
    } else if n < 256 {
        Ok(seq![HDF5_LINK_VERSION, 0u8, n as u8] + name + le_bytes(ohdr as int, 8))
    } else {
        Ok(seq![HDF5_LINK_VERSION, 1u8] + le_bytes(n as int, 2) + name + le_bytes(ohdr as int, 8))
    }
}

/// Hard-link message for the name bytes `name`.
pub fn encode_hard_link_bytes(name: &[u8], ohdr: u64) -> (res: Result<Vec<u8>>)
    ensures
        match spec_hard_link(name@, ohdr) {
            Ok(s) => res matches Ok(v) && v@ == s,
            Err(e) => res == Err::<Vec<u8>, HDF5Error>(e),
        },
{
    if name.len() > HDF5_MAX_NAME_LEN {
        return Err(HDF5Error::NameTooLong);
    }
    let n = name.len();
    let mut v = Vec::new();
    v.push(HDF5_LINK_VERSION);
    if n < 256 {
        v.push(0);
        v.push(n as u8);
    } else {
        v.push(1);
        push_u16(&mut v, n as u16);
    }
    extend_bytes(&mut v, name);
    push_u64(&mut v, ohdr);
    proof {
        if n < 256 {
            assert(v@ =~= seq![HDF5_LINK_VERSION, 0u8, n as u8] + name@ + le_bytes(ohdr as int, 8));
        } else {
            assert(v@ =~= seq![HDF5_LINK_VERSION, 1u8] + le_bytes(n as int, 2) + name@ + le_bytes(
                ohdr as int,
                8,
            ));
        }
    }
    Ok(v)
}

/// Hard-link message for `name` (its UTF-8 bytes) pointing at `ohdr`.
pub fn encode_hard_link(name: &str, ohdr: u64) -> (res: Result<Vec<u8>>)
    ensures
        match spec_hard_link(name.spec_bytes(), ohdr) {
            Ok(s) => res matches Ok(v) && v@ == s,
            Err(e) => res == Err::<Vec<u8>, HDF5Error>(e),
        },
{
    encode_hard_link_bytes(name.as_bytes(), ohdr)
}

/// Attribute message (version 2) holding `value` as a NUL-terminated fixed
/// string in a scalar dataspace.
pub open spec fn spec_string_attr(name: Seq<u8>, value: Seq<u8>) -> Result<Seq<u8>> {
    if name.len() > HDF5_MAX_NAME_LEN || value.len() > HDF5_MAX_NAME_LEN {
        Err(HDF5Error::NameTooLong)
    } else {
        let dtype = spec_fixed_string((value.len() + 1) as u32);
        let space = seq![HDF5_DATASPACE_VERSION, 0u8, 0u8, HDF5_SPACE_SCALAR];
        Ok(seq![HDF5_ATTR_VERSION, 0u8] + le_bytes(((name.len() + 1) as u16) as int, 2) + le_bytes(dtype.len() as int, 2)
            + le_bytes(space.len() as int, 2) + name + seq![0u8] + dtype + space + value + seq![0u8])
    }
}

/// Attribute message for the name and value bytes.
pub fn encode_string_attr_bytes(name: &[u8], value: &[u8]) -> (res: Result<Vec<u8>>)
    ensures
        match spec_string_attr(name@, value@) {
            Ok(s) => res matches Ok(v) && v@ == s,
            Err(e) => res == Err::<Vec<u8>, HDF5Error>(e),
        },
{
    if name.len() > HDF5_MAX_NAME_LEN || value.len() > HDF5_MAX_NAME_LEN {
        return Err(HDF5Error::NameTooLong);
    }
    let name_z = name.len() + 1;
    let val_bytes = value.len() + 1;
    let dtype = encode_fixed_string(val_bytes as u32);
    let empty: [u64; 0] = [];
    let space = encode_dataspace(&empty, false)?;
    proof {
        assert(empty@ =~= Seq::<u64>::empty());
    }
    let mut v = Vec::new();
    v.push(HDF5_ATTR_VERSION);
    v.push(0);
    push_u16(&mut v, name_z as u16);
    push_u16(&mut v, dtype.len() as u16);
    push_u16(&mut v, space.len() as u16);
    extend_bytes(&mut v, name);
    v.push(0);
    extend_bytes(&mut v, dtype.as_slice());
    extend_bytes(&mut v, space.as_slice());
    extend_bytes(&mut v, value);
    v.push(0);
    proof {
        let dt = spec_fixed_string((value@.len() + 1) as u32);
        let sp = seq![HDF5_DATASPACE_VERSION, 0u8, 0u8, HDF5_SPACE_SCALAR];
        assert(v@ =~= seq![HDF5_ATTR_VERSION, 0u8] + le_bytes(((name@.len() + 1) as u16) as int, 2) + le_bytes(
            dt.len() as int,
            2,
        ) + le_bytes(sp.len() as int, 2) + name@ + seq![0u8] + dt + sp + value@ + seq![0u8]);
    }
    Ok(v)
}

/// Attribute message for string attribute `name` = `value`.
pub fn encode_string_attr(name: &str, value: &str) -> (res: Result<Vec<u8>>)
    ensures
        match spec_string_attr(name.spec_bytes(), value.spec_bytes()) {
            Ok(s) => res matches Ok(v) && v@ == s,
            Err(e) => res == Err::<Vec<u8>, HDF5Error>(e),
        },
{
    encode_string_attr_bytes(name.as_bytes(), value.as_bytes())
}


/// Append the values of `s` to `v`.
pub fn extend_usizes(v: &mut Vec<usize>, s: &[usize])
    ensures
        final(v)@ == old(v)@ + s@,
{
    let mut i: usize = 0;
    while i < s.len()
        invariant
            i <= s@.len(),
            v@ == old(v)@ + s@.take(i as int),
        decreases s@.len() - i,
    {
        v.push(s[i]);
        i = i + 1;
        assert(v@ =~= old(v)@ + s@.take(i as int));
    }
    assert(s@.take(s@.len() as int) =~= s@);
}

/// Wraps `String::from_utf8`. Its documentation: the call succeeds exactly when
/// the bytes are valid UTF-8, and the string then holds the characters they
/// encode. Nothing else is claimed.
#[verifier::external_body]
pub(crate) fn utf8_string(bytes: Vec<u8>) -> (r: Option<String>)
    ensures
        r is Some <==> valid_utf8(bytes@),
        r matches Some(s) ==> s@ == decode_utf8(bytes@),
{
    String::from_utf8(bytes).ok()
}

/// Index of the first zero byte of `s` at or after `i`, or `s.len()`.
pub open spec fn first_zero(s: Seq<u8>, i: int) -> int
    decreases s.len() - i,
{
    if i < 0 || i >= s.len() {
        s.len() as int
    } else if s[i] == 0 {
        i
    } else {
        first_zero(s, i + 1)
    }
}

/// Bytes of `s` before its first zero byte.
pub open spec fn cstr_bytes(s: Seq<u8>) -> Seq<u8> {
    s.subrange(0, first_zero(s, 0))
}

/// Length of `s` up to (not including) its first zero byte.
pub fn cstr_len(s: &[u8]) -> (n: usize)
    ensures
        n == first_zero(s@, 0),
        n <= s@.len(),
{
    let mut i: usize = 0;
    while i < s.len() && s[i] != 0
        invariant
            i <= s@.len(),
            first_zero(s@, 0) == first_zero(s@, i as int),
        decreases s@.len() - i,
    {
        i = i + 1;
    }
    proof {
        lemma_first_zero_bound(s@, i as int);
    }
    i
}

/// `first_zero` stays within the sequence.
pub proof fn lemma_first_zero_bound(s: Seq<u8>, i: int)
    requires
        0 <= i <= s.len(),
    ensures
        i <= first_zero(s, i) <= s.len(),
    decreases s.len() - i,
{
    if i < s.len() && s[i] != 0 {
        lemma_first_zero_bound(s, i + 1);
    }
}

/// The characters of the bytes before the first zero, if they are valid UTF-8.
pub fn cstr_string(s: &[u8]) -> (r: Option<String>)
    ensures
        r is Some <==> valid_utf8(cstr_bytes(s@)),
        r matches Some(t) ==> t@ == decode_utf8(cstr_bytes(s@)),
{
    let n = cstr_len(s);
    let head = vstd::slice::slice_to_vec(&s[0..n]);
    utf8_string(head)
}

/// Datatype described by class, first bit field and size.
pub open spec fn dtype_of(class: u8, bit0: u8, size: usize) -> ParsedDType {
    if class == HDF5_CLASS_FLOAT {
        if bit0 & 0x41 != 0 {
            ParsedDType::Other { size }
        } else if size == 8 {
            ParsedDType::Float64Le
        } else if size == 4 {
            ParsedDType::Float32Le
        } else {
            ParsedDType::Other { size }
        }
    } else if class == HDF5_CLASS_INTEGER {
        if bit0 & 0x01 != 0 {
            ParsedDType::Other { size }
        } else if bit0 & 0x08 != 0 {
            if size == 1 {
                ParsedDType::Int8Le
            } else if size == 2 {
                ParsedDType::Int16Le
            } else if size == 4 {
                ParsedDType::Int32Le
            } else if size == 8 {
                ParsedDType::Int64Le
            } else {
                ParsedDType::Other { size }
            }
        } else if size == 1 {
            ParsedDType::UInt8Le
        } else if size == 2 {
            ParsedDType::UInt16Le
        } else if size == 4 {
            ParsedDType::UInt32Le
        } else if size == 8 {
            ParsedDType::UInt64Le
        } else {
            ParsedDType::Other { size }
        }
    } else if class == HDF5_CLASS_OPAQUE {
        ParsedDType::Opaque { size }
    } else if class == HDF5_CLASS_STRING {
        ParsedDType::FixedString { size }
    } else if class == HDF5_CLASS_VLEN {
        if bit0 & 0x0F == 1 {
            ParsedDType::VlenString
        } else {
            ParsedDType::Other { size }
        }
    } else {
        ParsedDType::Other { size }
    }
}

/// A datatype message: class in the low nibble of byte 0, bit field in byte 1,
/// element size in bytes 4..8.
pub open spec fn spec_parse_datatype(b: Seq<u8>) -> Result<ParsedDType> {
    if b.len() < 8 {
        Err(HDF5Error::InvalidHeader)
    } else {
        Ok(dtype_of(b[0] & 0x0F, b[1], le32(b[4], b[5], b[6], b[7]) as usize))
    }
}

/// Parse a datatype message body.
pub fn parse_datatype(body: &[u8]) -> (res: Result<ParsedDType>)
    ensures
        res == spec_parse_datatype(body@),
{
    if body.len() < 8 {
        return Err(HDF5Error::InvalidHeader);
    }
    let class = body[0] & 0x0F;
    let bit0 = body[1];
    let size = (body[4] as u32 + 256 * (body[5] as u32) + 65536 * (body[6] as u32 + 256 * (
    body[7] as u32))) as usize;
    let d = if class == HDF5_CLASS_FLOAT {
        if bit0 & 0x41 != 0 {
            ParsedDType::Other { size }
        } else if size == 8 {
            ParsedDType::Float64Le
        } else if size == 4 {
            ParsedDType::Float32Le
        } else {
            ParsedDType::Other { size }
        }
    } else if class == HDF5_CLASS_INTEGER {
        if bit0 & 0x01 != 0 {
            ParsedDType::Other { size }
        } else if bit0 & 0x08 != 0 {
            match size {
                1 => ParsedDType::Int8Le,
                2 => ParsedDType::Int16Le,
                4 => ParsedDType::Int32Le,
                8 => ParsedDType::Int64Le,
                _ => ParsedDType::Other { size },
            }
        } else {
            match size {
                1 => ParsedDType::UInt8Le,
                2 => ParsedDType::UInt16Le,
                4 => ParsedDType::UInt32Le,
                8 => ParsedDType::UInt64Le,
                _ => ParsedDType::Other { size },
            }
        }
    } else if class == HDF5_CLASS_OPAQUE {
        ParsedDType::Opaque { size }
    } else if class == HDF5_CLASS_STRING {
        ParsedDType::FixedString { size }
    } else if class == HDF5_CLASS_VLEN {
        if bit0 & 0x0F == 1 {
            ParsedDType::VlenString
        } else {
            ParsedDType::Other { size }
        }
    } else {
        ParsedDType::Other { size }
    };
    Ok(d)
}

/// Read `n` lengths of `lsize` bytes from `p`.
pub open spec fn rd_lengths(d: Seq<u8>, p: int, n: nat, lsize: u8) -> Result<(Seq<u64>, int)>
    decreases n,
{
    if n == 0 {
        Ok((Seq::empty(), p))
    } else {
        match rd_lengths(d, p, (n - 1) as nat, lsize) {
            Err(e) => Err(e),
            Ok((s, q)) => match rd_le(d, q, lsize as int) {
                Err(e) => Err(e),
                Ok((v, q2)) => Ok((s.push(v), q2)),
            },
        }
    }
}

/// Read `n` little-endian `u32` values from `p`.
pub open spec fn rd_u32s(d: Seq<u8>, p: int, n: nat) -> Result<(Seq<u32>, int)>
    decreases n,
{
    if n == 0 {
        Ok((Seq::empty(), p))
    } else {
        match rd_u32s(d, p, (n - 1) as nat) {
            Err(e) => Err(e),
            Ok((s, q)) => match rd_le(d, q, 4) {
                Err(e) => Err(e),
                Ok((v, q2)) => Ok((s.push(v as u32), q2)),
            },
        }
    }
}

/// Once reading lengths fails, reading more fails the same way.
pub proof fn lemma_rd_lengths_err_stable(d: Seq<u8>, p: int, k: nat, m: nat, lsize: u8)
    requires
        k <= m,
        rd_lengths(d, p, k, lsize) is Err,
    ensures
        rd_lengths(d, p, m, lsize) == rd_lengths(d, p, k, lsize),
    decreases m - k,
{
    if k < m {
        lemma_rd_lengths_err_stable(d, p, k, (m - 1) as nat, lsize);
    }
}

/// Once reading `u32` values fails, reading more fails the same way.
proof fn lemma_rd_u32s_err_stable(d: Seq<u8>, p: int, k: nat, m: nat)
    requires
        k <= m,
        rd_u32s(d, p, k) is Err,
    ensures
        rd_u32s(d, p, m) == rd_u32s(d, p, k),
    decreases m - k,
{
    if k < m {
        lemma_rd_u32s_err_stable(d, p, k, (m - 1) as nat);
    }
}

/// Read `n` lengths with the reader; `Ok` holds them in order.
fn read_lengths(r: &mut Reader, n: usize) -> (res: Result<Vec<u64>>)
    requires
        old(r)@.inv(),
    ensures
        final(r)@.inv(),
        match rd_lengths(old(r)@.data, old(r)@.pos, n as nat, old(r)@.length_size) {
            Ok((s, p)) => res matches Ok(v) && v@ == s && old(r)@.moved(final(r)@, p),
            Err(e) => res == Err::<Vec<u64>, HDF5Error>(e),
        },
{
    let ghost r0 = r@;
    let mut out: Vec<u64> = Vec::new();
    let mut i: usize = 0;
    while i < n
        invariant
            i <= n,
            r@.inv(),
            rd_lengths(r0.data, r0.pos, i as nat, r0.length_size) == Ok::<(Seq<u64>, int), HDF5Error>(
                (out@, r@.pos),
            ),
            r0.moved(r@, r@.pos),
            r0 == old(r)@,
        decreases n - i,
    {
        let v = match r.length() {
            Ok(v) => v,
            Err(e) => {
                proof {
                    assert(rd_lengths(r0.data, r0.pos, (i + 1) as nat, r0.length_size) == Err::<
                        (Seq<u64>, int),
                        HDF5Error,
                    >(e));
                    lemma_rd_lengths_err_stable(r0.data, r0.pos, (i + 1) as nat, n as nat, r0.length_size);
                }
                return Err(e);
            },
        };
        out.push(v);
        i = i + 1;
    }
    Ok(out)
}

/// Read `n` little-endian `u32` values with the reader.
fn read_u32s(r: &mut Reader, n: usize) -> (res: Result<Vec<u32>>)
    requires
        old(r)@.inv(),
    ensures
        final(r)@.inv(),
        match rd_u32s(old(r)@.data, old(r)@.pos, n as nat) {
            Ok((s, p)) => res matches Ok(v) && v@ == s && old(r)@.moved(final(r)@, p),
            Err(e) => res == Err::<Vec<u32>, HDF5Error>(e),
        },
{
    let ghost r0 = r@;
    let mut out: Vec<u32> = Vec::new();
    let mut i: usize = 0;
    while i < n
        invariant
            i <= n,
            r@.inv(),
            rd_u32s(r0.data, r0.pos, i as nat) == Ok::<(Seq<u32>, int), HDF5Error>((out@, r@.pos)),
            r0.moved(r@, r@.pos),
            r0 == old(r)@,
        decreases n - i,
    {
        let v = match r.u32() {
            Ok(v) => v,
            Err(e) => {
                proof {
                    assert(rd_u32s(r0.data, r0.pos, (i + 1) as nat) == Err::<(Seq<u32>, int), HDF5Error>(e));
                    lemma_rd_u32s_err_stable(r0.data, r0.pos, (i + 1) as nat, n as nat);
                }
                return Err(e);
            },
        };
        out.push(v);
        i = i + 1;
    }
    Ok(out)
}

/// Parsed dataspace: the current dimensions.
pub struct ParsedSpace {
    /// Current extent of each dimension.
    pub dims: Vec<u64>,
}

/// Dataspace message: version 1 (8-byte prefix) or 2 (4-byte prefix), rank in
/// byte 1, flags in byte 2; the dimensions follow, then maximum dimensions when
/// flag bit 0 is set, then (version 1) permutation indices when flag bit 1 is set.
pub open spec fn spec_parse_dataspace(b: Seq<u8>, lsize: u8) -> Result<Seq<u64>> {
    if b.len() < 4 {
        Err(HDF5Error::InvalidHeader)
    } else if b[1] as int > HDF5_MAX_DIMS {
        Err(HDF5Error::RankNotSupported)
    } else if !size_ok(lsize) {
        Err(HDF5Error::UnsupportedVersion(lsize))
    } else if b[0] != 1 && b[0] != 2 {
        Err(HDF5Error::UnsupportedVersion(b[0]))
    } else {
        let version = b[0];
        let n = b[1] as nat;
        let flags = b[2];
        match rd_bytes(b, 0, if version == 1 { 8 } else { 4 }) {
            Err(e) => Err(e),
            Ok((_, p)) => match rd_lengths(b, p, n, lsize) {
                Err(e) => Err(e),
                Ok((dims, p2)) => {
                    let r2 = if flags & 1 != 0 {
                        rd_lengths(b, p2, n, lsize)
                    } else {
                        Ok((Seq::empty(), p2))
                    };
                    match r2 {
                        Err(e) => Err(e),
                        Ok((_, p3)) => {
                            if version == 1 && flags & 2 != 0 {
                                match rd_lengths(b, p3, n, lsize) {
                                    Err(e) => Err(e),
                                    Ok(_) => Ok(dims),
                                }
                            } else {
                                Ok(dims)
                            }
                        },
                    }
                },
            },
        }
    }
}

/// Parse a dataspace message body.
pub fn parse_dataspace(body: &[u8], length_size: u8) -> (res: Result<ParsedSpace>)
    ensures
        match spec_parse_dataspace(body@, length_size) {
            Ok(d) => res matches Ok(s) && s.dims@ == d,
            Err(e) => res matches Err(e2) && e2 == e,
        },
{
    if body.len() < 4 {
        return Err(HDF5Error::InvalidHeader);
    }
    let version = body[0];
    let ndims = body[1] as usize;
    if ndims > HDF5_MAX_DIMS {
        return Err(HDF5Error::RankNotSupported);
    }
    let flags = body[2];
    let mut r = Reader::new(body, 8, length_size)?;
    match version {
        1 => {
            r.skip(8)?;
        },
        2 => {
            r.skip(4)?;
        },
        _ => return Err(HDF5Error::UnsupportedVersion(version)),
    }
    let dims = read_lengths(&mut r, ndims)?;
    if flags & 1 != 0 {
        let _ = read_lengths(&mut r, ndims)?;
    }
    if version == 1 && flags & 2 != 0 {
        let _ = read_lengths(&mut r, ndims)?;
    }
    Ok(ParsedSpace { dims })
}

/// Parsed storage layout.
pub enum ParsedLayout {
    /// Contiguous raw data at `addr`; `size` 0 means "compute from the shape".
    Contiguous { addr: u64, size: u64 },
    /// Raw data stored in the message itself.
    Compact { data: Vec<u8> },
    /// Chunked storage indexed by a version-1 B-tree at `addr`.
    Chunked { addr: u64, chunk_dims: Vec<u32> },
}

/// Abstract form of [`ParsedLayout`].
pub enum LayoutView {
    /// Contiguous raw data.
    Contiguous { addr: u64, size: u64 },
    /// Raw data in the message.
    Compact { data: Seq<u8> },
    /// Chunked storage.
    Chunked { addr: u64, chunk_dims: Seq<u32> },
}

impl View for ParsedLayout {
    type V = LayoutView;

    open spec fn view(&self) -> LayoutView {
        match self {
            ParsedLayout::Contiguous { addr, size } => LayoutView::Contiguous {
                addr: *addr,
                size: *size,
            },
            ParsedLayout::Compact { data } => LayoutView::Compact { data: data@ },
            ParsedLayout::Chunked { addr, chunk_dims } => LayoutView::Chunked {
                addr: *addr,
                chunk_dims: chunk_dims@,
            },
        }
    }
}

/// Layout message. Versions 1 and 2: rank, class and 5 reserved bytes, then the
/// data address (chunked: followed by `rank` chunk dimensions; compact: a
/// 4-byte size and the data). Versions 3 and 4: class, then per class the
/// address and size (contiguous), a 2-byte size and the data (compact), or
/// (version 3) rank, B-tree address and chunk dimensions; version 4 chunk
/// indexes are reported with no chunk dimensions.
pub open spec fn spec_parse_layout(b: Seq<u8>, osize: u8, lsize: u8) -> Result<LayoutView> {
    if b.len() == 0 {
        Err(HDF5Error::InvalidHeader)
    } else if !size_ok(osize) {
        Err(HDF5Error::UnsupportedVersion(osize))
    } else if !size_ok(lsize) {
        Err(HDF5Error::UnsupportedVersion(lsize))
    } else {
        let version = b[0];
        if version == 1 || version == 2 {
            match rd_bytes(b, 1, 2) {
                Err(e) => Err(e),
                Ok((nc, p)) => {
                    let ndims = nc[0];
                    let class = nc[1];
                    match rd_bytes(b, p, 5) {
                        Err(e) => Err(e),
                        Ok((_, p)) => {
                            if class == HDF5_LAYOUT_CHUNKED {
                                match rd_le(b, p, osize as int) {
                                    Err(e) => Err(e),
                                    Ok((addr, p)) => match rd_u32s(b, p, ndims as nat) {
                                        Err(e) => Err(e),
                                        Ok((dims, _)) => Ok(LayoutView::Chunked { addr, chunk_dims: dims }),
                                    },
                                }
                            } else if class == HDF5_LAYOUT_CONTIGUOUS {
                                match rd_le(b, p, osize as int) {
                                    Err(e) => Err(e),
                                    Ok((addr, _)) => Ok(LayoutView::Contiguous { addr, size: 0 }),
                                }
                            } else if class == HDF5_LAYOUT_COMPACT {
                                match rd_le(b, p, 4) {
                                    Err(e) => Err(e),
                                    Ok((sz, p)) => match rd_bytes(b, p, sz as int) {
                                        Err(e) => Err(e),
                                        Ok((data, _)) => Ok(LayoutView::Compact { data }),
                                    },
                                }
                            } else {
                                Err(HDF5Error::InvalidHeader)
                            }
                        },
                    }
                },
            }
        } else if version == 3 || version == 4 {
            match rd_le(b, 1, 1) {
                Err(e) => Err(e),
                Ok((class, p)) => {
                    if class == HDF5_LAYOUT_CHUNKED as u64 {
                        if version == 4 {
                            Ok(LayoutView::Chunked { addr: undef_addr(osize), chunk_dims: Seq::empty() })
                        } else {
                            match rd_le(b, p, 1) {
                                Err(e) => Err(e),
                                Ok((ndims, p)) => match rd_le(b, p, osize as int) {
                                    Err(e) => Err(e),
                                    Ok((addr, p)) => match rd_u32s(b, p, ndims as nat) {
                                        Err(e) => Err(e),
                                        Ok((dims, _)) => Ok(LayoutView::Chunked { addr, chunk_dims: dims }),
                                    },
                                },
                            }
                        }
                    } else if class == HDF5_LAYOUT_CONTIGUOUS as u64 {
                        match rd_le(b, p, osize as int) {
                            Err(e) => Err(e),
                            Ok((addr, p)) => match rd_le(b, p, lsize as int) {
                                Err(e) => Err(e),
                                Ok((size, _)) => Ok(LayoutView::Contiguous { addr, size }),
                            },
                        }
                    } else if class == HDF5_LAYOUT_COMPACT as u64 {
                        match rd_le(b, p, 2) {
                            Err(e) => Err(e),
                            Ok((sz, p)) => match rd_bytes(b, p, sz as int) {
                                Err(e) => Err(e),
                                Ok((data, _)) => Ok(LayoutView::Compact { data }),
                            },
                        }
                    } else {
                        Err(HDF5Error::InvalidHeader)
                    }
                },
            }
        } else {
            Err(HDF5Error::UnsupportedVersion(version))
        }
    }
}

/// Parse a layout message body.
pub fn parse_layout(body: &[u8], offset_size: u8, length_size: u8) -> (res: Result<ParsedLayout>)
    ensures
        match spec_parse_layout(body@, offset_size, length_size) {
            Ok(l) => res matches Ok(x) && x@ == l,
            Err(e) => res matches Err(e2) && e2 == e,
        },
{
    if body.len() == 0 {
        return Err(HDF5Error::InvalidHeader);
    }
    let version = body[0];
    let mut r = Reader::new(body, offset_size, length_size)?;
    r.u8()?;
    match version {
        1 | 2 => {
            let ndims = r.u8()?;
            let class = r.u8()?;
            proof {
                assert(body@.subrange(1, 3)[0] == ndims);
                assert(body@.subrange(1, 3)[1] == class);
            }
            r.skip(5)?;
            if class == HDF5_LAYOUT_CHUNKED {
                let addr = r.addr()?;
                let chunk_dims = read_u32s(&mut r, ndims as usize)?;
                Ok(ParsedLayout::Chunked { addr, chunk_dims })
            } else if class == HDF5_LAYOUT_CONTIGUOUS {
                let addr = r.addr()?;
                Ok(ParsedLayout::Contiguous { addr, size: 0 })
            } else if class == HDF5_LAYOUT_COMPACT {
                let sz = r.u32()? as usize;
                let data = vstd::slice::slice_to_vec(r.bytes(sz)?);
                Ok(ParsedLayout::Compact { data })
            } else {
                Err(HDF5Error::InvalidHeader)
            }
        },
        3 | 4 => {
            let class = r.u8()?;
            if class == HDF5_LAYOUT_CHUNKED {
                if version == 4 {
                    let addr = if offset_size == 4 { 0xFFFF_FFFFu64 } else { HDF5_UNDEF_ADDR_8 };
                    return Ok(ParsedLayout::Chunked { addr, chunk_dims: Vec::new() });
                }
                let ndims = r.u8()?;
                let addr = r.addr()?;
                let chunk_dims = read_u32s(&mut r, ndims as usize)?;
                Ok(ParsedLayout::Chunked { addr, chunk_dims })
            } else if class == HDF5_LAYOUT_CONTIGUOUS {
                let addr = r.addr()?;
                let size = r.length()?;
                Ok(ParsedLayout::Contiguous { addr, size })
            } else if class == HDF5_LAYOUT_COMPACT {
                let sz = r.u16()? as usize;
                let data = vstd::slice::slice_to_vec(r.bytes(sz)?);
                Ok(ParsedLayout::Compact { data })
            } else {
                Err(HDF5Error::InvalidHeader)
            }
        },
        v => Err(HDF5Error::UnsupportedVersion(v)),
    }
}


/// A parsed link message: link name and target object header.
pub struct ParsedLink {
    /// Link name.
    pub name: String,
    /// Address of the target object header.
    pub ohdr: u64,
}

/// Width in bytes of the link-name length field selected by the link flags.
pub open spec fn link_name_width(flags: u8) -> u8 {
    let f = flags & 3;
    if f == 0 {
        1
    } else if f == 1 {
        2
    } else if f == 2 {
        4
    } else {
        8
    }
}

/// Read a field of `n` bytes at `p` when `present`, else stay at `p`.
pub open spec fn rd_opt(d: Seq<u8>, p: int, present: bool, n: int) -> Result<(u64, int)> {
    if present {
        rd_le(d, p, n)
    } else {
        Ok((0, p))
    }
}

/// Read an `n`-byte field when `present`.
fn read_opt(r: &mut Reader, present: bool, n: u8) -> (res: Result<u64>)
    requires
        old(r)@.inv(),
        n == 1 || n == 8,
    ensures
        final(r)@.inv(),
        match rd_opt(old(r)@.data, old(r)@.pos, present, n as int) {
            Ok((v, p)) => res == Ok::<u64, HDF5Error>(v) && old(r)@.moved(final(r)@, p),
            Err(e) => res == Err::<u64, HDF5Error>(e),
        },
{
    if present {
        r.sized_uint(n)
    } else {
        Ok(0)
    }
}

/// Width of the link-name length field.
fn name_width(flags: u8) -> (w: u8)
    ensures
        w == link_name_width(flags),
        w == 1 || w == 2 || w == 4 || w == 8,
{
    let f = flags & 0x03;
    if f == 0 {
        1
    } else if f == 1 {
        2
    } else if f == 2 {
        4
    } else {
        8
    }
}

/// Link message (version 0 or 1): flags select an optional link type, creation
/// order and name character set; then the name length (1, 2, 4 or 8 bytes per
/// flags), the UTF-8 name and the target address. Result: name bytes and address.
/// Only hard links (link type 0, the default) name an object header: a soft
/// or external link is `InvalidHeader`, never an address.
pub open spec fn spec_parse_link(b: Seq<u8>, osize: u8) -> Result<(Seq<u8>, u64)> {
    if !size_ok(osize) {
        Err(HDF5Error::UnsupportedVersion(osize))
    } else {
        match rd_le(b, 0, 1) {
            Err(e) => Err(e),
            Ok((ver, p)) => if ver != 0 && ver != 1 {
                Err(HDF5Error::UnsupportedVersion(ver as u8))
            } else {
                match rd_le(b, p, 1) {
                    Err(e) => Err(e),
                    Ok((fl, p)) => {
                        let flags = fl as u8;
                        match rd_opt(b, p, flags & 0x08 != 0, 1) {
                            Err(e) => Err(e),
                            Ok((lt, p)) => if lt != 0 {
                                Err(HDF5Error::InvalidHeader)
                            } else {
                            match rd_opt(b, p, flags & 0x04 != 0, 8) {
                                Err(e) => Err(e),
                                Ok((_, p)) => match rd_opt(b, p, flags & 0x10 != 0, 1) {
                                    Err(e) => Err(e),
                                    Ok((_, p)) => match rd_le(b, p, link_name_width(flags) as int) {
                                        Err(e) => Err(e),
                                        Ok((nlen, p)) => if nlen > HDF5_MAX_NAME_LEN {
                                            Err(HDF5Error::NameTooLong)
                                        } else {
                                            match rd_bytes(b, p, nlen as int) {
                                                Err(e) => Err(e),
                                                Ok((nb, p)) => if !valid_utf8(nb) {
                                                    Err(HDF5Error::InvalidHeader)
                                                } else {
                                                    match rd_le(b, p, osize as int) {
                                                        Err(e) => Err(e),
                                                        Ok((ohdr, _)) => Ok((nb, ohdr)),
                                                    }
                                                },
                                            }
                                        },
                                    },
                                },
                            }
                            },
                        }
                    },
                }
            },
        }
    }
}

/// Parse a link message body.
pub fn parse_link(body: &[u8], offset_size: u8) -> (res: Result<ParsedLink>)
    ensures
        match spec_parse_link(body@, offset_size) {
            Ok((nb, ohdr)) => res matches Ok(l) && l.name@ == decode_utf8(nb) && l.ohdr == ohdr,
            Err(e) => res matches Err(e2) && e2 == e,
        },
{
    let mut r = Reader::new(body, offset_size, 8)?;
    let version = r.u8()?;
    if version != 0 && version != 1 {
        return Err(HDF5Error::UnsupportedVersion(version));
    }
    let flags = r.u8()?;
    let link_type = read_opt(&mut r, flags & 0x08 != 0, 1)?;
    if link_type != 0 {
        return Err(HDF5Error::InvalidHeader);
    }
    read_opt(&mut r, flags & 0x04 != 0, 8)?;
    read_opt(&mut r, flags & 0x10 != 0, 1)?;
    let nlen = r.sized_uint(name_width(flags))?;
    if nlen > HDF5_MAX_NAME_LEN as u64 {
        return Err(HDF5Error::NameTooLong);
    }
    let nb = r.bytes(nlen as usize)?;
    let name = match utf8_string(vstd::slice::slice_to_vec(nb)) {
        Some(s) => s,
        None => return Err(HDF5Error::InvalidHeader),
    };
    let ohdr = r.addr()?;
    Ok(ParsedLink { name, ohdr })
}

/// A parsed attribute message.
pub struct ParsedAttr {
    /// Attribute name.
    pub name: String,
    /// Attribute datatype.
    pub dtype: ParsedDType,
    /// Raw attribute data (everything after the dataspace).
    pub data: Vec<u8>,
}

/// Padding after a version-1 attribute field of `n` bytes (to a multiple of 8).
pub open spec fn pad8(n: int) -> int {
    (8 - n % 8) % 8
}

/// Attribute message, versions 1 to 3: sizes of name, datatype and dataspace;
/// (version 3) a character-set byte; the NUL-terminated name, the datatype and
/// the dataspace (each padded to 8 bytes in version 1); then the data. Shared
/// (flag bit 0) datatypes are rejected. Result: name bytes, datatype, data.
pub open spec fn spec_parse_attribute(b: Seq<u8>, osize: u8, lsize: u8) -> Result<
    (Seq<u8>, ParsedDType, Seq<u8>),
> {
    if b.len() < 8 {
        Err(HDF5Error::InvalidHeader)
    } else if !size_ok(osize) {
        Err(HDF5Error::UnsupportedVersion(osize))
    } else if !size_ok(lsize) {
        Err(HDF5Error::UnsupportedVersion(lsize))
    } else if b[0] != 1 && b[0] != 2 && b[0] != 3 {
        Err(HDF5Error::UnsupportedVersion(b[0]))
    } else {
        let version = b[0];
        let flags: u8 = if version == 1 { 0 } else { b[1] };
        let name_size = le16(b[2], b[3]);
        let dtype_size = le16(b[4], b[5]);
        let space_size = le16(b[6], b[7]);
        match rd_opt(b, 8, version == 3, 1) {
            Err(e) => Err(e),
            Ok((_, p)) => match rd_bytes(b, p, name_size) {
                Err(e) => Err(e),
                Ok((name_raw, p)) => {
                    let name = cstr_bytes(name_raw);
                    if !valid_utf8(name) {
                        Err(HDF5Error::InvalidHeader)
                    } else {
                        match rd_bytes(b, p, if version == 1 { pad8(name_size) } else { 0 }) {
                            Err(e) => Err(e),
                            Ok((_, p)) => if flags & 1 != 0 {
                                Err(HDF5Error::InvalidHeader)
                            } else {
                                match rd_bytes(b, p, dtype_size) {
                                    Err(e) => Err(e),
                                    Ok((dt, p)) => match rd_bytes(
                                        b,
                                        p,
                                        if version == 1 { pad8(dtype_size) } else { 0 },
                                    ) {
                                        Err(e) => Err(e),
                                        Ok((_, p)) => match spec_parse_datatype(dt) {
                                            Err(e) => Err(e),
                                            Ok(dtype) => match rd_bytes(b, p, space_size) {
                                                Err(e) => Err(e),
                                                Ok((_, p)) => match rd_bytes(
                                                    b,
                                                    p,
                                                    if version == 1 { pad8(space_size) } else { 0 },
                                                ) {
                                                    Err(e) => Err(e),
                                                    Ok((_, p)) => Ok(
                                                        (name, dtype, b.subrange(p, b.len() as int)),
                                                    ),
                                                },
                                            },
                                        },
                                    },
                                }
                            },
                        }
                    }
                },
            },
        }
    }
}

/// Parse an attribute message body.
pub fn parse_attribute(body: &[u8], offset_size: u8, length_size: u8) -> (res: Result<ParsedAttr>)
    ensures
        match spec_parse_attribute(body@, offset_size, length_size) {
            Ok((nb, dtype, data)) => res matches Ok(a) && a.name@ == decode_utf8(nb) && a.dtype
                == dtype && a.data@ == data,
            Err(e) => res matches Err(e2) && e2 == e,
        },
{
    if body.len() < 8 {
        return Err(HDF5Error::InvalidHeader);
    }
    let version = body[0];
    let mut r = Reader::new(body, offset_size, length_size)?;
    r.u8()?;
    let mut flags = 0u8;
    match version {
        1 => {
            r.u8()?;
        },
        2 | 3 => {
            flags = r.u8()?;
        },
        v => return Err(HDF5Error::UnsupportedVersion(v)),
    }
    let name_size = r.u16()? as usize;
    let dtype_size = r.u16()? as usize;
    let space_size = r.u16()? as usize;
    if version == 3 {
        let _cs = r.u8()?;
    }
    let name_raw = r.bytes(name_size)?;
    let name = match cstr_string(name_raw) {
        Some(s) => s,
        None => return Err(HDF5Error::InvalidHeader),
    };
    if version == 1 {
        let pad = (8 - (name_size % 8)) % 8;
        r.skip(pad)?;
    } else {
        r.skip(0)?;
    }
    if flags & 1 != 0 {
        return Err(HDF5Error::InvalidHeader);
    }
    let dtype_bytes = r.bytes(dtype_size)?;
    if version == 1 {
        let pad = (8 - (dtype_size % 8)) % 8;
        r.skip(pad)?;
    } else {
        r.skip(0)?;
    }
    let dtype = parse_datatype(dtype_bytes)?;
    r.skip(space_size)?;
    if version == 1 {
        let pad = (8 - (space_size % 8)) % 8;
        r.skip(pad)?;
    } else {
        r.skip(0)?;
    }
    let rest = r.remaining();
    let data = vstd::slice::slice_to_vec(r.bytes(rest)?);
    Ok(ParsedAttr { name, dtype, data })
}

/// Link-info message: when its fractal-heap address is defined the group is
/// dense, and that address is returned. Bodies shorter than 2 bytes carry none.
pub open spec fn spec_parse_link_info_heap(b: Seq<u8>, osize: u8) -> Result<Option<u64>> {
    if b.len() < 2 {
        Ok(None)
    } else if !size_ok(osize) {
        Err(HDF5Error::UnsupportedVersion(osize))
    } else {
        match rd_opt(b, 2, b[1] & 1 != 0, 8) {
            Err(e) => Err(e),
            Ok((_, p)) => match rd_le(b, p, osize as int) {
                Err(e) => Err(e),
                Ok((heap, _)) => if heap == undef_addr(osize) {
                    Ok(None)
                } else {
                    Ok(Some(heap))
                },
            },
        }
    }
}

/// Fractal-heap address of a link-info message, if any.
pub fn parse_link_info_heap(body: &[u8], offset_size: u8) -> (res: Result<Option<u64>>)
    ensures
        res == spec_parse_link_info_heap(body@, offset_size),
{
    if body.len() < 2 {
        return Ok(None);
    }
    let mut r = Reader::new(body, offset_size, 8)?;
    let _ver = r.u8()?;
    let flags = r.u8()?;
    if flags & 1 != 0 {
        let _ = r.u64()?;
    }
    let heap = r.addr()?;
    if r.is_undef(heap) {
        Ok(None)
    } else {
        Ok(Some(heap))
    }
}

/// Symbol-table message: B-tree address then local-heap address.
pub open spec fn spec_parse_symbol_table(b: Seq<u8>, osize: u8) -> Result<(u64, u64)> {
    if !size_ok(osize) {
        Err(HDF5Error::UnsupportedVersion(osize))
    } else {
        match rd_le(b, 0, osize as int) {
            Err(e) => Err(e),
            Ok((bt, p)) => match rd_le(b, p, osize as int) {
                Err(e) => Err(e),
                Ok((hp, _)) => Ok((bt, hp)),
            },
        }
    }
}

/// B-tree and local-heap addresses of an old-style group.
pub fn parse_symbol_table(body: &[u8], offset_size: u8) -> (res: Result<(u64, u64)>)
    ensures
        res == spec_parse_symbol_table(body@, offset_size),
{
    let mut r = Reader::new(body, offset_size, 8)?;
    let btree = r.addr()?;
    let heap = r.addr()?;
    Ok((btree, heap))
}

/// NUL-terminated UTF-8 string at `offset` of a local heap.
pub open spec fn spec_cstr_from_heap(heap: Seq<u8>, offset: u64) -> Result<Seq<u8>> {
    if offset >= heap.len() {
        Err(HDF5Error::Truncated)
    } else {
        let t = cstr_bytes(heap.subrange(offset as int, heap.len() as int));
        if valid_utf8(t) {
            Ok(t)
        } else {
            Err(HDF5Error::InvalidHeader)
        }
    }
}

/// The string at `offset` of a local heap.
pub fn cstr_from_heap(heap: &[u8], offset: u64) -> (res: Result<String>)
    ensures
        match spec_cstr_from_heap(heap@, offset) {
            Ok(t) => res matches Ok(s) && s@ == decode_utf8(t),
            Err(e) => res matches Err(e2) && e2 == e,
        },
{
    if offset >= heap.len() as u64 {
        return Err(HDF5Error::Truncated);
    }
    let start = offset as usize;
    let rest = &heap[start..heap.len()];
    match cstr_string(rest) {
        Some(s) => Ok(s),
        None => Err(HDF5Error::InvalidHeader),
    }
}

/// Filter-pipeline message: the number of filters is its second byte.
pub open spec fn spec_parse_filter_count(b: Seq<u8>) -> Result<u8> {
    if b.len() < 2 {
        Err(HDF5Error::InvalidHeader)
    } else {
        Ok(b[1])
    }
}

/// Number of filters in a filter-pipeline message.
pub fn parse_filter_count(body: &[u8]) -> (res: Result<u8>)
    ensures
        res == spec_parse_filter_count(body@),
{
    if body.len() < 2 {
        return Err(HDF5Error::InvalidHeader);
    }
    Ok(body[1])
}

} // verus!
