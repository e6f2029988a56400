//! What the message readers give back of what the writers write.
use vstd::prelude::*;

use crate::buf::{le16, le32, le_at, le_bytes, lemma_le_bytes_roundtrip, pow256, rd_bytes, rd_le};
use crate::consts::{
    HDF5_ATTR_VERSION, HDF5_DATASPACE_VERSION, HDF5_LINK_VERSION, HDF5_MAX_DIMS, HDF5_MAX_NAME_LEN,
    HDF5_SPACE_SCALAR, HDF5_SPACE_SIMPLE, HDF5_CLASS_FLOAT, HDF5_CLASS_INTEGER, HDF5_CLASS_OPAQUE,
    HDF5_CLASS_STRING, HDF5_LAYOUT_CONTIGUOUS, HDF5_LAYOUT_VERSION,
};
use crate::decode::{spec_attr_text, spec_dtype_kind};
use crate::encode::spec_dtype_body;
use crate::error::HDF5Error;
use crate::messages::{
    cstr_bytes, first_zero, spec_parse_attribute, spec_string_attr, le8_concat, link_name_width, rd_lengths,
    spec_dataspace, spec_hard_link, spec_max_dims, spec_parse_dataspace, spec_parse_link, dtype_head,
    spec_fixed_string, spec_layout_contiguous, spec_parse_datatype, spec_parse_layout, LayoutView,
    ParsedDType,
};
use crate::model::DTypeKind;
use vstd::utf8::valid_utf8;

verus! {

/// The class nibble of a written datatype message reads back.
proof fn lemma_dtype_head(class: u8)
    requires
        class < 16,
    ensures
        dtype_head(class) & 0x0F == class,
{
    let h = dtype_head(class);
    assert(h == 16 + class);
    assert(h & 0x0F == class) by (bit_vector)
        requires
            h == 16 + class,
            class < 16,
    ;
}

/// A contiguous layout message reads back as the address and size written.
pub proof fn law_layout_roundtrip(addr: u64, size: u64)
    ensures
        spec_parse_layout(spec_layout_contiguous(addr, size), 8, 8) == Ok::<LayoutView, HDF5Error>(
            LayoutView::Contiguous { addr, size },
        ),
{
    let b = spec_layout_contiguous(addr, size);
    let ab = le_bytes(addr as int, 8);
    let sb = le_bytes(size as int, 8);
    assert(b == seq![HDF5_LAYOUT_VERSION, HDF5_LAYOUT_CONTIGUOUS] + ab + sb);
    reveal_with_fuel(pow256, 9);
    lemma_le_bytes_roundtrip(addr, 8);
    lemma_le_bytes_roundtrip(size, 8);
    assert(b[0] == 3 && b[1] == 1);
    assert(le_at(b, 2, 8) == le_at(ab, 0, 8)) by {
        assert(b[2] == ab[0] && b[3] == ab[1] && b[4] == ab[2] && b[5] == ab[3]);
        assert(b[6] == ab[4] && b[7] == ab[5] && b[8] == ab[6] && b[9] == ab[7]);
    }
    assert(le_at(b, 10, 8) == le_at(sb, 0, 8)) by {
        assert(b[10] == sb[0] && b[11] == sb[1] && b[12] == sb[2] && b[13] == sb[3]);
        assert(b[14] == sb[4] && b[15] == sb[5] && b[16] == sb[6] && b[17] == sb[7]);
    }
    assert(rd_le(b, 1, 1) == Ok::<(u64, int), HDF5Error>((1, 2)));
    assert(rd_le(b, 2, 8) == Ok::<(u64, int), HDF5Error>((addr, 10)));
    assert(rd_le(b, 10, 8) == Ok::<(u64, int), HDF5Error>((size, 18)));
}

/// The element-size field of a written datatype message.
proof fn lemma_dtype_size_field(b: Seq<u8>, size: u32)
    requires
        b.len() >= 8,
        b.subrange(4, 8) == le_bytes(size as int, 4),
    ensures
        le32(b[4], b[5], b[6], b[7]) == size,
{
    reveal_with_fuel(pow256, 5);
    lemma_le_bytes_roundtrip(size as u64, 4);
    let s = le_bytes(size as int, 4);
    assert(b[4] == s[0] && b[5] == s[1] && b[6] == s[2] && b[7] == s[3]) by {
        assert(b.subrange(4, 8)[0] == b[4]);
        assert(b.subrange(4, 8)[1] == b[5]);
        assert(b.subrange(4, 8)[2] == b[6]);
        assert(b.subrange(4, 8)[3] == b[7]);
    }
}

/// A datatype message written for a kind reads back as a datatype of that
/// kind (opaque sizes must fit the 4-byte size field).
pub proof fn law_dtype_roundtrip(k: DTypeKind)
    requires
        spec_dtype_body(k) is Some,
        k matches DTypeKind::Opaque(n) ==> n <= u32::MAX,
    ensures
        spec_parse_datatype(spec_dtype_body(k)->Some_0) matches Ok(dt) && spec_dtype_kind(dt) == k,
{
    let b = spec_dtype_body(k)->Some_0;
    let b1 = b[1];
    match k {
        DTypeKind::Float64 | DTypeKind::Float32 => {
            lemma_dtype_head(HDF5_CLASS_FLOAT);
            assert(b[0] == dtype_head(HDF5_CLASS_FLOAT));
            assert(b1 == 0x20);
            assert(b1 & 0x41 == 0) by (bit_vector)
                requires
                    b1 == 0x20,
            ;
            if k == DTypeKind::Float64 {
                assert(b.subrange(4, 8) =~= le_bytes(8, 4));
                lemma_dtype_size_field(b, 8);
            } else {
                assert(b.subrange(4, 8) =~= le_bytes(4, 4));
                lemma_dtype_size_field(b, 4);
            }
        },
        DTypeKind::Opaque(n) => {
            lemma_dtype_head(HDF5_CLASS_OPAQUE);
            assert(b[0] == dtype_head(HDF5_CLASS_OPAQUE));
            assert(b.subrange(4, 8) =~= le_bytes((n as u32) as int, 4));
            lemma_dtype_size_field(b, n as u32);
        },
        DTypeKind::Other { .. } => {},
        _ => {
            lemma_dtype_head(HDF5_CLASS_INTEGER);
            assert(b[0] == dtype_head(HDF5_CLASS_INTEGER));
            let size: u32 = match k {
                DTypeKind::Int8 | DTypeKind::UInt8 => 1,
                DTypeKind::Int16 | DTypeKind::UInt16 => 2,
                DTypeKind::Int32 | DTypeKind::UInt32 => 4,
                _ => 8,
            };
            let signed = match k {
                DTypeKind::Int8 | DTypeKind::Int16 | DTypeKind::Int32 | DTypeKind::Int64 => true,
                _ => false,
            };
            assert(b.subrange(4, 8) =~= le_bytes(size as int, 4));
            lemma_dtype_size_field(b, size);
            if signed {
                assert(b1 == 0x08);
                assert(b1 & 0x01 == 0 && b1 & 0x08 != 0) by (bit_vector)
                    requires
                        b1 == 0x08,
                ;
            } else {
                assert(b1 == 0);
                assert(b1 & 0x01 == 0 && b1 & 0x08 == 0) by (bit_vector)
                    requires
                        b1 == 0,
                ;
            }
        },
    }
}

/// Eight bytes per value.
pub proof fn lemma_le8_len(vals: Seq<u64>)
    ensures
        le8_concat(vals).len() == 8 * vals.len(),
    decreases vals.len(),
{
    if vals.len() > 0 {
        lemma_le8_len(vals.drop_last());
    }
}

/// Reading `vals.len()` 8-byte lengths where `le8_concat(vals)` stands gives `vals`.
pub proof fn lemma_rd_le8(b: Seq<u8>, p: int, vals: Seq<u64>)
    requires
        0 <= p,
        p + 8 * vals.len() <= b.len(),
        b.subrange(p, p + 8 * vals.len()) == le8_concat(vals),
    ensures
        rd_lengths(b, p, vals.len(), 8) == Ok::<(Seq<u64>, int), HDF5Error>((vals, p + 8 * vals.len())),
    decreases vals.len(),
{
    lemma_le8_len(vals);
    if vals.len() > 0 {
        let prev = vals.drop_last();
        let n = vals.len() as int;
        let q = p + 8 * (n - 1);
        lemma_le8_len(prev);
        let lb = le_bytes(vals.last() as int, 8);
        assert(le8_concat(vals) == le8_concat(prev) + lb);
        assert(b.subrange(p, q) =~= le8_concat(prev)) by {
            assert forall|k: int| 0 <= k < q - p implies b.subrange(p, q)[k] == le8_concat(prev)[k] by {
                assert(b.subrange(p, p + 8 * n)[k] == b[p + k]);
            }
        }
        lemma_rd_le8(b, p, prev);
        reveal_with_fuel(pow256, 9);
        lemma_le_bytes_roundtrip(vals.last(), 8);
        let w = b.subrange(p, p + 8 * n);
        assert forall|k: int| 0 <= k < 8 implies #[trigger] w[q - p + k] == lb[k] by {
            assert(w[q - p + k] == le8_concat(vals)[q - p + k]);
        }
        assert(le_at(b, q, 8) == le_at(lb, 0, 8)) by {
            assert(w[q - p] == b[q] && w[q - p] == lb[0]);
            assert(w[q - p + 1] == b[q + 1] && w[q - p + 2] == b[q + 2] && w[q - p + 3] == b[q + 3]);
            assert(w[q - p + 4] == b[q + 4] && w[q - p + 5] == b[q + 5] && w[q - p + 6] == b[q + 6]);
            assert(w[q - p + 7] == b[q + 7]);
        }
        assert(prev.push(vals.last()) =~= vals);
    } else {
        assert(vals =~= Seq::<u64>::empty());
    }
}

/// Where the fields of a simple dataspace message stand.
#[verifier::spinoff_prover]
#[verifier::rlimit(40)]
proof fn lemma_space_fields(dims: Seq<u64>, unlimited_first: bool)
    requires
        0 < dims.len() <= HDF5_MAX_DIMS,
    ensures
        spec_dataspace(dims, unlimited_first) matches Ok(b) && b.len() == 4 + 16 * dims.len() && b[0] == 2
            && b[1] as int == dims.len() && b[2] == 1 && rd_lengths(b, 4, dims.len(), 8) == Ok::<
            (Seq<u64>, int),
            HDF5Error,
        >((dims, 4 + 8 * dims.len() as int)) && rd_lengths(b, 4 + 8 * dims.len() as int, dims.len(), 8) is Ok,
{
    let b = spec_dataspace(dims, unlimited_first)->Ok_0;
    let n = dims.len() as int;
    let mx = spec_max_dims(dims, unlimited_first);
    assert(mx.len() == dims.len());
    lemma_le8_len(dims);
    lemma_le8_len(mx);
    let head = seq![HDF5_DATASPACE_VERSION, dims.len() as u8, 1u8, HDF5_SPACE_SIMPLE];
    assert(b == head + le8_concat(dims) + le8_concat(mx));
    assert(b.subrange(4, 4 + 8 * n) =~= le8_concat(dims));
    assert(b.subrange(4 + 8 * n, 4 + 16 * n) =~= le8_concat(mx));
    lemma_rd_le8(b, 4, dims);
    lemma_rd_le8(b, 4 + 8 * n, mx);
}

/// A dataspace message reads back as the dimensions written.
#[verifier::rlimit(50)]
pub proof fn law_dataspace_roundtrip(dims: Seq<u64>, unlimited_first: bool)
    requires
        dims.len() <= HDF5_MAX_DIMS,
    ensures
        spec_dataspace(dims, unlimited_first) matches Ok(b) && spec_parse_dataspace(b, 8) == Ok::<
            Seq<u64>,
            HDF5Error,
        >(dims),
{
    let b = spec_dataspace(dims, unlimited_first)->Ok_0;
    if dims.len() == 0 {
        assert(b == seq![HDF5_DATASPACE_VERSION, 0u8, 0u8, HDF5_SPACE_SCALAR]);
        let z: u8 = 0;
        assert(z & 1 == 0) by (bit_vector)
            requires
                z == 0,
        ;
        assert(rd_lengths(b, 4, 0, 8) == Ok::<(Seq<u64>, int), HDF5Error>((Seq::empty(), 4)));
        assert(dims =~= Seq::<u64>::empty());
    } else {
        lemma_space_fields(dims, unlimited_first);
        let one: u8 = 1;
        assert(one & 1 != 0) by (bit_vector)
            requires
                one == 1,
        ;
        assert(rd_bytes(b, 0, 4) is Ok);
    }
}

/// A hard-link message reads back as the name and address written.
pub proof fn law_hard_link_roundtrip(name: Seq<u8>, ohdr: u64)
    requires
        valid_utf8(name),
        name.len() <= HDF5_MAX_NAME_LEN,
    ensures
        spec_hard_link(name, ohdr) matches Ok(b) && spec_parse_link(b, 8) == Ok::<(Seq<u8>, u64), HDF5Error>(
            (name, ohdr),
        ),
{
    let b = spec_hard_link(name, ohdr)->Ok_0;
    let n = name.len() as int;
    let ob = le_bytes(ohdr as int, 8);
    reveal_with_fuel(pow256, 9);
    lemma_le_bytes_roundtrip(ohdr, 8);
    if n < 256 {
        let fl: u8 = 0;
        assert(fl & 0x08 == 0 && fl & 0x04 == 0 && fl & 0x10 == 0 && fl & 3 == 0) by (bit_vector)
            requires
                fl == 0,
        ;
        assert(b == seq![HDF5_LINK_VERSION, 0u8, n as u8] + name + ob);
        assert(link_name_width(fl) == 1);
        assert(b.subrange(3, 3 + n) =~= name);
        assert forall|k: int| 0 <= k < 8 implies #[trigger] b[3 + n + k] == ob[k] by {}
        assert(le_at(b, 3 + n, 8) == le_at(ob, 0, 8)) by {
            assert(b[3 + n] == ob[0]);
            assert(b[4 + n] == ob[1] && b[5 + n] == ob[2] && b[6 + n] == ob[3]);
            assert(b[7 + n] == ob[4] && b[8 + n] == ob[5] && b[9 + n] == ob[6] && b[10 + n] == ob[7]);
        }
        assert(b[0] == 1 && b[1] == 0 && b[2] as int == n);
    } else {
        let fl: u8 = 1;
        assert(fl & 0x08 == 0 && fl & 0x04 == 0 && fl & 0x10 == 0 && fl & 3 == 1) by (bit_vector)
            requires
                fl == 1,
        ;
        let lb = le_bytes(n, 2);
        assert(b == seq![HDF5_LINK_VERSION, 1u8] + lb + name + ob);
        assert(link_name_width(fl) == 2);
        lemma_le_bytes_roundtrip(n as u64, 2);
        assert(le_at(b, 2, 2) == le_at(lb, 0, 2)) by {
            assert(b[2] == lb[0] && b[3] == lb[1]);
        }
        assert(b.subrange(4, 4 + n) =~= name);
        assert forall|k: int| 0 <= k < 8 implies #[trigger] b[4 + n + k] == ob[k] by {}
        assert(le_at(b, 4 + n, 8) == le_at(ob, 0, 8)) by {
            assert(b[4 + n] == ob[0]);
            assert(b[5 + n] == ob[1] && b[6 + n] == ob[2] && b[7 + n] == ob[3]);
            assert(b[8 + n] == ob[4] && b[9 + n] == ob[5] && b[10 + n] == ob[6] && b[11 + n] == ob[7]);
        }
        assert(b[0] == 1 && b[1] == 1);
    }
}

/// No zero byte in `s`.
pub open spec fn no_zero(s: Seq<u8>) -> bool {
    forall|i: int| 0 <= i < s.len() ==> s[i] != 0
}

/// The bytes before the first zero of `s + [0]`, when `s` has none, are `s`.
pub proof fn lemma_cstr_terminated(s: Seq<u8>)
    requires
        no_zero(s),
    ensures
        cstr_bytes(s + seq![0u8]) == s,
{
    let t = s + seq![0u8];
    lemma_first_zero_at(t, 0, s.len() as int);
    assert(t.subrange(0, s.len() as int) =~= s);
}

/// `first_zero` finds the zero at `z` when none comes before it.
pub proof fn lemma_first_zero_at(t: Seq<u8>, i: int, z: int)
    requires
        0 <= i <= z < t.len(),
        t[z] == 0,
        forall|k: int| i <= k < z ==> t[k] != 0,
    ensures
        first_zero(t, i) == z,
    decreases z - i,
{
    if i < z {
        lemma_first_zero_at(t, i + 1, z);
    }
}

/// Where the fields of a written string attribute stand.
proof fn lemma_attr_fields(name: Seq<u8>, value: Seq<u8>)
    requires
        name.len() < 65535,
        value.len() <= 65535,
    ensures
        spec_string_attr(name, value) matches Ok(b) && b.len() == 22 + name.len() + value.len()
            && b[0] == 2 && b[1] == 0 && le16(b[2], b[3]) == name.len() + 1 && le16(b[4], b[5]) == 8
            && le16(b[6], b[7]) == 4 && b.subrange(8, 9 + name.len() as int) == name + seq![0u8]
            && b.subrange(9 + name.len() as int, 17 + name.len() as int) == spec_fixed_string(
            (value.len() + 1) as u32,
        ) && b.subrange(21 + name.len() as int, b.len() as int) == value + seq![0u8],
{
    let b = spec_string_attr(name, value)->Ok_0;
    let n = name.len() as int;
    let dtype = spec_fixed_string((value.len() + 1) as u32);
    let space = seq![HDF5_DATASPACE_VERSION, 0u8, 0u8, crate::consts::HDF5_SPACE_SCALAR];
    let l1 = le_bytes(((name.len() + 1) as u16) as int, 2);
    let l2 = le_bytes(dtype.len() as int, 2);
    let l3 = le_bytes(space.len() as int, 2);
    assert(dtype.len() == 8);
    assert(b == seq![HDF5_ATTR_VERSION, 0u8] + l1 + l2 + l3 + name + seq![0u8] + dtype + space + value + seq![0u8]);
    reveal_with_fuel(pow256, 3);
    lemma_le_bytes_roundtrip((n + 1) as u64, 2);
    lemma_le_bytes_roundtrip(8, 2);
    lemma_le_bytes_roundtrip(4, 2);
    assert(b[2] == l1[0] && b[3] == l1[1]);
    assert(le16(b[2], b[3]) == le_at(l1, 0, 2));
    assert(b[4] == l2[0] && b[5] == l2[1]);
    assert(le16(b[4], b[5]) == le_at(l2, 0, 2));
    assert(b[6] == l3[0] && b[7] == l3[1]);
    assert(le16(b[6], b[7]) == le_at(l3, 0, 2));
    assert(b.subrange(8, 9 + n) =~= name + seq![0u8]);
    assert(b.subrange(9 + n, 17 + n) =~= dtype);
    assert(b.subrange(21 + n, b.len() as int) =~= value + seq![0u8]);
}

/// A string attribute reads back with the name written, a fixed-string
/// datatype of the value's length plus one, and raw data the value followed
/// by a zero byte; its text is the value when the value is UTF-8 without a
/// zero byte (text stops at the first zero). A name of 65535 bytes does not
/// fit the 16-bit name size written with its terminating zero.
#[verifier::rlimit(50)]
pub proof fn law_string_attr_roundtrip(d: Seq<u8>, name: Seq<u8>, value: Seq<u8>)
    requires
        valid_utf8(name),
        no_zero(name),
        name.len() < 65535,
        value.len() <= 65535,
    ensures
        spec_string_attr(name, value) matches Ok(b) && spec_parse_attribute(b, 8, 8) matches Ok((nb, dt, raw))
            && nb == name && dt == (ParsedDType::FixedString { size: (value.len() + 1) as usize })
            && raw == value + seq![0u8] && (valid_utf8(value) && no_zero(value) ==> spec_attr_text(d, 8, 8, dt, raw)
            == Some(vstd::utf8::decode_utf8(value))),
{
    let b = spec_string_attr(name, value)->Ok_0;
    let n = name.len() as int;
    lemma_attr_fields(name, value);
    lemma_cstr_terminated(name);
    if no_zero(value) {
        lemma_cstr_terminated(value);
    }
    let zero: u8 = 0;
    assert(zero & 1 == 0) by (bit_vector)
        requires
            zero == 0,
    ;
    let dt = b.subrange(9 + n, 17 + n);
    let sz = (value.len() + 1) as u32;
    assert(dt == spec_fixed_string(sz));
    lemma_dtype_head(HDF5_CLASS_STRING);
    assert(dt.subrange(4, 8) =~= le_bytes(sz as int, 4));
    lemma_dtype_size_field(dt, sz);
    assert(dt[0] == dtype_head(HDF5_CLASS_STRING));
    assert(rd_bytes(b, 8, n + 1) == Ok::<(Seq<u8>, int), HDF5Error>((name + seq![0u8], 9 + n)));
    assert(rd_bytes(b, 9 + n, 8) == Ok::<(Seq<u8>, int), HDF5Error>((dt, 17 + n)));
    assert(rd_bytes(b, 17 + n, 4) is Ok);
}

} // verus!
