//! The on-disk layouts of the HDF5 format, stated field by field, and what
//! the readers and writers make of them: floating-point datatype
//! descriptions, version-1 dataspaces, version-3 attributes and
//! symbol-table nodes as other writers lay them out.
use vstd::prelude::*;
use vstd::arithmetic::power2::pow2;

use crate::buf::{le_at, le_bytes, pow256};
use crate::error::HDF5Error;
use crate::messages::{
    le8_concat, spec_integer, spec_ieee_f32le, spec_ieee_f64le, spec_parse_attribute, spec_parse_dataspace, spec_parse_datatype,
    ParsedDType,
};
use crate::btree::{spec_read_snod, spec_snod_entries, spec_snod_entry, ChildView};
use crate::roundtrip::{lemma_cstr_terminated, lemma_first_zero_at, lemma_le8_len, lemma_rd_le8, no_zero};

verus! {

/// A floating-point datatype message describing the IEEE 754 binary
/// interchange format of `bytes` bytes with an exponent of `e` bits, stored
/// little-endian: datatype version 1 and class 1 (floating point) in byte 0;
/// byte order bit clear, implied leading mantissa bit (normalization 2); the
/// sign at the top bit; element size; bit offset 0 and precision of every
/// bit; the exponent just above the mantissa, with bias `2^(e-1) - 1`; the
/// mantissa in the low `8*bytes - 1 - e` bits.
pub open spec fn ieee_le_description(b: Seq<u8>, bytes: nat, e: nat) -> bool {
    let bits = 8 * bytes;
    let m = bits - 1 - e;
    &&& b.len() == 20
    &&& b[0] / 16 == 1
    &&& b[0] % 16 == 1
    &&& b[1] % 2 == 0
    &&& (b[1] / 16) % 4 == 2
    &&& b[2] == bits - 1
    &&& le_at(b, 4, 4) == bytes
    &&& le_at(b, 8, 2) == 0
    &&& le_at(b, 10, 2) == bits
    &&& b[12] == m
    &&& b[13] == e
    &&& b[14] == 0
    &&& b[15] == m
    &&& le_at(b, 16, 4) == pow2((e - 1) as nat) - 1
}

/// The little-endian field of `n` bytes at `p` of `b` holds `v` when those
/// bytes are the encoding of `v`.
proof fn lemma_field(b: Seq<u8>, p: int, n: int, v: u64)
    requires
        n == 2 || n == 4 || n == 8,
        v < pow256(n),
        0 <= p,
        p + n <= b.len(),
        b.subrange(p, p + n) == le_bytes(v as int, n),
    ensures
        le_at(b, p, n) == v,
{
    crate::buf::lemma_le_bytes_roundtrip(v, n);
    let s = le_bytes(v as int, n);
    assert(b[p] == s[0] && b[p + 1] == s[1]) by {
        assert(b.subrange(p, p + n)[0] == b[p]);
        assert(b.subrange(p, p + n)[1] == b[p + 1]);
    }
    if n >= 4 {
        assert(b[p + 2] == s[2] && b[p + 3] == s[3]) by {
            assert(b.subrange(p, p + n)[2] == b[p + 2]);
            assert(b.subrange(p, p + n)[3] == b[p + 3]);
        }
    }
    if n == 8 {
        assert(b[p + 4] == s[4] && b[p + 5] == s[5] && b[p + 6] == s[6] && b[p + 7] == s[7]) by {
            assert(b.subrange(p, p + n)[4] == b[p + 4]);
            assert(b.subrange(p, p + n)[5] == b[p + 5]);
            assert(b.subrange(p, p + n)[6] == b[p + 6]);
            assert(b.subrange(p, p + n)[7] == b[p + 7]);
        }
    }
}

/// The datatypes written for `Float64` and `Float32` describe IEEE 754
/// binary64 (8 bytes, 11-bit exponent, bias 1023) and binary32 (4 bytes,
/// 8-bit exponent, bias 127), little-endian, so that any HDF5 reader
/// converts the stored bits to the same numbers.
pub proof fn law_float_dtypes_are_ieee()
    ensures
        ieee_le_description(spec_ieee_f64le(), 8, 11),
        ieee_le_description(spec_ieee_f32le(), 4, 8),
{
    reveal_with_fuel(pow256, 5);
    vstd::arithmetic::power2::lemma2_to64();
    let b = spec_ieee_f64le();
    assert(b.subrange(4, 8) =~= le_bytes(8, 4));
    lemma_field(b, 4, 4, 8);
    assert(b.subrange(8, 10) =~= le_bytes(0, 2));
    lemma_field(b, 8, 2, 0);
    assert(b.subrange(10, 12) =~= le_bytes(64, 2));
    lemma_field(b, 10, 2, 64);
    assert(b.subrange(16, 20) =~= le_bytes(1023, 4));
    lemma_field(b, 16, 4, 1023);
    let c = spec_ieee_f32le();
    assert(c.subrange(4, 8) =~= le_bytes(4, 4));
    lemma_field(c, 4, 4, 4);
    assert(c.subrange(8, 10) =~= le_bytes(0, 2));
    lemma_field(c, 8, 2, 0);
    assert(c.subrange(10, 12) =~= le_bytes(32, 2));
    lemma_field(c, 10, 2, 32);
    assert(c.subrange(16, 20) =~= le_bytes(127, 4));
    lemma_field(c, 16, 4, 127);
}

/// A fixed-point datatype message describing a little-endian integer of
/// `bytes` bytes: datatype version 1 and class 0 in byte 0; byte order bit
/// clear and the sign bit (bit 3) set exactly for a signed type; element
/// size; bit offset 0 and precision of every bit.
pub open spec fn int_le_description(b: Seq<u8>, bytes: nat, signed: bool) -> bool {
    &&& b.len() == 12
    &&& b[0] / 16 == 1
    &&& b[0] % 16 == 0
    &&& b[1] % 2 == 0
    &&& ((b[1] / 8) % 2 == 1) == signed
    &&& le_at(b, 4, 4) == bytes
    &&& le_at(b, 8, 2) == 0
    &&& le_at(b, 10, 2) == 8 * bytes
}

/// The datatypes written for the integer kinds describe little-endian
/// two's-complement (signed) or unsigned integers of their width.
pub proof fn law_integer_dtypes(size: u32, signed: bool)
    requires
        size == 1 || size == 2 || size == 4 || size == 8,
    ensures
        int_le_description(spec_integer(size, signed), size as nat, signed),
{
    reveal_with_fuel(pow256, 5);
    let b = spec_integer(size, signed);
    assert(b.subrange(4, 8) =~= le_bytes(size as int, 4));
    lemma_field(b, 4, 4, size as u64);
    assert(b.subrange(8, 10) =~= le_bytes(0, 2));
    lemma_field(b, 8, 2, 0);
    assert(b.subrange(10, 12) =~= le_bytes(size as int * 8, 2));
    lemma_field(b, 10, 2, (size * 8) as u64);
}

/// A version-1 dataspace message as the format lays it out: version 1, the
/// rank, the flags, five reserved bytes, then the dimension lengths, the
/// maximum lengths when flag bit 0 is set and the permutation indices when
/// flag bit 1 is set, each as 8-byte little-endian values.
pub open spec fn dataspace_v1(flags: u8, reserved: Seq<u8>, dims: Seq<u64>, maxd: Seq<u64>, perm: Seq<u64>) -> Seq<
    u8,
> {
    seq![1u8, dims.len() as u8, flags] + reserved + le8_concat(dims) + (if flags & 1 != 0 {
        le8_concat(maxd)
    } else {
        Seq::empty()
    }) + (if flags & 2 != 0 {
        le8_concat(perm)
    } else {
        Seq::empty()
    })
}

/// A version-1 dataspace message reads as exactly its dimension lengths,
/// whatever its reserved bytes, maximum lengths and permutation hold.
#[verifier::rlimit(40)]
pub proof fn law_dataspace_v1(flags: u8, reserved: Seq<u8>, dims: Seq<u64>, maxd: Seq<u64>, perm: Seq<u64>)
    requires
        reserved.len() == 5,
        dims.len() <= crate::consts::HDF5_MAX_DIMS,
        maxd.len() == dims.len(),
        perm.len() == dims.len(),
    ensures
        spec_parse_dataspace(dataspace_v1(flags, reserved, dims, maxd, perm), 8) == Ok::<Seq<u64>, HDF5Error>(dims),
{
    let b = dataspace_v1(flags, reserved, dims, maxd, perm);
    let n = dims.len() as int;
    lemma_le8_len(dims);
    lemma_le8_len(maxd);
    lemma_le8_len(perm);
    let mx: Seq<u8> = if flags & 1 != 0 { le8_concat(maxd) } else { Seq::empty() };
    let pm: Seq<u8> = if flags & 2 != 0 { le8_concat(perm) } else { Seq::empty() };
    let head = seq![1u8, dims.len() as u8, flags] + reserved;
    assert(b == head + le8_concat(dims) + mx + pm);
    assert(head.len() == 8);
    assert(b[0] == 1 && b[1] as int == n && b[2] == flags);
    assert(b.subrange(8, 8 + 8 * n) =~= le8_concat(dims));
    lemma_rd_le8(b, 8, dims);
    if flags & 1 != 0 {
        assert(b.subrange(8 + 8 * n, 8 + 16 * n) =~= le8_concat(maxd));
        lemma_rd_le8(b, 8 + 8 * n, maxd);
    }
    let p3 = 8 + 8 * n + mx.len();
    if flags & 2 != 0 {
        assert(b.subrange(p3, p3 + 8 * n) =~= le8_concat(perm));
        lemma_rd_le8(b, p3, perm);
    }
}

/// A version-2 dataspace message as the format lays it out: version 2, the
/// rank, the flags, the dataspace type, then the dimension lengths and the
/// maximum lengths when flag bit 0 is set, each as 8-byte little-endian
/// values.
pub open spec fn dataspace_v2(flags: u8, kind: u8, dims: Seq<u64>, maxd: Seq<u64>) -> Seq<u8> {
    seq![2u8, dims.len() as u8, flags, kind] + le8_concat(dims) + (if flags & 1 != 0 {
        le8_concat(maxd)
    } else {
        Seq::empty()
    })
}

/// A version-2 dataspace message reads as exactly its dimension lengths.
#[verifier::rlimit(40)]
pub proof fn law_dataspace_v2(flags: u8, kind: u8, dims: Seq<u64>, maxd: Seq<u64>)
    requires
        dims.len() <= crate::consts::HDF5_MAX_DIMS,
        maxd.len() == dims.len(),
    ensures
        spec_parse_dataspace(dataspace_v2(flags, kind, dims, maxd), 8) == Ok::<Seq<u64>, HDF5Error>(dims),
{
    let b = dataspace_v2(flags, kind, dims, maxd);
    let n = dims.len() as int;
    lemma_le8_len(dims);
    lemma_le8_len(maxd);
    let mx: Seq<u8> = if flags & 1 != 0 { le8_concat(maxd) } else { Seq::empty() };
    let head = seq![2u8, dims.len() as u8, flags, kind];
    assert(b == head + le8_concat(dims) + mx);
    assert(b[0] == 2 && b[1] as int == n && b[2] == flags);
    assert(b.subrange(4, 4 + 8 * n) =~= le8_concat(dims));
    lemma_rd_le8(b, 4, dims);
    if flags & 1 != 0 {
        assert(b.subrange(4 + 8 * n, 4 + 16 * n) =~= le8_concat(maxd));
        lemma_rd_le8(b, 4 + 8 * n, maxd);
    }
}

/// A version-3 attribute message as the format lays it out: version 3, the
/// flags, the sizes of the name (with its terminating zero), datatype and
/// dataspace as 2-byte little-endian values, the character-set byte, then
/// the zero-terminated name, the datatype, the dataspace and the data, with
/// no padding.
pub open spec fn attribute_v3(
    flags: u8,
    cset: u8,
    name: Seq<u8>,
    dt: Seq<u8>,
    space: Seq<u8>,
    data: Seq<u8>,
) -> Seq<u8> {
    seq![3u8, flags] + le_bytes(name.len() as int + 1, 2) + le_bytes(dt.len() as int, 2) + le_bytes(space.len() as int, 2)
        + seq![cset] + name + seq![0u8] + dt + space + data
}

/// A version-3 attribute message reads as its name, its datatype and its
/// data, whatever its character set, when the name is UTF-8 without a zero
/// byte, the datatype is not shared (flag bit 0 clear) and can be read.
#[verifier::rlimit(60)]
pub proof fn law_attribute_v3(flags: u8, cset: u8, name: Seq<u8>, dt: Seq<u8>, space: Seq<u8>, data: Seq<u8>)
    requires
        flags & 1 == 0,
        no_zero(name),
        vstd::utf8::valid_utf8(name),
        name.len() + 1 < 65536,
        dt.len() < 65536,
        space.len() < 65536,
        spec_parse_datatype(dt) is Ok,
    ensures
        spec_parse_attribute(attribute_v3(flags, cset, name, dt, space, data), 8, 8) == Ok::<
            (Seq<u8>, ParsedDType, Seq<u8>),
            HDF5Error,
        >((name, spec_parse_datatype(dt)->Ok_0, data)),
{
    reveal_with_fuel(pow256, 5);
    let b = attribute_v3(flags, cset, name, dt, space, data);
    let nl = name.len() as int + 1;
    let dl = dt.len() as int;
    let sl = space.len() as int;
    let l1 = le_bytes(nl, 2);
    let l2 = le_bytes(dl, 2);
    let l3 = le_bytes(sl, 2);
    let head = seq![3u8, flags] + l1 + l2 + l3 + seq![cset];
    let nz = name + seq![0u8];
    assert(b == head + nz + dt + space + data);
    assert(head.len() == 9);
    assert(b.subrange(2, 4) =~= l1);
    lemma_field(b, 2, 2, nl as u64);
    assert(b.subrange(4, 6) =~= l2);
    lemma_field(b, 4, 2, dl as u64);
    assert(b.subrange(6, 8) =~= l3);
    lemma_field(b, 6, 2, sl as u64);
    assert(b[0] == 3 && b[1] == flags && b[8] == cset);
    lemma_cstr_terminated(name);
    assert(b.subrange(9, 9 + nl) =~= nz);
    assert(b.subrange(9 + nl, 9 + nl + dl) =~= dt);
    assert(b.subrange(9 + nl + dl, 9 + nl + dl + sl) =~= space);
    assert(b.subrange(9 + nl + dl + sl, b.len() as int) =~= data);
}

/// One symbol-table entry with 8-byte offsets: the offset of the link name
/// in the local heap, the address of the object header, then 24 bytes of
/// cache type, reserved word and scratch pad.
pub open spec fn snod_entry_bytes(e: (u64, u64, Seq<u8>)) -> Seq<u8> {
    le_bytes(e.0 as int, 8) + le_bytes(e.1 as int, 8) + e.2
}

/// Symbol-table entries one after another.
pub open spec fn snod_entries_bytes(es: Seq<(u64, u64, Seq<u8>)>) -> Seq<u8>
    decreases es.len(),
{
    if es.len() == 0 {
        Seq::empty()
    } else {
        snod_entry_bytes(es[0]) + snod_entries_bytes(es.drop_first())
    }
}

/// A symbol-table node as the format lays it out: `SNOD`, version 1, a
/// reserved byte, the number of symbols (2 bytes, little-endian), then the
/// entries.
pub open spec fn snod_bytes(es: Seq<(u64, u64, Seq<u8>)>) -> Seq<u8> {
    seq![0x53u8, 0x4eu8, 0x4fu8, 0x44u8, 1u8, 0u8] + le_bytes(es.len() as int, 2) + snod_entries_bytes(es)
}

/// The local heap holds the non-empty UTF-8 name `name`, without zero
/// bytes, at `off`, followed by a zero byte.
pub open spec fn heap_name_at(heap: Seq<u8>, off: u64, name: Seq<u8>) -> bool {
    &&& name.len() > 0
    &&& no_zero(name)
    &&& vstd::utf8::valid_utf8(name)
    &&& off + name.len() < heap.len()
    &&& heap.subrange(off as int, off + name.len()) == name
    &&& heap[off + name.len()] == 0
}

/// Entries whose scratch parts are 24 bytes.
pub open spec fn entries_ok(es: Seq<(u64, u64, Seq<u8>)>) -> bool {
    forall|i: int| 0 <= i < es.len() ==> (#[trigger] es[i]).2.len() == 24
}

/// Entries take 40 bytes each.
proof fn lemma_entries_len(es: Seq<(u64, u64, Seq<u8>)>)
    requires
        entries_ok(es),
    ensures
        snod_entries_bytes(es).len() == 40 * es.len(),
    decreases es.len(),
{
    if es.len() > 0 {
        assert(es[0].2.len() == 24);
        assert(entries_ok(es.drop_first())) by {
            assert forall|i: int| 0 <= i < es.drop_first().len() implies (#[trigger] es.drop_first()[i]).2.len()
                == 24 by {
                assert(es.drop_first()[i] == es[i + 1]);
            }
        }
        lemma_entries_len(es.drop_first());
    }
}

/// One entry is read as the child named by the heap at its name offset.
proof fn lemma_snod_one(d: Seq<u8>, p: int, e: (u64, u64, Seq<u8>), heap: Seq<u8>, name: Seq<u8>)
    requires
        0 <= p,
        p + 40 <= d.len(),
        e.2.len() == 24,
        d.subrange(p, p + 40) == snod_entry_bytes(e),
        heap_name_at(heap, e.0, name),
    ensures
        spec_snod_entry(d, p, heap, 8) == Ok::<(Option<ChildView>, int), HDF5Error>((Some((name, e.1)), p + 40)),
{
    reveal_with_fuel(pow256, 9);
    let eb = snod_entry_bytes(e);
    assert(d.subrange(p, p + 8) =~= le_bytes(e.0 as int, 8)) by {
        assert forall|k: int| 0 <= k < 8 implies d.subrange(p, p + 8)[k] == le_bytes(e.0 as int, 8)[k] by {
            assert(d.subrange(p, p + 40)[k] == eb[k]);
        }
    }
    assert(d.subrange(p + 8, p + 16) =~= le_bytes(e.1 as int, 8)) by {
        assert forall|k: int| 0 <= k < 8 implies d.subrange(p + 8, p + 16)[k] == le_bytes(e.1 as int, 8)[k] by {
            assert(d.subrange(p, p + 40)[8 + k] == eb[8 + k]);
        }
    }
    lemma_field(d, p, 8, e.0);
    lemma_field(d, p + 8, 8, e.1);
    let t = heap.subrange(e.0 as int, heap.len() as int);
    assert forall|k: int| 0 <= k < name.len() implies t[k] != 0 by {
        assert(heap.subrange(e.0 as int, e.0 + name.len())[k] == name[k]);
    }
    lemma_first_zero_at(t, 0, name.len() as int);
    assert(t.subrange(0, name.len() as int) =~= name) by {
        assert forall|k: int| 0 <= k < name.len() implies t.subrange(0, name.len() as int)[k] == name[k] by {
            assert(heap.subrange(e.0 as int, e.0 + name.len())[k] == name[k]);
        }
    }
}

/// The children named by entries whose names the heap holds.
pub open spec fn named_children(es: Seq<(u64, u64, Seq<u8>)>, names: Seq<Seq<u8>>) -> Seq<ChildView> {
    Seq::new(es.len(), |i: int| (names[i], es[i].1))
}

/// Reading `es.len()` entries from `p` appends every one of their children,
/// in order.
proof fn lemma_snod_all(
    d: Seq<u8>,
    p: int,
    es: Seq<(u64, u64, Seq<u8>)>,
    names: Seq<Seq<u8>>,
    heap: Seq<u8>,
    acc: Seq<ChildView>,
)
    requires
        0 <= p,
        entries_ok(es),
        names.len() == es.len(),
        forall|i: int| 0 <= i < es.len() ==> heap_name_at(heap, (#[trigger] es[i]).0, names[i]),
        p + 40 * es.len() <= d.len(),
        d.subrange(p, p + 40 * es.len()) == snod_entries_bytes(es),
    ensures
        spec_snod_entries(d, p, es.len(), heap, 8, acc) == Ok::<Seq<ChildView>, HDF5Error>(
            acc + named_children(es, names),
        ),
    decreases es.len(),
{
    lemma_entries_len(es);
    if es.len() == 0 {
        assert(acc + named_children(es, names) =~= acc);
    } else {
        let rest = es.drop_first();
        let rn = names.drop_first();
        assert(es[0].2.len() == 24);
        assert(entries_ok(rest)) by {
            assert forall|i: int| 0 <= i < rest.len() implies (#[trigger] rest[i]).2.len() == 24 by {
                assert(rest[i] == es[i + 1]);
            }
        }
        lemma_entries_len(rest);
        let n = es.len() as int;
        let all = snod_entries_bytes(es);
        assert(all == snod_entry_bytes(es[0]) + snod_entries_bytes(rest));
        assert(d.subrange(p, p + 40) =~= snod_entry_bytes(es[0])) by {
            assert forall|k: int| 0 <= k < 40 implies d.subrange(p, p + 40)[k] == snod_entry_bytes(es[0])[k] by {
                assert(d.subrange(p, p + 40 * n)[k] == all[k]);
            }
        }
        assert(d.subrange(p + 40, p + 40 * n) =~= snod_entries_bytes(rest)) by {
            assert forall|k: int| 0 <= k < 40 * (n - 1) implies d.subrange(p + 40, p + 40 * n)[k]
                == snod_entries_bytes(rest)[k] by {
                assert(d.subrange(p, p + 40 * n)[40 + k] == all[40 + k]);
            }
        }
        assert(heap_name_at(heap, es[0].0, names[0]));
        lemma_snod_one(d, p, es[0], heap, names[0]);
        assert forall|i: int| 0 <= i < rest.len() implies heap_name_at(heap, (#[trigger] rest[i]).0, rn[i]) by {
            assert(rest[i] == es[i + 1]);
            assert(heap_name_at(heap, es[i + 1].0, names[i + 1]));
        }
        let acc1 = acc.push((names[0], es[0].1));
        lemma_snod_all(d, p + 40, rest, rn, heap, acc1);
        assert(acc1 + named_children(rest, rn) =~= acc + named_children(es, names));
    }
}

/// A symbol-table node read with 8-byte offsets yields the children of all
/// its entries, in order: each the name its entry points to in the local
/// heap and its object header address.
#[verifier::rlimit(40)]
pub proof fn law_snod_children(
    d: Seq<u8>,
    addr: u64,
    es: Seq<(u64, u64, Seq<u8>)>,
    names: Seq<Seq<u8>>,
    heap: Seq<u8>,
    lsize: u8,
)
    requires
        crate::buf::size_ok(lsize),
        es.len() < 65536,
        entries_ok(es),
        names.len() == es.len(),
        forall|i: int| 0 <= i < es.len() ==> heap_name_at(heap, (#[trigger] es[i]).0, names[i]),
        addr + snod_bytes(es).len() <= d.len(),
        d.subrange(addr as int, addr + snod_bytes(es).len()) == snod_bytes(es),
    ensures
        spec_read_snod(d, addr, heap, 8, lsize) == Ok::<Seq<ChildView>, HDF5Error>(named_children(es, names)),
{
    reveal_with_fuel(pow256, 5);
    lemma_entries_len(es);
    let nb = snod_bytes(es);
    let a = addr as int;
    let n = es.len() as int;
    let cnt = le_bytes(n, 2);
    let head = seq![0x53u8, 0x4eu8, 0x4fu8, 0x44u8, 1u8, 0u8];
    assert(nb == head + cnt + snod_entries_bytes(es));
    assert(nb.len() == 8 + 40 * n);
    let w = d.subrange(a, a + nb.len());
    assert(d.subrange(a, a + 4) =~= crate::consts::HDF5_SNOD_SIGNATURE@) by {
        assert forall|k: int| 0 <= k < 4 implies d.subrange(a, a + 4)[k] == crate::consts::HDF5_SNOD_SIGNATURE@[k] by {
            assert(w[k] == nb[k]);
        }
    }
    assert(d[a + 4] == 1) by {
        assert(w[4] == nb[4]);
    }
    assert(d.subrange(a + 6, a + 8) =~= cnt) by {
        assert(w[6] == nb[6] && w[7] == nb[7]);
    }
    lemma_field(d, a + 6, 2, n as u64);
    assert(d.subrange(a + 8, a + 8 + 40 * n) =~= snod_entries_bytes(es)) by {
        assert forall|k: int| 0 <= k < 40 * n implies d.subrange(a + 8, a + 8 + 40 * n)[k] == snod_entries_bytes(es)[k] by {
            assert(w[8 + k] == nb[8 + k]);
        }
    }
    lemma_snod_all(d, a + 8, es, names, heap, Seq::empty());
    assert(Seq::<ChildView>::empty() + named_children(es, names) =~= named_children(es, names));
}

} // verus!
