//! Integer arrays as little-endian byte lanes, and back.
use vstd::prelude::*;

use crate::buf::{le_at, le_bytes, lemma_le_bytes_roundtrip, pow256, push_u16, push_u32, push_u64};

verus! {

/// The little-endian `w`-byte encodings of `vals`, concatenated.
pub open spec fn lanes(vals: Seq<int>, w: int) -> Seq<u8>
    decreases vals.len(),
{
    if vals.len() == 0 {
        Seq::empty()
    } else {
        lanes(vals.drop_last(), w) + le_bytes(vals.last(), w)
    }
}

/// The `w`-byte little-endian values in `d`; a trailing partial lane is dropped.
pub open spec fn unlanes(d: Seq<u8>, w: int) -> Seq<int> {
    Seq::new((d.len() as int / w) as nat, |i: int| le_at(d, i * w, w))
}

/// `u64` values as integers.
pub open spec fn vals_u64(s: Seq<u64>) -> Seq<int> {
    s.map_values(|x: u64| x as int)
}

/// `u32` values as integers.
pub open spec fn vals_u32(s: Seq<u32>) -> Seq<int> {
    s.map_values(|x: u32| x as int)
}

/// `u16` values as integers.
pub open spec fn vals_u16(s: Seq<u16>) -> Seq<int> {
    s.map_values(|x: u16| x as int)
}

/// `u8` values as integers.
pub open spec fn vals_u8(s: Seq<u8>) -> Seq<int> {
    s.map_values(|x: u8| x as int)
}

/// `i8` values by their two's-complement bit patterns.
pub open spec fn vals_i8(s: Seq<i8>) -> Seq<int> {
    s.map_values(|x: i8| x as u8 as int)
}

/// `i16` values by their two's-complement bit patterns.
pub open spec fn vals_i16(s: Seq<i16>) -> Seq<int> {
    s.map_values(|x: i16| x as u16 as int)
}

/// `i32` values by their two's-complement bit patterns.
pub open spec fn vals_i32(s: Seq<i32>) -> Seq<int> {
    s.map_values(|x: i32| x as u32 as int)
}

/// `i64` values by their two's-complement bit patterns.
pub open spec fn vals_i64(s: Seq<i64>) -> Seq<int> {
    s.map_values(|x: i64| x as u64 as int)
}

/// Lane widths.
pub open spec fn lane_width(w: int) -> bool {
    w == 1 || w == 2 || w == 4 || w == 8
}

/// The lanes of `vals` are `w` bytes each.
pub proof fn lemma_lanes_len(vals: Seq<int>, w: int)
    requires
        w >= 0,
    ensures
        lanes(vals, w).len() == vals.len() * w,
    decreases vals.len(),
{
    if vals.len() > 0 {
        lemma_lanes_len(vals.drop_last(), w);
        assert((vals.len() - 1) * w + w == vals.len() * w) by (nonlinear_arith);
    }
}

/// Lane `i` of the encoding reads back as `vals[i]`.
pub proof fn lemma_lanes_at(vals: Seq<int>, w: int, i: int)
    requires
        lane_width(w),
        0 <= i < vals.len(),
        forall|j: int| 0 <= j < vals.len() ==> 0 <= #[trigger] vals[j] < pow256(w),
    ensures
        i * w + w <= lanes(vals, w).len(),
        le_at(lanes(vals, w), i * w, w) == vals[i],
    decreases vals.len(),
{
    let n = vals.len();
    let prev = vals.drop_last();
    let a = lanes(prev, w);
    let b = le_bytes(vals.last(), w);
    lemma_lanes_len(prev, w);
    lemma_lanes_len(vals, w);
    assert(i * w + w <= n * w) by (nonlinear_arith)
        requires
            0 <= i < n,
            w >= 0,
    ;
    if i < n - 1 {
        lemma_lanes_at(prev, w, i);
        assert(i * w + w <= (n - 1) * w) by (nonlinear_arith)
            requires
                0 <= i < n - 1,
                w >= 0,
        ;
        let d = a + b;
        assert(forall|k: int| 0 <= k < w ==> #[trigger] d[i * w + k] == a[i * w + k]);
        assert(d[i * w] == a[i * w]);
    } else {
        assert(i * w == a.len()) by (nonlinear_arith)
            requires
                i == n - 1,
                a.len() == (n - 1) * w,
        ;
        assert(vals.last() < pow256(w));
        lemma_le_bytes_roundtrip(vals.last() as u64, w);
        let d = a + b;
        assert(forall|k: int| 0 <= k < w ==> #[trigger] d[i * w + k] == b[k]);
        assert(d[i * w] == b[0]);
    }
}

/// Decoding the lanes of in-range values gives the values back.
pub proof fn lemma_unlanes_lanes(vals: Seq<int>, w: int)
    requires
        lane_width(w),
        forall|j: int| 0 <= j < vals.len() ==> 0 <= #[trigger] vals[j] < pow256(w),
    ensures
        unlanes(lanes(vals, w), w) == vals,
{
    lemma_lanes_len(vals, w);
    let n = vals.len();
    assert((n * w) / w == n) by (nonlinear_arith)
        requires
            w > 0,
    ;
    let u = unlanes(lanes(vals, w), w);
    assert forall|i: int| 0 <= i < n implies u[i] == vals[i] by {
        lemma_lanes_at(vals, w, i);
    }
    assert(u =~= vals);
}

/// Extending the prefix of `vals` taken by one lane.
proof fn lemma_lanes_take(vals: Seq<int>, w: int, i: int)
    requires
        0 <= i < vals.len(),
    ensures
        lanes(vals.take(i + 1), w) == lanes(vals.take(i), w) + le_bytes(vals[i], w),
{
    assert(vals.take(i + 1).drop_last() =~= vals.take(i));
}

/// `u64` values as 8-byte little-endian lanes.
pub fn lanes_u64(bits: &[u64]) -> (o: Vec<u8>)
    ensures
        o@ == lanes(vals_u64(bits@), 8),
{
    let ghost v = vals_u64(bits@);
    let mut o: Vec<u8> = Vec::new();
    let mut i: usize = 0;
    while i < bits.len()
        invariant
            i <= bits@.len(),
            v == vals_u64(bits@),
            o@ == lanes(v.take(i as int), 8),
        decreases bits@.len() - i,
    {
        proof {
            lemma_lanes_take(v, 8, i as int);
        }
        push_u64(&mut o, bits[i]);
        i = i + 1;
    }
    assert(v.take(bits@.len() as int) =~= v);
    o
}

/// `u32` values as 4-byte little-endian lanes.
pub fn lanes_u32(bits: &[u32]) -> (o: Vec<u8>)
    ensures
        o@ == lanes(vals_u32(bits@), 4),
{
    let ghost v = vals_u32(bits@);
    let mut o: Vec<u8> = Vec::new();
    let mut i: usize = 0;
    while i < bits.len()
        invariant
            i <= bits@.len(),
            v == vals_u32(bits@),
            o@ == lanes(v.take(i as int), 4),
        decreases bits@.len() - i,
    {
        proof {
            lemma_lanes_take(v, 4, i as int);
        }
        push_u32(&mut o, bits[i]);
        i = i + 1;
    }
    assert(v.take(bits@.len() as int) =~= v);
    o
}

/// `u16` values as 2-byte little-endian lanes.
pub fn u16_lanes(bits: &[u16]) -> (o: Vec<u8>)
    ensures
        o@ == lanes(vals_u16(bits@), 2),
{
    let ghost v = vals_u16(bits@);
    let mut o: Vec<u8> = Vec::new();
    let mut i: usize = 0;
    while i < bits.len()
        invariant
            i <= bits@.len(),
            v == vals_u16(bits@),
            o@ == lanes(v.take(i as int), 2),
        decreases bits@.len() - i,
    {
        proof {
            lemma_lanes_take(v, 2, i as int);
        }
        push_u16(&mut o, bits[i]);
        i = i + 1;
    }
    assert(v.take(bits@.len() as int) =~= v);
    o
}

/// `i8` values as 1-byte lanes of their bit patterns.
pub fn i8_lanes(bits: &[i8]) -> (o: Vec<u8>)
    ensures
        o@ == lanes(vals_i8(bits@), 1),
{
    let ghost v = vals_i8(bits@);
    let mut o: Vec<u8> = Vec::new();
    let mut i: usize = 0;
    while i < bits.len()
        invariant
            i <= bits@.len(),
            v == vals_i8(bits@),
            o@ == lanes(v.take(i as int), 1),
        decreases bits@.len() - i,
    {
        let b = bits[i] as u8;
        proof {
            lemma_lanes_take(v, 1, i as int);
            reveal_with_fuel(pow256, 1);
            assert(le_bytes(v[i as int], 1) =~= seq![b]);
        }
        o.push(b);
        i = i + 1;
    }
    assert(v.take(bits@.len() as int) =~= v);
    o
}

/// `i16` values as 2-byte little-endian lanes of their bit patterns.
pub fn i16_lanes(bits: &[i16]) -> (o: Vec<u8>)
    ensures
        o@ == lanes(vals_i16(bits@), 2),
{
    let ghost v = vals_i16(bits@);
    let mut o: Vec<u8> = Vec::new();
    let mut i: usize = 0;
    while i < bits.len()
        invariant
            i <= bits@.len(),
            v == vals_i16(bits@),
            o@ == lanes(v.take(i as int), 2),
        decreases bits@.len() - i,
    {
        proof {
            lemma_lanes_take(v, 2, i as int);
        }
        push_u16(&mut o, bits[i] as u16);
        i = i + 1;
    }
    assert(v.take(bits@.len() as int) =~= v);
    o
}

/// `i32` values as 4-byte little-endian lanes of their bit patterns.
pub fn i32_lanes(bits: &[i32]) -> (o: Vec<u8>)
    ensures
        o@ == lanes(vals_i32(bits@), 4),
{
    let ghost v = vals_i32(bits@);
    let mut o: Vec<u8> = Vec::new();
    let mut i: usize = 0;
    while i < bits.len()
        invariant
            i <= bits@.len(),
            v == vals_i32(bits@),
            o@ == lanes(v.take(i as int), 4),
        decreases bits@.len() - i,
    {
        proof {
            lemma_lanes_take(v, 4, i as int);
        }
        push_u32(&mut o, bits[i] as u32);
        i = i + 1;
    }
    assert(v.take(bits@.len() as int) =~= v);
    o
}

/// `i64` values as 8-byte little-endian lanes of their bit patterns.
pub fn i64_lanes(bits: &[i64]) -> (o: Vec<u8>)
    ensures
        o@ == lanes(vals_i64(bits@), 8),
{
    let ghost v = vals_i64(bits@);
    let mut o: Vec<u8> = Vec::new();
    let mut i: usize = 0;
    while i < bits.len()
        invariant
            i <= bits@.len(),
            v == vals_i64(bits@),
            o@ == lanes(v.take(i as int), 8),
        decreases bits@.len() - i,
    {
        proof {
            lemma_lanes_take(v, 8, i as int);
        }
        push_u64(&mut o, bits[i] as u64);
        i = i + 1;
    }
    assert(v.take(bits@.len() as int) =~= v);
    o
}

/// The eight little-endian bytes of `d` at `p`.
fn le_u64_at(d: &[u8], p: usize) -> (v: u64)
    requires
        p + 8 <= d@.len(),
    ensures
        v == le_at(d@, p as int, 8),
{
    let b0 = d[p] as u64;
    let b1 = d[p + 1] as u64;
    let b2 = d[p + 2] as u64;
    let b3 = d[p + 3] as u64;
    let b4 = d[p + 4] as u64;
    let b5 = d[p + 5] as u64;
    let b6 = d[p + 6] as u64;
    let b7 = d[p + 7] as u64;
    let lo = b0 + 256 * b1 + 65536 * (b2 + 256 * b3);
    let hi = b4 + 256 * b5 + 65536 * (b6 + 256 * b7);
    lo + 0x1_0000_0000 * hi
}

/// The four little-endian bytes of `d` at `p`.
fn le_u32_at(d: &[u8], p: usize) -> (v: u32)
    requires
        p + 4 <= d@.len(),
    ensures
        v == le_at(d@, p as int, 4),
{
    let b0 = d[p] as u32;
    let b1 = d[p + 1] as u32;
    let b2 = d[p + 2] as u32;
    let b3 = d[p + 3] as u32;
    b0 + 256 * b1 + 65536 * (b2 + 256 * b3)
}

/// The two little-endian bytes of `d` at `p`.
fn le_u16_at(d: &[u8], p: usize) -> (v: u16)
    requires
        p + 2 <= d@.len(),
    ensures
        v == le_at(d@, p as int, 2),
{
    d[p] as u16 + 256 * (d[p + 1] as u16)
}

/// Every complete 8-byte lane of `data` as a `u64`.
pub fn from_u64_le(data: &[u8]) -> (v: Vec<u64>)
    ensures
        vals_u64(v@) == unlanes(data@, 8),
{
    let n = data.len() / 8;
    assert(n * 8 <= data@.len()) by (nonlinear_arith)
        requires
            n == data@.len() / 8,
    ;
    let mut v: Vec<u64> = Vec::new();
    let mut i: usize = 0;
    let mut p: usize = 0;
    while i < n
        invariant
            n == data@.len() / 8,
            i <= n,
            p == i * 8,
            p + (n - i) * 8 <= data@.len(),
            data@.len() <= usize::MAX,
            v@.len() == i,
            forall|j: int| 0 <= j < i ==> (#[trigger] v@[j]) as int == le_at(data@, j * 8, 8),
        decreases n - i,
    {
        let x = le_u64_at(data, p);
        v.push(x);
        p = p + 8;
        i = i + 1;
    }
    assert(vals_u64(v@) =~= unlanes(data@, 8));
    v
}

/// Every complete 4-byte lane of `data` as a `u32`.
pub fn from_u32_le(data: &[u8]) -> (v: Vec<u32>)
    ensures
        vals_u32(v@) == unlanes(data@, 4),
{
    let n = data.len() / 4;
    assert(n * 4 <= data@.len()) by (nonlinear_arith)
        requires
            n == data@.len() / 4,
    ;
    let mut v: Vec<u32> = Vec::new();
    let mut i: usize = 0;
    let mut p: usize = 0;
    while i < n
        invariant
            n == data@.len() / 4,
            i <= n,
            p == i * 4,
            p + (n - i) * 4 <= data@.len(),
            data@.len() <= usize::MAX,
            v@.len() == i,
            forall|j: int| 0 <= j < i ==> (#[trigger] v@[j]) as int == le_at(data@, j * 4, 4),
        decreases n - i,
    {
        let x = le_u32_at(data, p);
        v.push(x);
        p = p + 4;
        i = i + 1;
    }
    assert(vals_u32(v@) =~= unlanes(data@, 4));
    v
}

/// Every complete 2-byte lane of `data` as a `u16`.
pub fn from_u16_le(data: &[u8]) -> (v: Vec<u16>)
    ensures
        vals_u16(v@) == unlanes(data@, 2),
{
    let n = data.len() / 2;
    assert(n * 2 <= data@.len()) by (nonlinear_arith)
        requires
            n == data@.len() / 2,
    ;
    let mut v: Vec<u16> = Vec::new();
    let mut i: usize = 0;
    let mut p: usize = 0;
    while i < n
        invariant
            n == data@.len() / 2,
            i <= n,
            p == i * 2,
            p + (n - i) * 2 <= data@.len(),
            data@.len() <= usize::MAX,
            v@.len() == i,
            forall|j: int| 0 <= j < i ==> (#[trigger] v@[j]) as int == le_at(data@, j * 2, 2),
        decreases n - i,
    {
        let x = le_u16_at(data, p);
        v.push(x);
        p = p + 2;
        i = i + 1;
    }
    assert(vals_u16(v@) =~= unlanes(data@, 2));
    v
}

/// Every byte of `data` as an `i8` of that bit pattern.
pub fn from_i8(data: &[u8]) -> (v: Vec<i8>)
    ensures
        vals_i8(v@) == unlanes(data@, 1),
{
    let mut v: Vec<i8> = Vec::new();
    let mut i: usize = 0;
    while i < data.len()
        invariant
            i <= data@.len(),
            v@.len() == i,
            forall|j: int| 0 <= j < i ==> (#[trigger] v@[j]) as u8 as int == le_at(data@, j * 1, 1),
        decreases data@.len() - i,
    {
        let b = data[i];
        let x = b as i8;
        assert(x as u8 == b) by (bit_vector)
            requires
                x == b as i8,
        ;
        v.push(x);
        i = i + 1;
    }
    assert(vals_i8(v@) =~= unlanes(data@, 1));
    v
}

/// Every complete 2-byte lane of `data` as an `i16` of that bit pattern.
pub fn from_i16_le(data: &[u8]) -> (v: Vec<i16>)
    ensures
        vals_i16(v@) == unlanes(data@, 2),
{
    let n = data.len() / 2;
    assert(n * 2 <= data@.len()) by (nonlinear_arith)
        requires
            n == data@.len() / 2,
    ;
    let mut v: Vec<i16> = Vec::new();
    let mut i: usize = 0;
    let mut p: usize = 0;
    while i < n
        invariant
            n == data@.len() / 2,
            i <= n,
            p == i * 2,
            p + (n - i) * 2 <= data@.len(),
            data@.len() <= usize::MAX,
            v@.len() == i,
            forall|j: int| 0 <= j < i ==> (#[trigger] v@[j]) as u16 as int == le_at(data@, j * 2, 2),
        decreases n - i,
    {
        let u = le_u16_at(data, p);
        let x = u as i16;
        assert(x as u16 == u) by (bit_vector)
            requires
                x == u as i16,
        ;
        v.push(x);
        p = p + 2;
        i = i + 1;
    }
    assert(vals_i16(v@) =~= unlanes(data@, 2));
    v
}

/// Every complete 4-byte lane of `data` as an `i32` of that bit pattern.
pub fn from_i32_le(data: &[u8]) -> (v: Vec<i32>)
    ensures
        vals_i32(v@) == unlanes(data@, 4),
{
    let n = data.len() / 4;
    assert(n * 4 <= data@.len()) by (nonlinear_arith)
        requires
            n == data@.len() / 4,
    ;
    let mut v: Vec<i32> = Vec::new();
    let mut i: usize = 0;
    let mut p: usize = 0;
    while i < n
        invariant
            n == data@.len() / 4,
            i <= n,
            p == i * 4,
            p + (n - i) * 4 <= data@.len(),
            data@.len() <= usize::MAX,
            v@.len() == i,
            forall|j: int| 0 <= j < i ==> (#[trigger] v@[j]) as u32 as int == le_at(data@, j * 4, 4),
        decreases n - i,
    {
        let u = le_u32_at(data, p);
        let x = u as i32;
        assert(x as u32 == u) by (bit_vector)
            requires
                x == u as i32,
        ;
        v.push(x);
        p = p + 4;
        i = i + 1;
    }
    assert(vals_i32(v@) =~= unlanes(data@, 4));
    v
}

/// Every complete 8-byte lane of `data` as an `i64` of that bit pattern.
pub fn from_i64_le(data: &[u8]) -> (v: Vec<i64>)
    ensures
        vals_i64(v@) == unlanes(data@, 8),
{
    let n = data.len() / 8;
    assert(n * 8 <= data@.len()) by (nonlinear_arith)
        requires
            n == data@.len() / 8,
    ;
    let mut v: Vec<i64> = Vec::new();
    let mut i: usize = 0;
    let mut p: usize = 0;
    while i < n
        invariant
            n == data@.len() / 8,
            i <= n,
            p == i * 8,
            p + (n - i) * 8 <= data@.len(),
            data@.len() <= usize::MAX,
            v@.len() == i,
            forall|j: int| 0 <= j < i ==> (#[trigger] v@[j]) as u64 as int == le_at(data@, j * 8, 8),
        decreases n - i,
    {
        let u = le_u64_at(data, p);
        let x = u as i64;
        assert(x as u64 == u) by (bit_vector)
            requires
                x == u as i64,
        ;
        v.push(x);
        p = p + 8;
        i = i + 1;
    }
    assert(vals_i64(v@) =~= unlanes(data@, 8));
    v
}

} // verus!
