//! Jenkins lookup3 (`hashlittle`), public-domain algorithm.
//! HDF5 checksums every superblock v2 and object-header v2 chunk with initval 0.
use vstd::prelude::*;

use crate::buf::le32;

verus! {

/// Three-word hash state `(a, b, c)`.
pub type HashState = (u32, u32, u32);

/// Rotate `x` left by `k` bits (`0 < k < 32`).
pub open spec fn spec_rotl(x: u32, k: u32) -> u32 {
    (x << k) | (x >> (32 - k) as u32)
}

/// Jenkins' `mix` on a state.
pub open spec fn spec_mix(s: HashState) -> HashState {
    let (a, b, c) = s;
    let a = a.wrapping_sub(c);
    let a = a ^ spec_rotl(c, 4);
    let c = c.wrapping_add(b);
    let b = b.wrapping_sub(a);
    let b = b ^ spec_rotl(a, 6);
    let a = a.wrapping_add(c);
    let c = c.wrapping_sub(b);
    let c = c ^ spec_rotl(b, 8);
    let b = b.wrapping_add(a);
    let a = a.wrapping_sub(c);
    let a = a ^ spec_rotl(c, 16);
    let c = c.wrapping_add(b);
    let b = b.wrapping_sub(a);
    let b = b ^ spec_rotl(a, 19);
    let a = a.wrapping_add(c);
    let c = c.wrapping_sub(b);
    let c = c ^ spec_rotl(b, 4);
    let b = b.wrapping_add(a);
    (a, b, c)
}

/// Jenkins' `final` on a state.
pub open spec fn spec_final(s: HashState) -> HashState {
    let (a, b, c) = s;
    let c = c ^ b;
    let c = c.wrapping_sub(spec_rotl(b, 14));
    let a = a ^ c;
    let a = a.wrapping_sub(spec_rotl(c, 11));
    let b = b ^ a;
    let b = b.wrapping_sub(spec_rotl(a, 25));
    let c = c ^ b;
    let c = c.wrapping_sub(spec_rotl(b, 16));
    let a = a ^ c;
    let a = a.wrapping_sub(spec_rotl(c, 4));
    let b = b ^ a;
    let b = b.wrapping_sub(spec_rotl(a, 14));
    let c = c ^ b;
    let c = c.wrapping_sub(spec_rotl(b, 24));
    (a, b, c)
}

/// Byte `i` of `d`, or zero past its end.
pub open spec fn byte_or0(d: Seq<u8>, i: int) -> u8 {
    if 0 <= i < d.len() {
        d[i]
    } else {
        0
    }
}

/// Little-endian word at `i`, zero-padded past the end of `d`.
pub open spec fn word_padded(d: Seq<u8>, i: int) -> u32 {
    le32(byte_or0(d, i), byte_or0(d, i + 1), byte_or0(d, i + 2), byte_or0(d, i + 3)) as u32
}

/// Add the three words of the 12-byte block at `off` to the state.
pub open spec fn add_block(d: Seq<u8>, off: int, s: HashState) -> HashState {
    (
        s.0.wrapping_add(word_padded(d, off)),
        s.1.wrapping_add(word_padded(d, off + 4)),
        s.2.wrapping_add(word_padded(d, off + 8)),
    )
}

/// Consume 12-byte blocks while more than 12 bytes remain from `off`.
pub open spec fn spec_blocks(d: Seq<u8>, off: int, s: HashState) -> (HashState, int)
    decreases d.len() - off,
{
    if 0 <= off && d.len() - off > 12 {
        spec_blocks(d, off + 12, spec_mix(add_block(d, off, s)))
    } else {
        (s, off)
    }
}

/// Initial state for `len` bytes and `initval`.
pub open spec fn spec_init(len: nat, initval: u32) -> u32 {
    0xdeadbeefu32.wrapping_add(len as u32).wrapping_add(initval)
}

/// Jenkins lookup3 `hashlittle` of `d` with `initval`: blocks of 12 bytes are
/// mixed in; the last block (1 to 12 bytes, zero-padded) is added and passed
/// through the final mix; an empty input returns `c` unmixed.
pub open spec fn spec_lookup3(d: Seq<u8>, initval: u32) -> u32 {
    let i = spec_init(d.len(), initval);
    let (s, off) = spec_blocks(d, 0, (i, i, i));
    if off == d.len() {
        s.2
    } else {
        spec_final(add_block(d, off, s)).2
    }
}

fn rotl(x: u32, k: u32) -> (r: u32)
    requires
        0 < k < 32,
    ensures
        r == spec_rotl(x, k),
{
    (x << k) | (x >> (32 - k))
}

/// Mix three 32-bit words. Matches Jenkins' `mix` macro.
fn mix(a: &mut u32, b: &mut u32, c: &mut u32)
    ensures
        (*final(a), *final(b), *final(c)) == spec_mix((*old(a), *old(b), *old(c))),
{
    *a = a.wrapping_sub(*c);
    *a = *a ^ rotl(*c, 4);
    *c = c.wrapping_add(*b);
    *b = b.wrapping_sub(*a);
    *b = *b ^ rotl(*a, 6);
    *a = a.wrapping_add(*c);
    *c = c.wrapping_sub(*b);
    *c = *c ^ rotl(*b, 8);
    *b = b.wrapping_add(*a);
    *a = a.wrapping_sub(*c);
    *a = *a ^ rotl(*c, 16);
    *c = c.wrapping_add(*b);
    *b = b.wrapping_sub(*a);
    *b = *b ^ rotl(*a, 19);
    *a = a.wrapping_add(*c);
    *c = c.wrapping_sub(*b);
    *c = *c ^ rotl(*b, 4);
    *b = b.wrapping_add(*a);
}

/// Final mix. Matches Jenkins' `final` macro.
fn final_mix(a: &mut u32, b: &mut u32, c: &mut u32)
    ensures
        (*final(a), *final(b), *final(c)) == spec_final((*old(a), *old(b), *old(c))),
{
    *c = *c ^ *b;
    *c = c.wrapping_sub(rotl(*b, 14));
    *a = *a ^ *c;
    *a = a.wrapping_sub(rotl(*c, 11));
    *b = *b ^ *a;
    *b = b.wrapping_sub(rotl(*a, 25));
    *c = *c ^ *b;
    *c = c.wrapping_sub(rotl(*b, 16));
    *a = *a ^ *c;
    *a = a.wrapping_sub(rotl(*c, 4));
    *b = *b ^ *a;
    *b = b.wrapping_sub(rotl(*a, 14));
    *c = *c ^ *b;
    *c = c.wrapping_sub(rotl(*b, 24));
}

/// Little-endian word at `base + j` of `k`, zero-padded past its end.
fn pack4(k: &[u8], base: usize, j: usize) -> (w: u32)
    requires
        base <= k@.len(),
        j <= 8,
    ensures
        w == word_padded(k@, base + j),
{
    let rem = k.len() - base;
    let b0 = if j < rem { k[base + j] } else { 0 };
    let b1 = if j + 1 < rem { k[base + j + 1] } else { 0 };
    let b2 = if j + 2 < rem { k[base + j + 2] } else { 0 };
    let b3 = if j + 3 < rem { k[base + j + 3] } else { 0 };
    b0 as u32 + 256 * (b1 as u32) + 65536 * (b2 as u32 + 256 * (b3 as u32))
}

/// Jenkins lookup3 over `data`. HDF5 uses `initval = 0`.
///
/// Zero-length input returns `0xdeadbeef + initval` with no mixing.
pub fn lookup3(data: &[u8], initval: u32) -> (h: u32)
    ensures
        h == spec_lookup3(data@, initval),
        data@.len() == 0 ==> h == 0xdeadbeefu32.wrapping_add(initval),
{
    let len = data.len();
    let mut a = 0xdeadbeefu32.wrapping_add(len as u32).wrapping_add(initval);
    let mut b = a;
    let mut c = a;
    let mut off: usize = 0;
    let ghost i0 = a;
    while len - off > 12
        invariant
            off <= len == data@.len(),
            spec_blocks(data@, off as int, (a, b, c)) == spec_blocks(data@, 0, (i0, i0, i0)),
        decreases len - off,
    {
        a = a.wrapping_add(pack4(data, off, 0));
        b = b.wrapping_add(pack4(data, off, 4));
        c = c.wrapping_add(pack4(data, off, 8));
        mix(&mut a, &mut b, &mut c);
        off = off + 12;
    }
    if off == len {
        return c;
    }
    a = a.wrapping_add(pack4(data, off, 0));
    b = b.wrapping_add(pack4(data, off, 4));
    c = c.wrapping_add(pack4(data, off, 8));
    final_mix(&mut a, &mut b, &mut c);
    c
}

} // verus!
