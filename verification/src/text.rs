//! Decimal renderings of integers as UTF-8 text.
use vstd::prelude::*;

use crate::messages::utf8_string;
use crate::paths::lemma_ascii_byte_valid;
use vstd::utf8::{decode_utf8, valid_utf8};

verus! {

/// The ASCII decimal digits of `n`, most significant first, no leading zeros.
pub open spec fn decimal_bytes(n: nat) -> Seq<u8>
    decreases n,
{
    if n < 10 {
        seq![(0x30 + n) as u8]
    } else {
        decimal_bytes(n / 10).push((0x30 + n % 10) as u8)
    }
}

/// The characters of the decimal rendering of `n`.
pub open spec fn decimal(n: nat) -> Seq<char> {
    decode_utf8(decimal_bytes(n))
}

/// Decimal digits are ASCII, hence valid UTF-8.
pub proof fn lemma_decimal_valid(n: nat)
    ensures
        valid_utf8(decimal_bytes(n)),
        decimal_bytes(n).len() >= 1,
    decreases n,
{
    if n < 10 {
        lemma_ascii_byte_valid((0x30 + n) as u8);
    } else {
        lemma_decimal_valid(n / 10);
        lemma_ascii_byte_valid((0x30 + n % 10) as u8);
        vstd::utf8::valid_utf8_concat(decimal_bytes(n / 10), seq![(0x30 + n % 10) as u8]);
        assert(decimal_bytes(n / 10) + seq![(0x30 + n % 10) as u8] =~= decimal_bytes(n));
    }
}

/// The decimal digits of `n` as bytes.
pub fn decimal_vec(n: u64) -> (v: Vec<u8>)
    ensures
        v@ == decimal_bytes(n as nat),
    decreases n,
{
    if n < 10 {
        let mut v: Vec<u8> = Vec::new();
        v.push((0x30 + n) as u8);
        assert(v@ =~= decimal_bytes(n as nat));
        v
    } else {
        let mut v = decimal_vec(n / 10);
        v.push((0x30 + n % 10) as u8);
        v
    }
}

/// The decimal rendering of `n`.
pub fn decimal_string(n: u64) -> (s: String)
    ensures
        s@ == decimal(n as nat),
{
    let v = decimal_vec(n);
    proof {
        lemma_decimal_valid(n as nat);
    }
    match utf8_string(v) {
        Some(s) => s,
        None => String::new(),
    }
}

} // verus!
