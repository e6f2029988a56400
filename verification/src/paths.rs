//! Paths as UTF-8 byte strings: normalization, ordering, sorted tables.
use vstd::prelude::*;

use crate::consts::HDF5_MAX_NAME_LEN;
use crate::error::{HDF5Error, Result};

use vstd::string::StringSliceAdditionalSpecFns;
use vstd::utf8::valid_utf8;

verus! {

/// The separator byte `/`.
pub open spec fn slash() -> u8 {
    0x2f
}

/// Byte-wise lexicographic order (the order of `str` and `String`).
pub open spec fn lex_lt(a: Seq<u8>, b: Seq<u8>) -> bool
    decreases a.len(),
{
    if a.len() == 0 {
        b.len() > 0
    } else if b.len() == 0 {
        false
    } else if a[0] < b[0] {
        true
    } else if a[0] > b[0] {
        false
    } else {
        lex_lt(a.drop_first(), b.drop_first())
    }
}

/// `lex_lt` is irreflexive.
pub proof fn lemma_lex_irrefl(a: Seq<u8>)
    ensures
        !lex_lt(a, a),
    decreases a.len(),
{
    if a.len() > 0 {
        lemma_lex_irrefl(a.drop_first());
    }
}

/// `lex_lt` is transitive.
pub proof fn lemma_lex_trans(a: Seq<u8>, b: Seq<u8>, c: Seq<u8>)
    requires
        lex_lt(a, b),
        lex_lt(b, c),
    ensures
        lex_lt(a, c),
    decreases a.len(),
{
    if a.len() > 0 && b.len() > 0 && c.len() > 0 && a[0] == b[0] && b[0] == c[0] {
        lemma_lex_trans(a.drop_first(), b.drop_first(), c.drop_first());
    }
}

/// Distinct sequences are ordered one way or the other, never both.
pub proof fn lemma_lex_total(a: Seq<u8>, b: Seq<u8>)
    ensures
        a != b ==> (lex_lt(a, b) || lex_lt(b, a)),
        !(lex_lt(a, b) && lex_lt(b, a)),
    decreases a.len(),
{
    if a.len() > 0 && b.len() > 0 {
        lemma_lex_total(a.drop_first(), b.drop_first());
        if a[0] == b[0] && a.drop_first() == b.drop_first() {
            assert(a =~= seq![a[0]] + a.drop_first());
            assert(b =~= seq![b[0]] + b.drop_first());
        }
    } else if a.len() == 0 && b.len() == 0 {
        assert(a =~= b);
    }
}

/// Whether two byte strings are equal.
pub fn bytes_eq(a: &[u8], b: &[u8]) -> (r: bool)
    ensures
        r == (a@ == b@),
{
    if a.len() != b.len() {
        return false;
    }
    let mut i: usize = 0;
    while i < a.len()
        invariant
            i <= a@.len() == b@.len(),
            forall|j: int| 0 <= j < i ==> a@[j] == b@[j],
        decreases a@.len() - i,
    {
        if a[i] != b[i] {
            return false;
        }
        i = i + 1;
    }
    assert(a@ =~= b@);
    true
}

/// Whether `a` sorts strictly before `b`.
pub fn lex_less(a: &[u8], b: &[u8]) -> (r: bool)
    ensures
        r == lex_lt(a@, b@),
{
    let mut i: usize = 0;
    assert(a@.subrange(0, a@.len() as int) =~= a@);
    assert(b@.subrange(0, b@.len() as int) =~= b@);
    while i < a.len() && i < b.len() && a[i] == b[i]
        invariant
            i <= a@.len(),
            i <= b@.len(),
            lex_lt(a@, b@) == lex_lt(a@.subrange(i as int, a@.len() as int), b@.subrange(i as int, b@.len() as int)),
        decreases a@.len() - i,
    {
        proof {
            let sa = a@.subrange(i as int, a@.len() as int);
            let sb = b@.subrange(i as int, b@.len() as int);
            assert(sa.drop_first() =~= a@.subrange(i + 1, a@.len() as int));
            assert(sb.drop_first() =~= b@.subrange(i + 1, b@.len() as int));
        }
        i = i + 1;
    }
    if i == a.len() {
        i < b.len()
    } else if i == b.len() {
        false
    } else {
        a[i] < b[i]
    }
}

/// Index of the first `/` in `s` at or after `i`, or `s.len()`.
pub open spec fn next_slash(s: Seq<u8>, i: int) -> int
    decreases s.len() - i,
{
    if i < 0 || i >= s.len() {
        s.len() as int
    } else if s[i] == slash() {
        i
    } else {
        next_slash(s, i + 1)
    }
}

/// `next_slash` stays within bounds and skips only non-slash bytes.
pub proof fn lemma_next_slash(s: Seq<u8>, i: int)
    requires
        0 <= i <= s.len(),
    ensures
        i <= next_slash(s, i) <= s.len(),
        next_slash(s, i) < s.len() ==> s[next_slash(s, i)] == slash(),
        forall|j: int| i <= j < next_slash(s, i) ==> s[j] != slash(),
    decreases s.len() - i,
{
    if i < s.len() && s[i] != slash() {
        lemma_next_slash(s, i + 1);
    }
}

/// The component `.` (one dot).
pub open spec fn is_dot(c: Seq<u8>) -> bool {
    c.len() == 1 && c[0] == 0x2e
}

/// The component `..` (two dots).
pub open spec fn is_dotdot(c: Seq<u8>) -> bool {
    c.len() == 2 && c[0] == 0x2e && c[1] == 0x2e
}

/// The components of `s` from position `start` on (the maximal runs between
/// `/` bytes), empty ones and `.` dropped; `..` is rejected, as is a component
/// longer than `HDF5_MAX_NAME_LEN`, the first offending one deciding the error.
pub open spec fn norm_from(s: Seq<u8>, start: int) -> Result<Seq<Seq<u8>>>
    decreases s.len() - start + 1,
{
    if start < 0 || start > s.len() {
        Ok(Seq::empty())
    } else {
        let e = next_slash(s, start);
        proof {
            lemma_next_slash(s, start);
        }
        let c = s.subrange(start, e);
        if c.len() == 0 || is_dot(c) {
            if e < s.len() {
                norm_from(s, e + 1)
            } else {
                Ok(Seq::empty())
            }
        } else if is_dotdot(c) {
            Err(HDF5Error::InvalidHeader)
        } else if c.len() > HDF5_MAX_NAME_LEN {
            Err(HDF5Error::NameTooLong)
        } else if e < s.len() {
            match norm_from(s, e + 1) {
                Ok(rest) => Ok(seq![c] + rest),
                Err(err) => Err(err),
            }
        } else {
            Ok(seq![c])
        }
    }
}

/// Components joined with `/`.
pub open spec fn join(parts: Seq<Seq<u8>>) -> Seq<u8>
    decreases parts.len(),
{
    if parts.len() == 0 {
        Seq::empty()
    } else if parts.len() == 1 {
        parts[0]
    } else {
        join(parts.drop_last()) + seq![slash()] + parts.last()
    }
}

/// Normal form of a path: its kept components joined with `/` (no leading,
/// trailing or doubled `/`, no `.`).
pub open spec fn spec_normalize(s: Seq<u8>) -> Result<Seq<u8>> {
    match norm_from(s, 0) {
        Ok(parts) => Ok(join(parts)),
        Err(e) => Err(e),
    }
}

/// A lone ASCII byte is valid UTF-8.
pub proof fn lemma_ascii_byte_valid(b: u8)
    requires
        b < 0x80,
    ensures
        valid_utf8(seq![b]),
{
    let s = seq![b];
    reveal_with_fuel(valid_utf8, 2);
    assert(s.subrange(1, 1) =~= Seq::<u8>::empty());
}

/// A valid UTF-8 sequence that starts with an ASCII byte stays valid without it.
pub proof fn lemma_valid_drop_ascii(s: Seq<u8>)
    requires
        valid_utf8(s),
        s.len() > 0,
        s[0] < 0x80,
    ensures
        valid_utf8(s.drop_first()),
{
    assert(s.subrange(1, s.len() as int) =~= s.drop_first());
}

/// Splitting a valid sequence at a `/` gives a valid prefix and a valid rest after the `/`.
pub proof fn lemma_split_at_slash(s: Seq<u8>, k: int)
    requires
        valid_utf8(s),
        0 <= k <= s.len(),
        k < s.len() ==> s[k] == slash(),
    ensures
        valid_utf8(s.subrange(0, k)),
        k < s.len() ==> valid_utf8(s.subrange(k + 1, s.len() as int)),
{
    if k == s.len() {
        assert(s.subrange(0, k) =~= s);
    } else {
        vstd::utf8::is_char_boundary_iff_not_is_continuation_byte(s, k);
        vstd::utf8::valid_utf8_split(s, k);
        let t = s.subrange(k, s.len() as int);
        lemma_valid_drop_ascii(t);
        assert(t.drop_first() =~= s.subrange(k + 1, s.len() as int));
    }
}

/// Joining valid parts with `/` gives valid UTF-8.
pub proof fn lemma_join_valid(parts: Seq<Seq<u8>>)
    requires
        forall|i: int| 0 <= i < parts.len() ==> valid_utf8(#[trigger] parts[i]),
    ensures
        valid_utf8(join(parts)),
    decreases parts.len(),
{
    if parts.len() == 0 {
        reveal_with_fuel(valid_utf8, 1);
    } else if parts.len() > 1 {
        lemma_join_valid(parts.drop_last());
        lemma_ascii_byte_valid(slash());
        vstd::utf8::valid_utf8_concat(join(parts.drop_last()), seq![slash()]);
        vstd::utf8::valid_utf8_concat(join(parts.drop_last()) + seq![slash()], parts.last());
    }
}


/// `next_slash` on a suffix is `next_slash` on the whole, shifted.
proof fn lemma_next_slash_shift(s: Seq<u8>, a: int, j: int)
    requires
        0 <= a <= j <= s.len(),
    ensures
        next_slash(s.subrange(a, s.len() as int), j - a) + a == next_slash(s, j),
    decreases s.len() - j,
{
    if j < s.len() && s[j] != slash() {
        lemma_next_slash_shift(s, a, j + 1);
    }
}

/// Index of the next `/` at or after `start`, or the length.
fn find_slash(s: &[u8], start: usize) -> (e: usize)
    requires
        start <= s@.len(),
    ensures
        e == next_slash(s@, start as int),
        start <= e <= s@.len(),
{
    let mut i = start;
    while i < s.len() && s[i] != 0x2f
        invariant
            start <= i <= s@.len(),
            next_slash(s@, start as int) == next_slash(s@, i as int),
        decreases s@.len() - i,
    {
        i = i + 1;
    }
    i
}

/// Normalize a path given as bytes.
pub fn normalize_bytes(path: &[u8]) -> (res: Result<Vec<u8>>)
    ensures
        match spec_normalize(path@) {
            Ok(p) => res matches Ok(v) && v@ == p,
            Err(e) => res matches Err(e2) && e2 == e,
        },
        valid_utf8(path@) ==> (res matches Ok(v) ==> valid_utf8(v@)),
{
    let s = path;
    let mut out: Vec<u8> = Vec::new();
    let ghost mut parts: Seq<Seq<u8>> = Seq::empty();
    let mut start: usize = 0;
    let mut nparts: usize = 0;
    assert(s@.subrange(0, s@.len() as int) =~= s@);
    loop
        invariant_except_break
            nparts <= start,
            norm_from(s@, 0) == match norm_from(s@, start as int) {
                Ok(r) => Ok(parts + r),
                Err(e) => Err::<Seq<Seq<u8>>, HDF5Error>(e),
            },
        invariant
            start <= s@.len(),
            s@ == path@,
            nparts == parts.len(),
            out@ == join(parts),
            valid_utf8(s@) ==> valid_utf8(s@.subrange(start as int, s@.len() as int)),
            valid_utf8(s@) ==> forall|i: int| 0 <= i < parts.len() ==> valid_utf8(#[trigger] parts[i]),
        ensures
            norm_from(s@, 0) == Ok::<Seq<Seq<u8>>, HDF5Error>(parts),
            out@ == join(parts),
            valid_utf8(s@) ==> forall|i: int| 0 <= i < parts.len() ==> valid_utf8(#[trigger] parts[i]),
        decreases s@.len() - start,
    {
        let ghost p_before = parts;
        let e = find_slash(s, start);
        let c = &s[start..e];
        let ghost cv = c@;
        proof {
            lemma_next_slash(s@, start as int);
            if valid_utf8(s@) {
                let t = s@.subrange(start as int, s@.len() as int);
                assert(next_slash(s@, start as int) - start == next_slash(t, 0)) by {
                    lemma_next_slash_shift(s@, start as int, start as int);
                }
                lemma_split_at_slash(t, e - start);
                assert(t.subrange(0, e - start) =~= cv);
                if e < s@.len() {
                    assert(t.subrange(e - start + 1, t.len() as int) =~= s@.subrange(e + 1, s@.len() as int));
                }
            }
        }
        let n = c.len();
        let is_dot = n == 1 && c[0] == 0x2e;
        let is_dotdot = n == 2 && c[0] == 0x2e && c[1] == 0x2e;
        if n == 0 || is_dot {
        } else if is_dotdot {
            return Err(HDF5Error::InvalidHeader);
        } else if n > HDF5_MAX_NAME_LEN {
            return Err(HDF5Error::NameTooLong);
        } else {
            let ghost old_parts = parts;
            if nparts > 0 {
                out.push(0x2f);
            }
            nparts = nparts + 1;
            let ghost before = out@;
            crate::messages::extend_bytes(&mut out, c);
            proof {
                parts = parts.push(cv);
                assert(parts.drop_last() =~= old_parts);
                if old_parts.len() == 0 {
                    assert(out@ =~= join(parts));
                } else {
                    assert(out@ =~= join(parts));
                }
                if valid_utf8(s@) {
                    assert forall|i: int| 0 <= i < parts.len() implies valid_utf8(#[trigger] parts[i]) by {
                        if i < old_parts.len() {
                            assert(parts[i] == old_parts[i]);
                        }
                    }
                }
            }
        }
        proof {
            let added = if parts.len() > p_before.len() { seq![cv] } else { Seq::<Seq<u8>>::empty() };
            assert(parts =~= p_before + added);
            if e < s@.len() {
                match norm_from(s@, e + 1) {
                    Ok(r) => {
                        assert(p_before + (added + r) =~= parts + r);
                    },
                    Err(_) => {},
                }
            } else {
                assert(p_before + added =~= parts);
            }
        }
        if e == s.len() {
            break;
        }
        start = e + 1;
    }
    proof {
        if valid_utf8(s@) {
            lemma_join_valid(parts);
        }
    }
    Ok(out)
}

/// A component kept by normalization: not empty, no `/`, not `.` or `..`,
/// at most `HDF5_MAX_NAME_LEN` bytes.
pub open spec fn good_component(c: Seq<u8>) -> bool {
    &&& c.len() > 0
    &&& forall|i: int| 0 <= i < c.len() ==> c[i] != slash()
    &&& !is_dot(c)
    &&& !is_dotdot(c)
    &&& c.len() <= HDF5_MAX_NAME_LEN
}

/// The components normalization keeps are good ones.
pub proof fn lemma_norm_parts_good(s: Seq<u8>, start: int)
    ensures
        norm_from(s, start) matches Ok(parts) ==> forall|i: int| 0 <= i < parts.len() ==> good_component(#[trigger] parts[i]),
    decreases s.len() - start + 1,
{
    if 0 <= start <= s.len() {
        let e = next_slash(s, start);
        lemma_next_slash(s, start);
        let c = s.subrange(start, e);
        if e < s.len() {
            lemma_norm_parts_good(s, e + 1);
        }
        if norm_from(s, start) is Ok && !(c.len() == 0 || is_dot(c)) && !is_dotdot(c) && c.len() <= HDF5_MAX_NAME_LEN {
            assert(good_component(c));
            let parts = norm_from(s, start)->Ok_0;
            if e < s.len() {
                let rest = norm_from(s, e + 1)->Ok_0;
                assert(parts == seq![c] + rest);
                assert forall|i: int| 0 <= i < parts.len() implies good_component(#[trigger] parts[i]) by {
                    if i > 0 {
                        assert(parts[i] == rest[i - 1]);
                    }
                }
            }
        }
    }
}

/// Normalizing from position `j` depends only on the bytes from `a` on.
proof fn lemma_norm_shift(s: Seq<u8>, a: int, j: int)
    requires
        0 <= a <= j <= s.len(),
    ensures
        norm_from(s.subrange(a, s.len() as int), j - a) == norm_from(s, j),
    decreases s.len() - j,
{
    let t = s.subrange(a, s.len() as int);
    let e = next_slash(s, j);
    lemma_next_slash(s, j);
    lemma_next_slash_shift(s, a, j);
    assert(next_slash(t, j - a) == e - a);
    assert(t.subrange(j - a, e - a) =~= s.subrange(j, e));
    if e < s.len() {
        lemma_norm_shift(s, a, e + 1);
    }
}

/// The first `/` at or after `j` is at `k` when none lies between.
proof fn lemma_next_slash_at(s: Seq<u8>, j: int, k: int)
    requires
        0 <= j <= k < s.len(),
        s[k] == slash(),
        forall|i: int| j <= i < k ==> s[i] != slash(),
    ensures
        next_slash(s, j) == k,
    decreases k - j,
{
    if j < k {
        lemma_next_slash_at(s, j + 1, k);
    }
}

/// Without `/`, the next one is the end.
proof fn lemma_next_slash_none(s: Seq<u8>, j: int)
    requires
        0 <= j <= s.len(),
        forall|i: int| j <= i < s.len() ==> s[i] != slash(),
    ensures
        next_slash(s, j) == s.len(),
    decreases s.len() - j,
{
    if j < s.len() {
        lemma_next_slash_none(s, j + 1);
    }
}

/// Joining a first component in front of more.
proof fn lemma_join_front(c: Seq<u8>, rest: Seq<Seq<u8>>)
    requires
        rest.len() > 0,
    ensures
        join(seq![c] + rest) == c + seq![slash()] + join(rest),
    decreases rest.len(),
{
    let all = seq![c] + rest;
    if rest.len() == 1 {
        assert(all.drop_last() =~= seq![c]);
        assert(all.last() == rest[0]);
        assert(join(seq![c]) == c);
        assert(join(rest) == rest[0]);
        assert(join(all) == join(all.drop_last()) + seq![slash()] + all.last());
    } else {
        lemma_join_front(c, rest.drop_last());
        assert(all.drop_last() =~= seq![c] + rest.drop_last());
        assert(all.last() == rest.last());
        assert(join(all) == join(all.drop_last()) + seq![slash()] + all.last());
        assert(join(rest) == join(rest.drop_last()) + seq![slash()] + rest.last());
        assert(join(all) =~= c + seq![slash()] + join(rest));
    }
}

/// Good components joined with `/` normalize to themselves.
pub proof fn lemma_norm_join(parts: Seq<Seq<u8>>)
    requires
        forall|i: int| 0 <= i < parts.len() ==> good_component(#[trigger] parts[i]),
    ensures
        norm_from(join(parts), 0) == Ok::<Seq<Seq<u8>>, HDF5Error>(parts),
    decreases parts.len(),
{
    let s = join(parts);
    if parts.len() == 0 {
        assert(s.len() == 0);
        assert(next_slash(s, 0) == 0);
        assert(s.subrange(0, 0) =~= Seq::<u8>::empty());
        assert(parts =~= Seq::<Seq<u8>>::empty());
    } else if parts.len() == 1 {
        let c = parts[0];
        assert(good_component(c));
        assert(s == c);
        lemma_next_slash_none(s, 0);
        assert(s.subrange(0, s.len() as int) =~= c);
        assert(parts =~= seq![c]);
    } else {
        let c = parts[0];
        let rest = parts.drop_first();
        assert(parts =~= seq![c] + rest);
        assert(good_component(c));
        lemma_join_front(c, rest);
        assert(s == c + seq![slash()] + join(rest));
        assert(s[c.len() as int] == slash());
        lemma_next_slash_at(s, 0, c.len() as int);
        assert(s.subrange(0, c.len() as int) =~= c);
        assert forall|i: int| 0 <= i < rest.len() implies good_component(#[trigger] rest[i]) by {
            assert(rest[i] == parts[i + 1]);
        }
        lemma_norm_join(rest);
        lemma_norm_shift(s, c.len() + 1int, c.len() + 1int);
        assert(s.subrange(c.len() + 1int, s.len() as int) =~= join(rest));
    }
}

/// Normalizing a normal form changes nothing: the normal form of a path is
/// its own normal form.
pub proof fn law_normalize_idempotent(s: Seq<u8>)
    requires
        spec_normalize(s) is Ok,
    ensures
        spec_normalize(spec_normalize(s)->Ok_0) == spec_normalize(s),
{
    lemma_norm_parts_good(s, 0);
    let parts = norm_from(s, 0)->Ok_0;
    lemma_norm_join(parts);
}

/// The normal form of a path is its good components (non-empty, no `/`,
/// not `.` or `..`, at most `HDF5_MAX_NAME_LEN` bytes) joined with single
/// `/` bytes: it neither starts nor ends with `/`.
pub proof fn law_normalize_shape(s: Seq<u8>)
    requires
        spec_normalize(s) is Ok,
    ensures
        norm_from(s, 0) is Ok,
        spec_normalize(s)->Ok_0 == join(norm_from(s, 0)->Ok_0),
        forall|i: int|
            0 <= i < norm_from(s, 0)->Ok_0.len() ==> good_component(#[trigger] norm_from(s, 0)->Ok_0[i]),
        spec_normalize(s)->Ok_0.len() > 0 ==> spec_normalize(s)->Ok_0[0] != slash() && spec_normalize(s)->Ok_0.last()
            != slash(),
{
    lemma_norm_parts_good(s, 0);
    let parts = norm_from(s, 0)->Ok_0;
    if parts.len() > 0 {
        lemma_join_ends(parts);
    }
}

/// Good components joined: the first byte is the first component's, the
/// last byte the last component's.
proof fn lemma_join_ends(parts: Seq<Seq<u8>>)
    requires
        parts.len() > 0,
        forall|i: int| 0 <= i < parts.len() ==> good_component(#[trigger] parts[i]),
    ensures
        join(parts).len() > 0,
        join(parts)[0] == parts[0][0],
        join(parts).last() == parts.last().last(),
        join(parts)[0] != slash(),
        join(parts).last() != slash(),
{
    assert(good_component(parts[0]));
    assert(good_component(parts.last()));
    assert(parts.last()[parts.last().len() - 1] != slash());
    if parts.len() > 1 {
        let rest = parts.drop_first();
        assert(parts =~= seq![parts[0]] + rest);
        lemma_join_front(parts[0], rest);
        assert forall|i: int| 0 <= i < parts.drop_last().len() implies good_component(
            #[trigger] parts.drop_last()[i],
        ) by {
            assert(parts.drop_last()[i] == parts[i]);
        }
    }
}

/// The components kept from valid UTF-8 are valid UTF-8.
proof fn lemma_norm_parts_valid(s: Seq<u8>, start: int)
    requires
        0 <= start <= s.len(),
        valid_utf8(s.subrange(start, s.len() as int)),
    ensures
        norm_from(s, start) matches Ok(parts) ==> forall|i: int| 0 <= i < parts.len() ==> valid_utf8(#[trigger] parts[i]),
    decreases s.len() - start + 1,
{
    let e = next_slash(s, start);
    lemma_next_slash(s, start);
    let t = s.subrange(start, s.len() as int);
    lemma_next_slash_shift(s, start, start);
    assert(next_slash(t, 0) == e - start);
    lemma_next_slash(t, 0);
    lemma_split_at_slash(t, e - start);
    let c = s.subrange(start, e);
    assert(t.subrange(0, e - start) =~= c);
    if e < s.len() {
        assert(t.subrange(e - start + 1, t.len() as int) =~= s.subrange(e + 1, s.len() as int));
        lemma_norm_parts_valid(s, e + 1);
    }
    if norm_from(s, start) is Ok && !(c.len() == 0 || is_dot(c)) && !is_dotdot(c) && c.len() <= HDF5_MAX_NAME_LEN {
        let parts = norm_from(s, start)->Ok_0;
        if e < s.len() {
            let rest = norm_from(s, e + 1)->Ok_0;
            assert(parts == seq![c] + rest);
            assert forall|i: int| 0 <= i < parts.len() implies valid_utf8(#[trigger] parts[i]) by {
                if i > 0 {
                    assert(parts[i] == rest[i - 1]);
                }
            }
        }
    }
}

/// The normal form of a valid UTF-8 path is valid UTF-8.
pub proof fn lemma_normalize_valid(s: Seq<u8>)
    requires
        valid_utf8(s),
        spec_normalize(s) is Ok,
    ensures
        valid_utf8(spec_normalize(s)->Ok_0),
{
    assert(s.subrange(0, s.len() as int) =~= s);
    lemma_norm_parts_valid(s, 0);
    lemma_join_valid(norm_from(s, 0)->Ok_0);
}

} // verus!
