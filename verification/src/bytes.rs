//! Small executable helpers over byte strings, with exact contracts.
//!
//! The whole engine works on raw bytes: methods, paths, header names and
//! values, bodies and wire payloads are all `Vec<u8>` / `&[u8]`, and the
//! specifications speak of their views as `Seq<u8>`.

use vstd::prelude::*;

verus! {

/// ASCII lower-casing of a single byte, used for case-insensitive header
/// lookup.
pub open spec fn lower_byte(b: u8) -> u8 {
    if 'A' as u8 <= b && b <= 'Z' as u8 {
        (b + 32) as u8
    } else {
        b
    }
}

/// ASCII lower-casing of a byte string.
pub open spec fn lower(s: Seq<u8>) -> Seq<u8> {
    s.map_values(|b: u8| lower_byte(b))
}

/// Executable ASCII lower-casing of a single byte.
pub fn lower_byte_exec(b: u8) -> (r: u8)
    ensures
        r == lower_byte(b),
{
    if 'A' as u8 <= b && b <= 'Z' as u8 {
        b + 32
    } else {
        b
    }
}

/// Byte-string equality.
pub fn bytes_eq(a: &[u8], b: &[u8]) -> (r: bool)
    ensures
        r == (a@ == b@),
{
    if a.len() != b.len() {
        assert(a@ != b@) by {
            assert(a@.len() != b@.len());
        }
        return false;
    }
    let mut i: usize = 0;
    while i < a.len()
        invariant
            0 <= i <= a.len(),
            a@.len() == b@.len(),
            forall|j: int| 0 <= j < i ==> a@[j] == b@[j],
        decreases a.len() - i,
    {
        if a[i] != b[i] {
            assert(a@ != b@);
            return false;
        }
        i = i + 1;
    }
    assert(a@ =~= b@);
    true
}

/// Case-insensitive byte-string equality (ASCII folding).
pub fn bytes_eq_nocase(a: &[u8], b: &[u8]) -> (r: bool)
    ensures
        r == (lower(a@) == lower(b@)),
{
    if a.len() != b.len() {
        assert(lower(a@) != lower(b@)) by {
            assert(lower(a@).len() != lower(b@).len());
        }
        return false;
    }
    let mut i: usize = 0;
    while i < a.len()
        invariant
            0 <= i <= a.len(),
            a@.len() == b@.len(),
            forall|j: int| 0 <= j < i ==> lower(a@)[j] == lower(b@)[j],
        decreases a.len() - i,
    {
        if lower_byte_exec(a[i]) != lower_byte_exec(b[i]) {
            assert(lower(a@)[i as int] != lower(b@)[i as int]);
            assert(lower(a@) != lower(b@));
            return false;
        }
        i = i + 1;
    }
    assert(lower(a@) =~= lower(b@));
    true
}

/// Whether `a` begins with `prefix`.
pub open spec fn spec_starts_with(a: Seq<u8>, prefix: Seq<u8>) -> bool {
    prefix.len() <= a.len() && a.subrange(0, prefix.len() as int) == prefix
}

/// Executable prefix test.
pub fn starts_with(a: &[u8], prefix: &[u8]) -> (r: bool)
    ensures
        r == spec_starts_with(a@, prefix@),
{
    if prefix.len() > a.len() {
        return false;
    }
    let mut i: usize = 0;
    while i < prefix.len()
        invariant
            0 <= i <= prefix.len(),
            prefix@.len() <= a@.len(),
            forall|j: int| 0 <= j < i ==> a@[j] == prefix@[j],
        decreases prefix.len() - i,
    {
        if a[i] != prefix[i] {
            assert(a@.subrange(0, prefix@.len() as int)[i as int] != prefix@[i as int]);
            return false;
        }
        i = i + 1;
    }
    assert(a@.subrange(0, prefix@.len() as int) =~= prefix@);
    true
}

/// Appends a byte slice to a vector.
pub fn extend_bytes(v: &mut Vec<u8>, s: &[u8])
    ensures
        final(v)@ == old(v)@ + s@,
{
    let mut i: usize = 0;
    while i < s.len()
        invariant
            0 <= i <= s.len(),
            v@ == old(v)@ + s@.subrange(0, i as int),
        decreases s.len() - i,
    {
        v.push(s[i]);
        assert(old(v)@ + s@.subrange(0, i as int) + seq![s@[i as int]] =~= old(v)@ + s@.subrange(
            0,
            i as int + 1,
        ));
        i = i + 1;
    }
    assert(old(v)@ + s@.subrange(0, s@.len() as int) =~= old(v)@ + s@);
}

/// Copies a byte slice into a fresh vector.
pub fn to_vec(s: &[u8]) -> (r: Vec<u8>)
    ensures
        r@ == s@,
{
    let mut v: Vec<u8> = Vec::new();
    extend_bytes(&mut v, s);
    assert(v@ =~= s@);
    v
}

/// A byte that the route grammar counts as part of a mock id: letters,
/// digits and the underscore.
pub open spec fn is_word_byte(b: u8) -> bool {
    ('0' as u8 <= b && b <= '9' as u8) || ('a' as u8 <= b && b <= 'z' as u8) || ('A' as u8 <= b
        && b <= 'Z' as u8) || b == '_' as u8
}

/// A non-empty byte string made only of word bytes.
pub open spec fn spec_is_word(s: Seq<u8>) -> bool {
    s.len() > 0 && forall|i: int| 0 <= i < s.len() ==> is_word_byte(s[i])
}

/// Executable test for `spec_is_word`.
pub fn is_word(s: &[u8]) -> (r: bool)
    ensures
        r == spec_is_word(s@),
{
    if s.len() == 0 {
        return false;
    }
    let mut i: usize = 0;
    while i < s.len()
        invariant
            0 <= i <= s.len(),
            s@.len() > 0,
            forall|j: int| 0 <= j < i ==> is_word_byte(s@[j]),
        decreases s.len() - i,
    {
        let b = s[i];
        let word = ('0' as u8 <= b && b <= '9' as u8) || ('a' as u8 <= b && b <= 'z' as u8) || (
        'A' as u8 <= b && b <= 'Z' as u8) || b == '_' as u8;
        if !word {
            assert(!is_word_byte(s@[i as int]));
            return false;
        }
        i = i + 1;
    }
    true
}

/// Returns the bytes of `s` from `from` (inclusive) to the end.
pub fn suffix_from(s: &[u8], from: usize) -> (r: Vec<u8>)
    requires
        from <= s@.len(),
    ensures
        r@ == s@.subrange(from as int, s@.len() as int),
{
    let mut v: Vec<u8> = Vec::new();
    let mut i: usize = from;
    while i < s.len()
        invariant
            from <= i <= s.len(),
            v@ == s@.subrange(from as int, i as int),
        decreases s.len() - i,
    {
        v.push(s[i]);
        assert(s@.subrange(from as int, i as int) + seq![s@[i as int]] =~= s@.subrange(
            from as int,
            i as int + 1,
        ));
        i = i + 1;
    }
    v
}

} // verus!
