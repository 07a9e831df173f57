//! Byte- and string-level primitives shared by the whole library.
//!
//! Script text is handled as UTF-8 bytes: every comparison below is a
//! byte comparison, which for `&str` operands is exactly what `str`'s own
//! `==` and `starts_with` do.

use vstd::prelude::*;
use vstd::string::StringSliceAdditionalSpecFns;

verus! {

/// `p` is a byte prefix of `s`.
pub open spec fn bytes_start_with(s: Seq<u8>, p: Seq<u8>) -> bool {
    p.len() <= s.len() && s.subrange(0, p.len() as int) == p
}

/// `s` contains the byte `b`.
pub open spec fn has_byte(s: Seq<u8>, b: u8) -> bool {
    exists|i: int| 0 <= i < s.len() && s[i] == b
}

/// The index of the first occurrence of `b` in `s` at or after `from`,
/// or `s.len()` when there is none.
pub open spec fn find_byte_from(s: Seq<u8>, b: u8, from: int) -> int
    decreases s.len() - from,
{
    if from >= s.len() {
        s.len() as int
    } else if s[from] == b {
        from
    } else {
        find_byte_from(s, b, from + 1)
    }
}

/// Facts about `find_byte_from`: it lands in range, every byte it skips
/// differs from `b`, and (below the end) it points at `b`.
pub proof fn lemma_find_byte_from(s: Seq<u8>, b: u8, from: int)
    requires
        0 <= from <= s.len(),
    ensures
        from <= find_byte_from(s, b, from) <= s.len(),
        forall|k: int| from <= k < find_byte_from(s, b, from) ==> s[k] != b,
        find_byte_from(s, b, from) < s.len() ==> s[find_byte_from(s, b, from)] == b,
    decreases s.len() - from,
{
    if from < s.len() && s[from] != b {
        lemma_find_byte_from(s, b, from + 1);
    }
}

/// Byte-wise equality of two slices.
pub fn slice_eq(a: &[u8], b: &[u8]) -> (r: bool)
    ensures
        r == (a@ == b@),
{
    if a.len() != b.len() {
        return false;
    }
    let mut i: usize = 0;
    while i < a.len()
        invariant
            a@.len() == b@.len(),
            i <= a@.len(),
            forall|k: int| 0 <= k < i ==> a@[k] == b@[k],
        decreases a@.len() - i,
    {
        if a[i] != b[i] {
            return false;
        }
        i += 1;
    }
    assert(a@ =~= b@);
    true
}

/// Whether `a` equals the first `n` bytes of `b`.
pub fn slice_eq_take(a: &[u8], b: &[u8], n: usize) -> (r: bool)
    requires
        n <= b@.len(),
    ensures
        r == (a@ == b@.take(n as int)),
{
    if a.len() != n {
        return false;
    }
    let mut i: usize = 0;
    while i < n
        invariant
            a@.len() == n,
            n <= b@.len(),
            i <= n,
            forall|k: int| 0 <= k < i ==> a@[k] == b@[k],
        decreases n - i,
    {
        if a[i] != b[i] {
            assert(a@[i as int] != b@.take(n as int)[i as int]);
            return false;
        }
        i += 1;
    }
    assert(a@ =~= b@.take(n as int));
    true
}

/// Whether `p` is a byte prefix of `s`.
pub fn slice_starts_with(s: &[u8], p: &[u8]) -> (r: bool)
    ensures
        r == bytes_start_with(s@, p@),
{
    if p.len() > s.len() {
        return false;
    }
    let mut i: usize = 0;
    while i < p.len()
        invariant
            p@.len() <= s@.len(),
            i <= p@.len(),
            forall|k: int| 0 <= k < i ==> s@[k] == p@[k],
        decreases p@.len() - i,
    {
        if s[i] != p[i] {
            assert(s@.subrange(0, p@.len() as int)[i as int] != p@[i as int]);
            return false;
        }
        i += 1;
    }
    assert(s@.subrange(0, p@.len() as int) =~= p@);
    true
}

/// Whether the byte `b` occurs in `s`.
pub fn slice_has_byte(s: &[u8], b: u8) -> (r: bool)
    ensures
        r == has_byte(s@, b),
{
    let mut i: usize = 0;
    while i < s.len()
        invariant
            i <= s@.len(),
            forall|k: int| 0 <= k < i ==> s@[k] != b,
        decreases s@.len() - i,
    {
        if s[i] == b {
            return true;
        }
        i += 1;
    }
    false
}

/// The position of the first `b` in `s` at or after `from` (or `s.len()`).
pub fn slice_find_byte_from(s: &[u8], b: u8, from: usize) -> (r: usize)
    requires
        from <= s@.len(),
    ensures
        r == find_byte_from(s@, b, from as int),
{
    let mut i = from;
    while i < s.len()
        invariant
            from <= i <= s@.len(),
            find_byte_from(s@, b, from as int) == find_byte_from(s@, b, i as int),
        decreases s@.len() - i,
    {
        if s[i] == b {
            return i;
        }
        i += 1;
    }
    i
}

/// The position of the first `b` in `s[from..hi]` (or `hi`).
pub fn slice_find_byte_between(s: &[u8], b: u8, from: usize, hi: usize) -> (r: usize)
    requires
        from <= hi <= s@.len(),
    ensures
        r == find_byte_from(s@.take(hi as int), b, from as int),
{
    let ghost t = s@.take(hi as int);
    let mut i = from;
    while i < hi
        invariant
            from <= i <= hi,
            hi <= s@.len(),
            t == s@.take(hi as int),
            find_byte_from(t, b, from as int) == find_byte_from(t, b, i as int),
        decreases hi - i,
    {
        if s[i] == b {
            return i;
        }
        i += 1;
    }
    i
}

/// Equal character sequences have equal UTF-8 encodings and vice versa.
pub proof fn lemma_utf8_injective(a: Seq<char>, b: Seq<char>)
    ensures
        (vstd::utf8::encode_utf8(a) == vstd::utf8::encode_utf8(b)) == (a == b),
{
    vstd::utf8::encode_utf8_decode_utf8(a);
    vstd::utf8::encode_utf8_decode_utf8(b);
}

/// String equality (what `==` on `&str` computes).
pub fn str_eq(a: &str, b: &str) -> (r: bool)
    ensures
        r == (a@ == b@),
{
    let r = slice_eq(a.as_bytes(), b.as_bytes());
    proof {
        lemma_utf8_injective(a@, b@);
    }
    r
}

/// Whether `s` begins with `p` (what `str::starts_with` computes for a
/// string pattern: a byte-prefix test).
pub fn str_starts_with(s: &str, p: &str) -> (r: bool)
    ensures
        r == bytes_start_with(s.spec_bytes(), p.spec_bytes()),
{
    slice_starts_with(s.as_bytes(), p.as_bytes())
}

/// Whether the byte text `s` equals the string `p`.
pub fn bytes_eq_str(s: &[u8], p: &str) -> (r: bool)
    ensures
        r == (s@ == p.spec_bytes()),
{
    slice_eq(s, p.as_bytes())
}

/// ASCII digit.
pub open spec fn is_digit(b: u8) -> bool {
    48 <= b <= 57
}

/// ASCII letter or digit.
pub open spec fn is_alnum(b: u8) -> bool {
    is_digit(b) || (65 <= b <= 90) || (97 <= b <= 122)
}

/// Whether `b` is an ASCII letter or digit.
pub fn ascii_alnum(b: u8) -> (r: bool)
    ensures
        r == is_alnum(b),
{
    (b >= 48 && b <= 57) || (b >= 65 && b <= 90) || (b >= 97 && b <= 122)
}

} // verus!
