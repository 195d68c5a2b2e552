//! Item names: comparison with fixed names, suffix tests, and the order in
//! which items are laid out (by stem, then extension, byte by byte).

use vstd::prelude::*;
use vstd::utf8::*;

use crate::layout::name_bytes;

verus! {

proof fn lemma_name_bytes_injective(a: Seq<char>, b: Seq<char>)
    ensures
        name_bytes(a) == name_bytes(b) <==> a == b,
{
    encode_utf8_decode_utf8(a);
    encode_utf8_decode_utf8(b);
}

fn bytes_eq(a: &[u8], b: &[u8]) -> (r: bool)
    ensures
        r == (a@ == b@),
{
    if a.len() != b.len() {
        return false;
    }
    let mut i: usize = 0;
    while i < a.len()
        invariant
            i <= a@.len(),
            a@.len() == b@.len(),
            forall|j: int| 0 <= j < i ==> a@[j] == b@[j],
        decreases a@.len() - i,
    {
        if a[i] != b[i] {
            return false;
        }
        i = i + 1;
    }
    assert(a@ =~= b@);
    true
}

/// Whether two names are the same text.
pub fn str_eq(a: &str, b: &str) -> (r: bool)
    ensures
        r == (a@ == b@),
{
    let r = bytes_eq(a.as_bytes(), b.as_bytes());
    proof {
        lemma_name_bytes_injective(a@, b@);
    }
    r
}

pub open spec fn bytes_end_with(s: Seq<u8>, suffix: Seq<u8>) -> bool {
    suffix.len() <= s.len() && s.subrange(s.len() - suffix.len(), s.len() as int) == suffix
}

/// Whether the bytes of `s` end with those of `suffix`.
pub fn str_ends_with(s: &str, suffix: &str) -> (r: bool)
    ensures
        r == bytes_end_with(name_bytes(s@), name_bytes(suffix@)),
{
    let s = s.as_bytes();
    let suffix = suffix.as_bytes();
    if suffix.len() > s.len() {
        return false;
    }
    let start = s.len() - suffix.len();
    let r = bytes_eq(&s[start..s.len()], suffix);
    r
}

/// `a[i..]` sorts before `b[i..]`, byte by byte, a proper prefix first.
pub open spec fn bytes_lt_from(a: Seq<u8>, b: Seq<u8>, i: int) -> bool
    decreases a.len() - i,
{
    if i >= a.len() {
        i < b.len()
    } else if i >= b.len() {
        false
    } else if a[i] != b[i] {
        a[i] < b[i]
    } else {
        bytes_lt_from(a, b, i + 1)
    }
}

/// Lexicographic byte order, as `str` orders.
pub open spec fn bytes_lt(a: Seq<u8>, b: Seq<u8>) -> bool {
    bytes_lt_from(a, b, 0)
}

fn bytes_less(a: &[u8], b: &[u8]) -> (r: bool)
    ensures
        r == bytes_lt(a@, b@),
{
    let mut i: usize = 0;
    while i < a.len() && i < b.len() && a[i] == b[i]
        invariant
            0 <= i <= a@.len(),
            bytes_lt(a@, b@) == bytes_lt_from(a@, b@, i as int),
        decreases a@.len() - i,
    {
        i = i + 1;
    }
    if i >= a.len() {
        i < b.len()
    } else if i >= b.len() {
        false
    } else {
        a[i] < b[i]
    }
}

/// Whether name `(stem_a, ext_a)` sorts strictly after `(stem_b, ext_b)`:
/// by stem, then by extension.
pub open spec fn name_gt(stem_a: Seq<char>, ext_a: Seq<char>, stem_b: Seq<char>, ext_b: Seq<char>) -> bool {
    bytes_lt(name_bytes(stem_b), name_bytes(stem_a)) || (stem_a == stem_b && bytes_lt(
        name_bytes(ext_b),
        name_bytes(ext_a),
    ))
}

pub fn name_greater(stem_a: &str, ext_a: &str, stem_b: &str, ext_b: &str) -> (r: bool)
    ensures
        r == name_gt(stem_a@, ext_a@, stem_b@, ext_b@),
{
    if bytes_less(stem_b.as_bytes(), stem_a.as_bytes()) {
        true
    } else if str_eq(stem_a, stem_b) {
        bytes_less(ext_b.as_bytes(), ext_a.as_bytes())
    } else {
        false
    }
}

} // verus!
