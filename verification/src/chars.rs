//! Character buffers: the codec works on vectors of characters, converted
//! to and from `String` at its boundary.

use vstd::prelude::*;

verus! {

/// The characters of a string slice, in order.
///
/// Relies on `str::chars`: it yields exactly the characters of the string.
#[verifier::external_body]
pub fn str_to_chars(s: &str) -> (r: Vec<char>)
    ensures
        r@ == s@,
{
    s.chars().collect()
}

/// The string holding exactly the given characters.
///
/// Relies on `String`'s `FromIterator<char>`: collecting characters builds
/// the string of those characters in order.
#[verifier::external_body]
pub fn chars_to_string(v: &Vec<char>) -> (r: String)
    ensures
        r@ == v@,
{
    v.iter().collect()
}

/// The character with the given scalar value.
///
/// Relies on `char::from_u32`: it returns `Some` exactly for values that
/// are not surrogates and not above the scalar range, and the returned
/// character has the given value.
#[verifier::external_body]
pub fn char_from_u32(v: u32) -> (c: char)
    requires
        v < 0xD800 || (0xE000 <= v && v <= 0x10FFFF),
    ensures
        c == (v as char),
        (c as u32) == v,
{
    char::from_u32(v).unwrap()
}

/// A copy of the characters in the index range `a..b`.
pub fn copy_range(s: &Vec<char>, a: usize, b: usize) -> (r: Vec<char>)
    requires
        a <= b <= s@.len(),
    ensures
        r@ == s@.subrange(a as int, b as int),
{
    let mut out: Vec<char> = Vec::new();
    let mut i = a;
    while i < b
        invariant
            a <= i <= b <= s@.len(),
            out@ == s@.subrange(a as int, i as int),
        decreases b - i,
    {
        out.push(s[i]);
        proof {
            assert(s@.subrange(a as int, i + 1 as int) =~= s@.subrange(a as int, i as int)
                + seq![s@[i as int]]);
        }
        i = i + 1;
    }
    out
}

/// Whether two character vectors hold the same characters.
pub fn eq_chars(a: &Vec<char>, b: &Vec<char>) -> (r: bool)
    ensures
        r == (a@ == b@),
{
    if a.len() != b.len() {
        proof {
            assert(a@.len() != b@.len());
        }
        return false;
    }
    let mut i: usize = 0;
    while i < a.len()
        invariant
            i <= a@.len(),
            a@.len() == b@.len(),
            forall|j: int| 0 <= j < i ==> a@[j] == b@[j],
        decreases a@.len() - i,
    {
        if a[i] != b[i] {
            return false;
        }
        i = i + 1;
    }
    proof {
        assert(a@ =~= b@);
    }
    true
}

} // verus!
