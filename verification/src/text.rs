//! Character-level helpers shared by the template parser and the
//! format-string lexer: the legal character classes of the route
//! grammar, and conversion from `&str` to a vector of characters that
//! the verified parsers work on.

use vstd::prelude::*;
use vstd::std_specs::iter::IteratorSpec;

verus! {

/// A character that may appear in a literal path segment: ASCII
/// alphanumeric or `_`.
pub open spec fn is_literal_char(c: char) -> bool {
    is_name_char(c)
}

/// A character that may appear in a parameter name: ASCII alphanumeric
/// or `_`.
pub open spec fn is_name_char(c: char) -> bool {
    let u = c as u32;
    (0x30 <= u <= 0x39) || (0x41 <= u <= 0x5a) || (0x61 <= u <= 0x7a) || u == 0x5f
}

/// Executable test for [`is_name_char`].
pub fn name_char(c: char) -> (r: bool)
    ensures
        r == is_name_char(c),
{
    let u = c as u32;
    (0x30 <= u && u <= 0x39) || (0x41 <= u && u <= 0x5a) || (0x61 <= u && u <= 0x7a) || u == 0x5f
}

/// Collects the characters of a string slice into a vector, so that the
/// verified parsers can index them freely.
pub fn to_chars(s: &str) -> (r: Vec<char>)
    ensures
        r@ == s@,
{
    let mut r: Vec<char> = Vec::new();
    for c in it: s.chars()
        invariant
            it.seq() == s@,
            r@ =~= it.seq().subrange(0, it.index()),
    {
        r.push(c);
    }
    r
}

/// Copies the characters of `v` between `from` and `to` into a fresh
/// vector.
pub fn copy_range(v: &Vec<char>, from: usize, to: usize) -> (r: Vec<char>)
    requires
        from <= to <= v@.len(),
    ensures
        r@ == v@.subrange(from as int, to as int),
{
    let mut r: Vec<char> = Vec::new();
    let mut i: usize = from;
    while i < to
        invariant
            from <= i <= to <= v@.len(),
            r@ =~= v@.subrange(from as int, i as int),
        decreases to - i,
    {
        r.push(v[i]);
        proof {
            assert(r@ =~= v@.subrange(from as int, i + 1));
        }
        i = i + 1;
    }
    proof {
        assert(r@ =~= v@.subrange(from as int, to as int));
    }
    r
}

/// Compares two character vectors for equality of their contents.
pub fn chars_eq(a: &Vec<char>, b: &Vec<char>) -> (r: bool)
    ensures
        r <==> a@ == b@,
{
    if a.len() != b.len() {
        return false;
    }
    let mut i: usize = 0;
    while i < a.len()
        invariant
            i <= a@.len(),
            a@.len() == b@.len(),
            forall|j: int| 0 <= j < i ==> a@[j] == b@[j],
        decreases a@.len() - i,
    {
        if a[i] != b[i] {
            return false;
        }
        i = i + 1;
    }
    proof {
        assert(a@ =~= b@);
    }
    true
}

} // verus!
