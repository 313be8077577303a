//! Character-level access to pattern and input text.

use vstd::prelude::*;
use vstd::string::StrSliceExecFns;

verus! {

/// Collects the characters of a string slice into a vector, so that the
/// parser and the matching engine can address them by index.
pub fn chars_of(s: &str) -> (r: Vec<char>)
    ensures
        r@ == s@,
{
    let n = s.unicode_len();
    let mut r: Vec<char> = Vec::new();
    let mut i: usize = 0;
    while i < n
        invariant
            n == s@.len(),
            i <= n,
            r@ == s@.take(i as int),
        decreases n - i,
    {
        r.push(s.get_char(i));
        i = i + 1;
        proof {
            assert(r@ =~= s@.take(i as int));
        }
    }
    proof {
        assert(r@ =~= s@);
    }
    r
}

/// Reports whether `pat` contains the character `ch`.
pub fn str_contains_char(pat: &str, ch: char) -> (r: bool)
    ensures
        r == pat@.contains(ch),
{
    let n = pat.unicode_len();
    let mut i: usize = 0;
    while i < n
        invariant
            n == pat@.len(),
            i <= n,
            forall|j: int| 0 <= j < i ==> pat@[j] != ch,
        decreases n - i,
    {
        if pat.get_char(i) == ch {
            return true;
        }
        i = i + 1;
    }
    false
}

} // verus!
