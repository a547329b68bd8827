//! Small verified helpers on strings.

use vstd::prelude::*;
use vstd::string::StrSliceExecFns;

verus! {

/// A character that may stand in an event identifier: printable ASCII,
/// no quote, no backslash. Every name the classifier or the key table
/// produces lies in this alphabet, and the wire format writes
/// identifiers without escaping because of it.
pub open spec fn is_plain(c: char) -> bool {
    32 <= c as int <= 126 && c != '"' && c != '\\'
}

pub open spec fn all_plain(k: Seq<char>) -> bool {
    forall|i: int| 0 <= i < k.len() ==> is_plain(k[i])
}

/// Character-wise equality of two string slices.
pub fn str_eq(a: &str, b: &str) -> (r: bool)
    ensures
        r == (a@ == b@),
{
    let n = a.unicode_len();
    let m = b.unicode_len();
    if n != m {
        proof {
            assert(a@.len() != b@.len());
        }
        return false;
    }
    let mut i: usize = 0;
    while i < n
        invariant
            n == a@.len(),
            n == b@.len(),
            i <= n,
            forall|j: int| 0 <= j < i ==> a@[j] == b@[j],
        decreases n - i,
    {
        if a.get_char(i) != b.get_char(i) {
            return false;
        }
        i = i + 1;
    }
    proof {
        assert(a@ =~= b@);
    }
    true
}

/// Equality of an optional header value against an expected secret:
/// true exactly when a value is present and matches character for character.
pub fn secret_matches(provided: Option<&str>, expected: &str) -> (r: bool)
    ensures
        r == match provided {
            Some(p) => p@ == expected@,
            None => false,
        },
{
    match provided {
        Some(p) => str_eq(p, expected),
        None => false,
    }
}

} // verus!
