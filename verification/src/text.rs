//! Comparing names without regard to the case of ASCII letters.

use vstd::prelude::*;
use vstd::string::StrSliceExecFns;

verus! {

/// `c` with an ASCII capital replaced by its small letter.
pub open spec fn lower(c: char) -> char {
    if 'A' <= c && c <= 'Z' {
        ((c as u8 + 32) as u8) as char
    } else {
        c
    }
}

/// `s` with every ASCII capital replaced by its small letter.
pub open spec fn lowered(s: Seq<char>) -> Seq<char> {
    Seq::new(s.len(), |i: int| lower(s[i]))
}

/// Replaces an ASCII capital by its small letter.
pub fn lower_char(c: char) -> (r: char)
    ensures
        r == lower(c),
{
    if 'A' <= c && c <= 'Z' {
        let b: u8 = c as u8;
        (b + 32) as char
    } else {
        c
    }
}

/// Whether two strings are equal up to the case of their ASCII letters.
pub fn eq_ignoring_case(s: &str, name: &str) -> (r: bool)
    ensures
        r == (lowered(s@) == lowered(name@)),
{
    let n: usize = s.unicode_len();
    if n != name.unicode_len() {
        assert(lowered(s@).len() != lowered(name@).len());
        return false;
    }
    let mut i: usize = 0;
    while i < n
        invariant
            i <= n,
            n == s@.len(),
            n == name@.len(),
            forall|j: int| 0 <= j < i ==> lower(s@[j]) == lower(name@[j]),
        decreases n - i,
    {
        if lower_char(s.get_char(i)) != lower_char(name.get_char(i)) {
            assert(lowered(s@)[i as int] != lowered(name@)[i as int]);
            return false;
        }
        i += 1;
    }
    assert(lowered(s@) =~= lowered(name@));
    true
}

} // verus!
