//! Small verified helpers over string slices.

use vstd::prelude::*;
use vstd::string::StrSliceExecFns;

verus! {

/// Compares two string slices character by character.
pub fn str_eq(a: &str, b: &str) -> (r: bool)
    ensures
        r == (a@ == b@),
{
    let na = a.unicode_len();
    let nb = b.unicode_len();
    if na != nb {
        return false;
    }
    let mut i: usize = 0;
    while i < na
        invariant
            na == a@.len(),
            na == b@.len(),
            i <= na,
            forall|j: int| 0 <= j < i ==> a@[j] == b@[j],
        decreases na - i,
    {
        if a.get_char(i) != b.get_char(i) {
            return false;
        }
        i = i + 1;
    }
    proof {
        assert(a@ =~= b@);
    }
    true
}

/// Whether `w` begins with the characters of `pf`.
pub fn str_starts_with(w: &str, pf: &str) -> (r: bool)
    ensures
        r == (w@.len() >= pf@.len() && w@.subrange(0, pf@.len() as int) == pf@),
{
    let nw = w.unicode_len();
    let np = pf.unicode_len();
    if nw < np {
        return false;
    }
    let mut i: usize = 0;
    while i < np
        invariant
            nw == w@.len(),
            np == pf@.len(),
            np <= nw,
            i <= np,
            forall|j: int| 0 <= j < i ==> w@[j] == pf@[j],
        decreases np - i,
    {
        if w.get_char(i) != pf.get_char(i) {
            proof {
                assert(w@.subrange(0, np as int)[i as int] == w@[i as int]);
            }
            return false;
        }
        i = i + 1;
    }
    proof {
        assert(w@.subrange(0, np as int) =~= pf@);
    }
    true
}

/// Relies on `String::from_utf8`: bytes below 128 are ASCII, hence valid
/// UTF-8, and decode to the characters with the same code points.
#[verifier::external_body]
pub fn ascii_to_string(bytes: &Vec<u8>) -> (r: String)
    requires
        forall|i: int| 0 <= i < bytes@.len() ==> bytes@[i] < 128,
    ensures
        r@.len() == bytes@.len(),
        forall|i: int| 0 <= i < bytes@.len() ==> r@[i] == bytes@[i] as char,
{
    String::from_utf8(bytes.clone()).unwrap()
}

} // verus!
