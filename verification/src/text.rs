//! Strings: whether two are the same, and the lowercase form of one, which
//! is taken from the standard library on trust.

use vstd::prelude::*;
use vstd::string::StringSliceAdditionalSpecFns;
use vstd::utf8::encode_utf8_decode_utf8;

verus! {

/// The lowercase form of a string, as `str::to_lowercase` computes it.
pub uninterp spec fn lowercase(s: Seq<char>) -> Seq<char>;

/// Calls `str::to_lowercase`, which returns the lowercase equivalent of a
/// string as Unicode defines it, without regard to any locale. Nothing of
/// this is proved. The contract says no more than that the result is the
/// `lowercase` of the argument, and so that strings of the same
/// characters have the same lowercase form.
#[verifier::external_body]
pub(crate) fn to_lowercase(s: &str) -> (lowered: String)
    ensures
        lowered@ == lowercase(s@),
{
    s.to_lowercase()
}

/// Whether two strings hold the same characters.
pub(crate) fn same_text(a: &str, b: &str) -> (same: bool)
    ensures
        same == (a@ == b@),
{
    let x = a.as_bytes();
    let y = b.as_bytes();
    proof {
        encode_utf8_decode_utf8(a@);
        encode_utf8_decode_utf8(b@);
    }
    if x.len() != y.len() {
        return false;
    }
    let mut i: usize = 0;
    while i < x.len()
        invariant
            i <= x.len(),
            x.len() == y.len(),
            forall|j: int| 0 <= j < i ==> x@[j] == y@[j],
            x@ == a.spec_bytes(),
            y@ == b.spec_bytes(),
        decreases x.len() - i,
    {
        if x[i] != y[i] {
            return false;
        }
        i += 1;
    }
    assert(x@ =~= y@);
    true
}

} // verus!
