//! Byte search through the `memchr` crate.
use vstd::prelude::*;

verus! {

/// `memchr::memchr`: the index of the first `needle` in `haystack`, or `None` when the
/// byte does not occur. Trusted: the crate documents exactly this result.
#[verifier::external_body]
pub(crate) fn memchr(needle: u8, haystack: &[u8]) -> (r: Option<usize>)
    ensures
        match r {
            Some(i) => i < haystack@.len() && haystack@[i as int] == needle && forall|j: int|
                0 <= j < i ==> haystack@[j] != needle,
            None => forall|j: int| 0 <= j < haystack@.len() ==> haystack@[j] != needle,
        },
{
    memchr::memchr(needle, haystack)
}

/// `memchr::memchr2`: the index of the first byte of `haystack` that is `needle1` or
/// `needle2`, or `None` when neither occurs. Trusted: the crate documents exactly this
/// result.
#[verifier::external_body]
pub(crate) fn memchr2(needle1: u8, needle2: u8, haystack: &[u8]) -> (r: Option<usize>)
    ensures
        match r {
            Some(i) => i < haystack@.len() && (haystack@[i as int] == needle1 || haystack@[i as int]
                == needle2) && forall|j: int|
                0 <= j < i ==> haystack@[j] != needle1 && haystack@[j] != needle2,
            None => forall|j: int|
                0 <= j < haystack@.len() ==> haystack@[j] != needle1 && haystack@[j] != needle2,
        },
{
    memchr::memchr2(needle1, needle2, haystack)
}

} // verus!
