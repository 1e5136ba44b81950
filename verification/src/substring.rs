//! Substring search.
use vstd::prelude::*;
use crate::encoding::lemma_occurs_encoded;
use crate::text::{occurs_at, occurs_in};

verus! {

/// Whether `needle` stands in `hay` at position `at`.
fn matches_at(hay: &[u8], needle: &[u8], at: usize) -> (same: bool)
    requires
        at + needle@.len() <= hay@.len(),
    ensures
        same == occurs_at(needle@, hay@, at as int),
{
    let ghost window = hay@.subrange(at as int, at + needle@.len());
    let mut j: usize = 0;
    while j < needle.len()
        invariant
            j <= needle@.len(),
            hay@.len() == hay.len(),
            at + needle@.len() <= hay@.len(),
            window == hay@.subrange(at as int, at + needle@.len()),
            forall|m: int| 0 <= m < j ==> window[m] == needle@[m],
        decreases needle@.len() - j,
    {
        if hay[at + j] != needle[j] {
            assert(window[j as int] != needle@[j as int]);
            return false;
        }
        j = j + 1;
    }
    assert(window =~= needle@);
    true
}

/// Whether the bytes of `needle` occur in `hay`, tried at every position in turn.
fn bytes_contain(hay: &[u8], needle: &[u8]) -> (found: bool)
    ensures
        found == occurs_in(needle@, hay@),
{
    if needle.len() > hay.len() {
        return false;
    }
    let last: usize = hay.len() - needle.len();
    let mut at: usize = 0;
    loop
        invariant
            at <= last,
            last + needle@.len() == hay@.len(),
            forall|m: int| 0 <= m < at ==> !occurs_at(needle@, hay@, m),
        decreases last - at,
    {
        if matches_at(hay, needle, at) {
            return true;
        }
        if at == last {
            return false;
        }
        at = at + 1;
    }
}

/// Whether `hay` contains `needle` as a contiguous run of characters. The empty needle
/// is contained in every text.
pub fn contains(hay: &str, needle: &str) -> (found: bool)
    ensures
        found == occurs_in(needle@, hay@),
{
    proof {
        lemma_occurs_encoded(needle@, hay@);
    }
    bytes_contain(hay.as_bytes(), needle.as_bytes())
}

} // verus!
