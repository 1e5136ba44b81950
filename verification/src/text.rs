//! Mathematical model of line-oriented text: where a text breaks into lines and when
//! one sequence occurs inside another. Everything here is generic in the element type,
//! so the same definitions describe a text as characters and as encoded bytes.
use vstd::prelude::*;

verus! {

/// Position of the first element of `s` equal to `x`, or `s.len()` when `x` does not occur.
pub open spec fn first_index_of<T>(s: Seq<T>, x: T) -> int
    decreases s.len(),
{
    if s.len() == 0 || s[0] == x {
        0
    } else {
        1 + first_index_of(s.drop_first(), x)
    }
}

/// `line` without its last element when that element is `x`; otherwise `line` itself.
pub open spec fn without_trailing<T>(line: Seq<T>, x: T) -> Seq<T> {
    if line.len() > 0 && line.last() == x {
        line.drop_last()
    } else {
        line
    }
}

/// The lines of `text`. Every `nl` ends a line; one `cr` directly before that `nl` belongs
/// to the line ending as well. Neither is part of the line. Text after the last `nl`
/// is a line of its own, kept as it is; an empty rest is no line.
pub open spec fn split_lines<T>(text: Seq<T>, nl: T, cr: T) -> Seq<Seq<T>>
    decreases text.len(),
{
    let k = first_index_of(text, nl);
    if text.len() == 0 {
        Seq::empty()
    } else if 0 <= k < text.len() {
        seq![without_trailing(text.take(k), cr)] + split_lines(text.skip(k + 1), nl, cr)
    } else {
        seq![text]
    }
}

/// The lines of a text of characters: split at line feeds, with a carriage return
/// directly before a line feed counted as part of the line ending.
pub open spec fn lines_of(text: Seq<char>) -> Seq<Seq<char>> {
    split_lines(text, '\n', '\r')
}

/// `needle` stands in `hay` at position `i`, element for element.
pub open spec fn occurs_at<T>(needle: Seq<T>, hay: Seq<T>, i: int) -> bool {
    &&& 0 <= i
    &&& i + needle.len() <= hay.len()
    &&& hay.subrange(i, i + needle.len()) == needle
}

/// `needle` is a contiguous part of `hay`.
pub open spec fn occurs_in<T>(needle: Seq<T>, hay: Seq<T>) -> bool {
    exists|i: int| occurs_at(needle, hay, i)
}

/// `first_index_of` lies within the sequence, nothing before it equals `x`, and the
/// element at it, if there is one, does.
pub proof fn lemma_first_index_of<T>(s: Seq<T>, x: T)
    ensures
        0 <= first_index_of(s, x) <= s.len(),
        forall|j: int| 0 <= j < first_index_of(s, x) ==> s[j] != x,
        first_index_of(s, x) < s.len() ==> s[first_index_of(s, x)] == x,
    decreases s.len(),
{
    if s.len() == 0 || s[0] == x {
    } else {
        let rest = s.drop_first();
        lemma_first_index_of(rest, x);
        assert forall|j: int| 0 <= j < first_index_of(s, x) implies s[j] != x by {
            if j > 0 {
                assert(s[j] == rest[j - 1]);
            }
        }
    }
}

/// The position `k` is the first occurrence of `x` as soon as nothing before it equals
/// `x` and it is either the end of `s` or holds `x`.
pub proof fn lemma_first_index_is<T>(s: Seq<T>, x: T, k: int)
    requires
        0 <= k <= s.len(),
        forall|j: int| 0 <= j < k ==> s[j] != x,
        k < s.len() ==> s[k] == x,
    ensures
        first_index_of(s, x) == k,
    decreases s.len(),
{
    if s.len() == 0 || s[0] == x {
    } else {
        let rest = s.drop_first();
        assert forall|j: int| 0 <= j < k - 1 implies rest[j] != x by {
            assert(rest[j] == s[j + 1]);
        }
        lemma_first_index_is(rest, x, k - 1);
    }
}

/// A prefix that does not hold `x` shifts the first occurrence by its length.
pub proof fn lemma_first_index_after_prefix<T>(prefix: Seq<T>, rest: Seq<T>, x: T)
    requires
        forall|j: int| 0 <= j < prefix.len() ==> prefix[j] != x,
    ensures
        first_index_of(prefix + rest, x) == prefix.len() + first_index_of(rest, x),
{
    let s = prefix + rest;
    let k = prefix.len() + first_index_of(rest, x);
    lemma_first_index_of(rest, x);
    assert forall|j: int| 0 <= j < k implies s[j] != x by {
        if j >= prefix.len() {
            assert(s[j] == rest[j - prefix.len()]);
        }
    }
    if k < s.len() {
        assert(s[k] == rest[k - prefix.len()]);
    }
    lemma_first_index_is(s, x, k);
}

/// An empty needle occurs in every sequence.
pub proof fn lemma_empty_occurs<T>(needle: Seq<T>, hay: Seq<T>)
    requires
        needle.len() == 0,
    ensures
        occurs_in(needle, hay),
{
    assert(hay.subrange(0, 0) =~= needle);
    assert(occurs_at(needle, hay, 0));
}

} // verus!
