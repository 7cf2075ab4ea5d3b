//! Searching and comparing byte sequences.
//!
//! Manifests are scanned as raw bytes. Every delimiter of the two line
//! grammars is plain ASCII, so searching bytes finds exactly the offsets
//! that searching the decoded text would find.

use vstd::prelude::*;
use vstd::slice::slice_subrange;
use vstd::slice::slice_to_vec;

verus! {

/// `needle` lies in `hay` at offset `at`.
pub open spec fn occurs_at(hay: Seq<u8>, needle: Seq<u8>, at: int) -> bool {
    &&& 0 <= at
    &&& at + needle.len() <= hay.len()
    &&& hay.subrange(at, at + needle.len()) == needle
}

/// `needle` lies somewhere in `hay`.
pub open spec fn occurs_in(hay: Seq<u8>, needle: Seq<u8>) -> bool {
    exists|at: int| occurs_at(hay, needle, at)
}

/// The least offset at or after `from` where `needle` lies in `hay`.
pub open spec fn first_occurrence(hay: Seq<u8>, needle: Seq<u8>, from: int) -> Option<int>
    decreases hay.len() + 1 - from,
{
    if from < 0 || from + needle.len() > hay.len() {
        None
    } else if occurs_at(hay, needle, from) {
        Some(from)
    } else {
        first_occurrence(hay, needle, from + 1)
    }
}

/// The number of leading bytes of `text` before the first byte that `stop`
/// accepts; the whole length where it accepts none.
pub open spec fn run_len(text: Seq<u8>, stop: spec_fn(u8) -> bool) -> nat
    decreases text.len(),
{
    if text.len() == 0 || stop(text[0]) {
        0
    } else {
        1 + run_len(text.skip(1), stop)
    }
}

/// The byte strings that a vector of byte vectors holds.
pub open spec fn texts(items: Seq<Vec<u8>>) -> Seq<Seq<u8>> {
    items.map_values(|item: Vec<u8>| item@)
}

/// `first_occurrence` names the least matching offset, and is `None` exactly
/// when nothing matches at or after `from`.
pub proof fn lemma_first_occurrence_is_least(hay: Seq<u8>, needle: Seq<u8>, from: int)
    requires
        0 <= from,
    ensures
        match first_occurrence(hay, needle, from) {
            Some(at) => {
                &&& from <= at
                &&& occurs_at(hay, needle, at)
                &&& forall|k: int| from <= k < at ==> !occurs_at(hay, needle, k)
            },
            None => forall|k: int| from <= k ==> !occurs_at(hay, needle, k),
        },
    decreases hay.len() + 1 - from,
{
    if from + needle.len() > hay.len() {
    } else if occurs_at(hay, needle, from) {
    } else {
        lemma_first_occurrence_is_least(hay, needle, from + 1);
    }
}

/// An offset where the needle lies, with no such offset between `from` and
/// it, is the first occurrence.
pub proof fn lemma_first_occurrence_found(hay: Seq<u8>, needle: Seq<u8>, from: int, at: int)
    requires
        0 <= from <= at,
        occurs_at(hay, needle, at),
        forall|k: int| from <= k < at ==> !occurs_at(hay, needle, k),
    ensures
        first_occurrence(hay, needle, from) == Some(at),
{
    lemma_first_occurrence_is_least(hay, needle, from);
}

/// A needle lies in the haystack exactly when a search from the start finds it.
pub proof fn lemma_occurs_in_iff_found(hay: Seq<u8>, needle: Seq<u8>)
    ensures
        occurs_in(hay, needle) <==> first_occurrence(hay, needle, 0) is Some,
{
    lemma_first_occurrence_is_least(hay, needle, 0);
}

/// `run_len` stops at the first accepted byte and nowhere before it.
pub proof fn lemma_run_len(text: Seq<u8>, stop: spec_fn(u8) -> bool)
    ensures
        run_len(text, stop) <= text.len(),
        forall|k: int| 0 <= k < run_len(text, stop) ==> !stop(#[trigger] text[k]),
        run_len(text, stop) < text.len() ==> stop(text[run_len(text, stop) as int]),
    decreases text.len(),
{
    if text.len() == 0 || stop(text[0]) {
    } else {
        let rest = text.skip(1);
        lemma_run_len(rest, stop);
        assert forall|k: int| 0 <= k < run_len(text, stop) implies !stop(#[trigger] text[k]) by {
            if k > 0 {
                assert(text[k] == rest[k - 1]);
            }
        }
        if run_len(text, stop) < text.len() {
            assert(text[run_len(text, stop) as int] == rest[run_len(rest, stop) as int]);
        }
    }
}

/// Any offset with the two properties of `lemma_run_len` is the run length.
pub proof fn lemma_run_len_unique(text: Seq<u8>, stop: spec_fn(u8) -> bool, n: int)
    requires
        0 <= n <= text.len(),
        forall|k: int| 0 <= k < n ==> !stop(#[trigger] text[k]),
        n < text.len() ==> stop(text[n]),
    ensures
        run_len(text, stop) == n,
{
    lemma_run_len(text, stop);
    let m = run_len(text, stop) as int;
    if m < n {
        assert(!stop(text[m]));
    } else if n < m {
        assert(!stop(text[n]));
    }
}

/// Tells whether two byte strings are equal.
pub fn same_bytes(left: &[u8], right: &[u8]) -> (same: bool)
    ensures
        same == (left@ == right@),
{
    if left.len() != right.len() {
        return false;
    }
    let mut k: usize = 0;
    while k < left.len()
        invariant
            left.len() == right.len(),
            k <= left.len(),
            forall|j: int| 0 <= j < k ==> left@[j] == right@[j],
        decreases left.len() - k,
    {
        if left[k] != right[k] {
            return false;
        }
        k += 1;
    }
    assert(left@ =~= right@);
    true
}

/// Tells whether `needle` lies in `hay` at offset `at`.
pub fn matches_at(hay: &[u8], needle: &[u8], at: usize) -> (found: bool)
    ensures
        found == occurs_at(hay@, needle@, at as int),
{
    if at > hay.len() || needle.len() > hay.len() - at {
        return false;
    }
    same_bytes(slice_subrange(hay, at, at + needle.len()), needle)
}

/// Tells whether `hay` begins with `prefix`.
pub fn starts_with(hay: &[u8], prefix: &[u8]) -> (found: bool)
    ensures
        found == occurs_at(hay@, prefix@, 0),
{
    matches_at(hay, prefix, 0)
}

/// Finds the first offset at or after `from` where `needle` lies in `hay`.
pub fn find(hay: &[u8], needle: &[u8], from: usize) -> (at: Option<usize>)
    ensures
        match at {
            Some(i) => {
                &&& first_occurrence(hay@, needle@, from as int) == Some(i as int)
                &&& from <= i
                &&& occurs_at(hay@, needle@, i as int)
                &&& forall|k: int| from <= k < i ==> !occurs_at(hay@, needle@, k)
            },
            None => {
                &&& first_occurrence(hay@, needle@, from as int) is None
                &&& forall|k: int| from <= k ==> !occurs_at(hay@, needle@, k)
            },
        },
{
    proof {
        lemma_first_occurrence_is_least(hay@, needle@, from as int);
    }
    if needle.len() > hay.len() {
        return None;
    }
    let last: usize = hay.len() - needle.len();
    let mut i: usize = from;
    while i <= last
        invariant
            last == hay.len() - needle.len(),
            from <= i,
            first_occurrence(hay@, needle@, from as int) == first_occurrence(
                hay@,
                needle@,
                i as int,
            ),
        decreases last - i,
    {
        if matches_at(hay, needle, i) {
            proof {
                lemma_first_occurrence_is_least(hay@, needle@, from as int);
            }
            return Some(i);
        }
        if i == last {
            proof {
                assert(first_occurrence(hay@, needle@, i + 1) is None);
                lemma_first_occurrence_is_least(hay@, needle@, from as int);
            }
            return None;
        }
        i += 1;
    }
    None
}

/// Tells whether `needle` lies somewhere in `hay`.
pub fn contains(hay: &[u8], needle: &[u8]) -> (found: bool)
    ensures
        found == occurs_in(hay@, needle@),
{
    proof {
        lemma_occurs_in_iff_found(hay@, needle@);
    }
    find(hay, needle, 0).is_some()
}

/// Finds where the run of bytes other than `first` and `second` that starts
/// at `from` ends: at the first of these two bytes, or at the end of `text`.
pub(crate) fn run_end(text: &[u8], from: usize, first: u8, second: u8) -> (end: usize)
    requires
        from <= text.len(),
    ensures
        from <= end <= text.len(),
        forall|k: int| from <= k < end ==> text@[k] != first && text@[k] != second,
        end < text.len() ==> text@[end as int] == first || text@[end as int] == second,
{
    let mut end: usize = from;
    while end < text.len() && text[end] != first && text[end] != second
        invariant
            from <= end <= text.len(),
            forall|k: int| from <= k < end ==> text@[k] != first && text@[k] != second,
        decreases text.len() - end,
    {
        end += 1;
    }
    end
}

/// Copies the bytes of `text` from offset `from` up to offset `to`.
pub(crate) fn copy_range(text: &[u8], from: usize, to: usize) -> (copy: Vec<u8>)
    requires
        from <= to <= text.len(),
    ensures
        copy@ == text@.subrange(from as int, to as int),
{
    slice_to_vec(slice_subrange(text, from, to))
}

} // verus!
