//! What it means to find a byte in a buffer, stated over sequences.

use vstd::prelude::*;

verus! {

/// `i` is a position of `s` that holds `needle`, and no position before it does.
pub open spec fn is_first_match(s: Seq<u8>, needle: u8, i: int) -> bool {
    &&& 0 <= i < s.len()
    &&& s[i] == needle
    &&& forall|j: int| 0 <= j < i ==> s[j] != needle
}

/// No position of `s` from `from` (inclusive) up to `to` (exclusive) holds `needle`.
pub open spec fn absent_between(s: Seq<u8>, needle: u8, from: int, to: int) -> bool {
    forall|j: int| from <= j < to ==> s[j] != needle
}

/// `r` is the answer that a scanner owes for `needle` in `s`: the leftmost
/// position that holds `needle`, or `None` exactly when no position does.
pub open spec fn is_scan_result(s: Seq<u8>, needle: u8, r: Option<usize>) -> bool {
    match r {
        Some(i) => is_first_match(s, needle, i as int),
        None => absent_between(s, needle, 0, s.len() as int),
    }
}

/// The number of positions of `s` that hold `needle`.
pub open spec fn occurrences(s: Seq<u8>, needle: u8) -> nat
    decreases s.len(),
{
    if s.len() == 0 {
        0
    } else {
        let here: nat = if s[0] == needle { 1 } else { 0 };
        here + occurrences(s.drop_first(), needle)
    }
}

/// Two answers that a scanner may give for the same needle and buffer are the
/// same answer: scanners that meet `is_scan_result` agree on every input.
pub proof fn lemma_scan_results_agree(s: Seq<u8>, needle: u8, a: Option<usize>, b: Option<usize>)
    requires
        is_scan_result(s, needle, a),
        is_scan_result(s, needle, b),
    ensures
        a == b,
{
    match (a, b) {
        (Some(i), Some(j)) => {
            if i < j {
                assert(s[i as int] == needle);
            } else if j < i {
                assert(s[j as int] == needle);
            }
        },
        (Some(i), None) => {
            assert(s[i as int] == needle);
        },
        (None, Some(j)) => {
            assert(s[j as int] == needle);
        },
        (None, None) => {},
    }
}

/// Wherever the needle occurs, a scanner's answer is a position at or before
/// that occurrence: of several matches the smallest is returned.
pub proof fn lemma_scan_result_is_leftmost(s: Seq<u8>, needle: u8, r: Option<usize>, i: int)
    requires
        is_scan_result(s, needle, r),
        0 <= i < s.len(),
        s[i] == needle,
    ensures
        r is Some,
        r.unwrap() <= i,
        s[r.unwrap() as int] == needle,
{
}

/// A scanner answers `None` if and only if the needle occurs nowhere in the
/// buffer: it reports no match that is not there, and misses none that is.
pub proof fn lemma_scan_result_none_iff_absent(s: Seq<u8>, needle: u8, r: Option<usize>)
    requires
        is_scan_result(s, needle, r),
    ensures
        r is None <==> !s.contains(needle),
{
    match r {
        Some(i) => {
            assert(s[i as int] == needle);
        },
        None => {
            if s.contains(needle) {
                let i = choose|i: int| 0 <= i < s.len() && s[i] == needle;
                assert(s[i] == needle);
            }
        },
    }
}

/// A needle whose leftmost occurrence is at `p` is found there, wherever `p`
/// lies: at the last byte of the buffer as well as on either side of a block
/// boundary.
pub proof fn lemma_scan_result_at_first_match(s: Seq<u8>, needle: u8, r: Option<usize>, p: int)
    requires
        is_scan_result(s, needle, r),
        is_first_match(s, needle, p),
    ensures
        r is Some,
        r.unwrap() == p,
{
    lemma_scan_result_is_leftmost(s, needle, r, p);
}

/// A needle that occurs only at the last byte of the buffer is found there.
pub proof fn lemma_scan_result_at_last_byte(s: Seq<u8>, needle: u8, r: Option<usize>)
    requires
        is_scan_result(s, needle, r),
        s.len() > 0,
        s.last() == needle,
        absent_between(s, needle, 0, s.len() - 1),
    ensures
        r is Some,
        r.unwrap() == s.len() - 1,
{
    lemma_scan_result_at_first_match(s, needle, r, s.len() - 1);
}

/// A buffer in which the needle occurs nowhere holds no occurrence of it.
pub proof fn lemma_occurrences_of_absent(s: Seq<u8>, needle: u8)
    requires
        absent_between(s, needle, 0, s.len() as int),
    ensures
        occurrences(s, needle) == 0,
    decreases s.len(),
{
    if s.len() > 0 {
        assert(s[0] != needle);
        let rest = s.drop_first();
        assert forall|j: int| 0 <= j < rest.len() implies rest[j] != needle by {
            assert(rest[j] == s[j + 1]);
        }
        lemma_occurrences_of_absent(rest, needle);
    }
}

/// A buffer that holds the needle at every position holds as many occurrences
/// as it has bytes: neighbouring matches are each counted.
pub proof fn lemma_occurrences_of_filled(s: Seq<u8>, needle: u8)
    requires
        forall|j: int| 0 <= j < s.len() ==> s[j] == needle,
    ensures
        occurrences(s, needle) == s.len(),
    decreases s.len(),
{
    if s.len() > 0 {
        assert(s[0] == needle);
        let rest = s.drop_first();
        assert forall|j: int| 0 <= j < rest.len() implies rest[j] == needle by {
            assert(rest[j] == s[j + 1]);
        }
        lemma_occurrences_of_filled(rest, needle);
    }
}

/// The occurrences in a buffer are the leftmost one and those in the bytes
/// after it.
pub proof fn lemma_occurrences_after_first_match(s: Seq<u8>, needle: u8, p: int)
    requires
        is_first_match(s, needle, p),
    ensures
        occurrences(s, needle) == 1 + occurrences(s.subrange(p + 1, s.len() as int), needle),
    decreases p,
{
    let rest = s.drop_first();
    if p == 0 {
        assert(rest =~= s.subrange(1, s.len() as int));
    } else {
        assert(s[0] != needle);
        assert forall|j: int| 0 <= j < p - 1 implies rest[j] != needle by {
            assert(rest[j] == s[j + 1]);
        }
        assert(rest[p - 1] == s[p]);
        lemma_occurrences_after_first_match(rest, needle, p - 1);
        assert(rest.subrange(p, rest.len() as int) =~= s.subrange(p + 1, s.len() as int));
    }
}

} // verus!
