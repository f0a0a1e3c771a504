//! Searching a byte buffer for the first occurrence of one byte value.
//!
//! Two scanners are offered, a sequential one in [`naive`] and a block-wise one
//! in [`gpt`], together with [`memchr_count`], which counts every occurrence by
//! applying a scanner again and again. All of them are held to the same
//! mathematical description, found in [`model`].

use vstd::prelude::*;
use crate::gpt::Capability;
use crate::model::{
    is_scan_result, lemma_occurrences_after_first_match, lemma_occurrences_of_absent,
    lemma_scan_results_agree, occurrences,
};

pub mod gpt;
pub mod mask;
pub mod model;
pub mod naive;

verus! {

/// Counts the occurrences of `needle` in `haystack` with the scanner `memchr`:
/// after each hit the scan goes on from the byte behind it, so no byte is
/// scanned for a second match and no match is left out.
///
/// The scanner must accept every buffer for this needle and answer as
/// `is_scan_result` describes; the count is then the same for every scanner.
pub fn memchr_count<F: Fn(u8, &[u8]) -> Option<usize>>(
    needle: u8,
    haystack: &[u8],
    memchr: F,
) -> (count: usize)
    requires
        forall|h: &[u8]| call_requires(memchr, (needle, h)),
        forall|h: &[u8], r: Option<usize>| #[trigger]
            call_ensures(memchr, (needle, h), r) ==> is_scan_result(h@, needle, r),
    ensures
        count == occurrences(haystack@, needle),
{
    let mut rest: &[u8] = haystack;
    let mut count: usize = 0;
    loop
        invariant
            forall|h: &[u8]| call_requires(memchr, (needle, h)),
            forall|h: &[u8], r: Option<usize>| #[trigger]
                call_ensures(memchr, (needle, h), r) ==> is_scan_result(h@, needle, r),
            count + occurrences(rest@, needle) == occurrences(haystack@, needle),
            count + rest.len() <= haystack.len(),
        decreases rest.len(),
    {
        match memchr(needle, rest) {
            Some(pos) => {
                proof {
                    lemma_occurrences_after_first_match(rest@, needle, pos as int);
                }
                rest = rest.split_at(pos + 1).1;
                count += 1;
            },
            None => {
                proof {
                    lemma_occurrences_of_absent(rest@, needle);
                }
                return count;
            },
        }
    }
}

/// The sequential scanner and the block-wise scanner return the same answer
/// for every needle and every buffer, whatever the block width.
pub proof fn lemma_scanners_agree(
    needle: u8,
    haystack: &[u8],
    capability: Capability,
    sequential: Option<usize>,
    blockwise: Option<usize>,
)
    requires
        call_ensures(naive::memchr, (needle, haystack), sequential),
        call_ensures(gpt::memchr, (needle, haystack, capability), blockwise),
    ensures
        sequential == blockwise,
{
    lemma_scan_results_agree(haystack@, needle, sequential, blockwise);
}

/// Counting gives the same number with every scanner that answers as
/// `is_scan_result` describes: the number of positions that hold the needle.
pub proof fn lemma_counts_agree<
    F: Fn(u8, &[u8]) -> Option<usize>,
    G: Fn(u8, &[u8]) -> Option<usize>,
>(
    needle: u8,
    haystack: &[u8],
    first: F,
    second: G,
    a: usize,
    b: usize,
)
    requires
        forall|h: &[u8]| call_requires(first, (needle, h)),
        forall|h: &[u8], r: Option<usize>| #[trigger]
            call_ensures(first, (needle, h), r) ==> is_scan_result(h@, needle, r),
        forall|h: &[u8]| call_requires(second, (needle, h)),
        forall|h: &[u8], r: Option<usize>| #[trigger]
            call_ensures(second, (needle, h), r) ==> is_scan_result(h@, needle, r),
        call_ensures(memchr_count::<F>, (needle, haystack, first), a),
        call_ensures(memchr_count::<G>, (needle, haystack, second), b),
    ensures
        a == b,
        a == occurrences(haystack@, needle),
{
}

} // verus!
