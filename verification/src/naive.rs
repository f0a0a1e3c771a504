//! The sequential scanner: one comparison per byte, left to right.

use vstd::prelude::*;
use crate::model::{absent_between, is_scan_result};

verus! {

/// Returns the leftmost position of `haystack` that holds `needle`, or `None`
/// when `needle` does not occur.
pub fn memchr(needle: u8, haystack: &[u8]) -> (r: Option<usize>)
    ensures
        is_scan_result(haystack@, needle, r),
{
    let mut i: usize = 0;
    while i < haystack.len()
        invariant
            i <= haystack.len(),
            absent_between(haystack@, needle, 0, i as int),
        decreases haystack.len() - i,
    {
        if haystack[i] == needle {
            return Some(i);
        }
        i += 1;
    }
    None
}

} // verus!
