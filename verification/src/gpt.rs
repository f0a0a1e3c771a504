//! The block-wise scanner.
//!
//! A buffer is read in blocks of 16 or 32 bytes. Each block is compared with
//! the needle lane by lane, the outcome is gathered in a mask, and the lowest
//! set bit of the first mask that is not empty gives the match. The bytes that
//! no block reached are left to a sequential scan of the tail, and short
//! buffers are scanned sequentially from the start.

use vstd::prelude::*;
use crate::mask::{block_mask, lane_set, lemma_no_lane_of_zero, lowest_lane, MAX_LANES};
use crate::model::{absent_between, is_first_match, is_scan_result};

verus! {

/// Lanes of a narrow block.
pub const SSE2_BLOCK_SIZE: usize = 16;

/// Lanes of a wide block.
pub const AVX2_BLOCK_SIZE: usize = 32;

/// Buffers shorter than this are scanned sequentially.
pub const THRESHOLD: usize = 32;

/// The vector width that a processor offers, as far as this scanner tells
/// widths apart.
#[derive(Clone, Copy, Debug, PartialEq, Eq)]
pub enum Capability {
    /// Blocks of 32 lanes.
    Wide,
    /// Blocks of 16 lanes.
    Narrow,
    /// No vector unit: every byte goes to the sequential scan.
    Scalar,
}

/// How many blocks are read from a buffer of `len` bytes in which nothing
/// matches: a block is read at `offset` as long as `offset + repeat_size` does
/// not pass the end, and `offset` grows by `block_size`.
pub open spec fn blocks_attempted(len: int, block_size: int, repeat_size: int) -> int {
    if len < repeat_size {
        0
    } else {
        (len - repeat_size) / block_size + 1
    }
}

/// Where the block loop stops in a buffer of `len` bytes in which nothing
/// matches.
pub open spec fn stop_offset(len: int, block_size: int, repeat_size: int) -> int {
    blocks_attempted(len, block_size, repeat_size) * block_size
}

/// How long a prefix of a buffer of `len` bytes the block loop can examine: up
/// to the end of its last block.
pub open spec fn scanned_len(len: int, lanes: int, block_size: int, repeat_size: int) -> int {
    if len < repeat_size {
        0
    } else {
        (blocks_attempted(len, block_size, repeat_size) - 1) * block_size + lanes
    }
}

/// `r` is what the block loop owes on `s`: the leftmost match if it lies in the
/// prefix that the blocks cover, and else the offset at which the loop stops.
pub open spec fn is_block_scan_result(
    s: Seq<u8>,
    ch: u8,
    lanes: int,
    block_size: int,
    repeat_size: int,
    r: Result<usize, usize>,
) -> bool {
    let scanned = scanned_len(s.len() as int, lanes, block_size, repeat_size);
    match r {
        Ok(pos) => pos < scanned && is_first_match(s, ch, pos as int),
        Err(offset) => {
            &&& offset == stop_offset(s.len() as int, block_size, repeat_size)
            &&& offset <= s.len()
            &&& absent_between(s, ch, 0, scanned)
        },
    }
}

/// `r` is what a sequential scan of `s` from `start` owes: the leftmost match at
/// or after `start`, as a position of `s`, or `None` when there is none.
pub open spec fn is_tail_scan_result(s: Seq<u8>, ch: u8, start: int, r: Option<usize>) -> bool {
    match r {
        Some(pos) => {
            &&& start <= pos < s.len()
            &&& s[pos as int] == ch
            &&& absent_between(s, ch, start, pos as int)
        },
        None => absent_between(s, ch, start, s.len() as int),
    }
}

proof fn lemma_block_index_below(k: int, x: int, block_size: int)
    by (nonlinear_arith)
    requires
        0 <= k,
        1 <= block_size,
        k * block_size <= x,
    ensures
        k <= x / block_size,
        k * block_size <= (x / block_size) * block_size,
        (k + 1) * block_size == k * block_size + block_size,
{
}

proof fn lemma_block_index_above(k: int, x: int, block_size: int)
    by (nonlinear_arith)
    requires
        0 <= k,
        0 <= x,
        1 <= block_size,
        k * block_size > x,
    ensures
        k > x / block_size,
{
}

/// The block loop for blocks of `lanes` lanes, shared by both widths.
fn scan_blocks(buf: &[u8], ch: u8, lanes: usize, block_size: usize, repeat_size: usize) -> (r:
    Result<usize, usize>)
    requires
        1 <= block_size <= lanes <= repeat_size,
        lanes <= MAX_LANES,
    ensures
        is_block_scan_result(buf@, ch, lanes as int, block_size as int, repeat_size as int, r),
{
    let len: usize = buf.len();
    let mut offset: usize = 0;
    let ghost mut k: int = 0;
    while repeat_size <= len && offset <= len - repeat_size
        invariant
            1 <= block_size <= lanes <= repeat_size,
            lanes <= MAX_LANES,
            len == buf.len(),
            offset <= len,
            offset == k * block_size,
            0 <= k <= blocks_attempted(len as int, block_size as int, repeat_size as int),
            absent_between(
                buf@,
                ch,
                0,
                if k == 0 {
                    0
                } else {
                    offset - block_size + lanes
                },
            ),
        decreases len - offset,
    {
        proof {
            lemma_block_index_below(k, len - repeat_size, block_size as int);
        }
        let mask: u32 = block_mask(buf, offset, lanes, ch);
        if mask != 0 {
            let lane: usize = lowest_lane(mask);
            proof {
                assert forall|j: int| 0 <= j < offset + lane implies buf@[j] != ch by {
                    if j >= offset {
                        assert(!lane_set(mask, j - offset));
                    }
                }
            }
            return Ok(offset + lane);
        }
        proof {
            lemma_no_lane_of_zero();
            assert forall|j: int| 0 <= j < offset + lanes implies buf@[j] != ch by {
                if j >= offset {
                    assert(!lane_set(mask, j - offset));
                }
            }
            k = k + 1;
        }
        offset += block_size;
    }
    proof {
        if repeat_size <= len {
            lemma_block_index_above(k, len - repeat_size, block_size as int);
            assert((k - 1) * block_size + block_size == k * block_size) by (nonlinear_arith);
        }
    }
    Err(offset)
}

/// The block loop on blocks of 16 lanes: reads a block at `offset` while
/// `offset + repeat_size` does not pass the end of `buf`, and moves on by
/// `block_size`. Returns `Ok` with the leftmost match if a block holds one, and
/// else `Err` with the offset at which the loop stopped.
pub fn find_char_in_blocks(buf: &[u8], ch: u8, block_size: usize, repeat_size: usize) -> (r:
    Result<usize, usize>)
    requires
        1 <= block_size <= SSE2_BLOCK_SIZE <= repeat_size,
    ensures
        is_block_scan_result(
            buf@,
            ch,
            SSE2_BLOCK_SIZE as int,
            block_size as int,
            repeat_size as int,
            r,
        ),
{
    scan_blocks(buf, ch, SSE2_BLOCK_SIZE, block_size, repeat_size)
}

/// The block loop on blocks of 32 lanes: reads a block at `offset` while
/// `offset + repeat_size` does not pass the end of `buf`, and moves on by
/// `block_size`. Returns `Ok` with the leftmost match if a block holds one, and
/// else `Err` with the offset at which the loop stopped.
pub fn find_char_in_avx2_blocks(buf: &[u8], ch: u8, block_size: usize, repeat_size: usize) -> (r:
    Result<usize, usize>)
    requires
        1 <= block_size <= AVX2_BLOCK_SIZE <= repeat_size,
    ensures
        is_block_scan_result(
            buf@,
            ch,
            AVX2_BLOCK_SIZE as int,
            block_size as int,
            repeat_size as int,
            r,
        ),
{
    scan_blocks(buf, ch, AVX2_BLOCK_SIZE, block_size, repeat_size)
}

/// Scans `buf` sequentially from `start` on, and returns the leftmost match at
/// or after `start` as a position of `buf`.
pub fn find_char_in_tail(buf: &[u8], ch: u8, start: usize) -> (r: Option<usize>)
    requires
        start <= buf.len(),
    ensures
        is_tail_scan_result(buf@, ch, start as int, r),
{
    let remaining: &[u8] = buf.split_at(start).1;
    match crate::naive::memchr(ch, remaining) {
        Some(pos) => {
            proof {
                assert forall|j: int| start <= j < start + pos implies buf@[j] != ch by {
                    assert(remaining@[j - start] == buf@[j]);
                }
            }
            Some(start + pos)
        },
        None => {
            proof {
                assert forall|j: int| start <= j < buf.len() implies buf@[j] != ch by {
                    assert(remaining@[j - start] == buf@[j]);
                }
            }
            None
        },
    }
}

/// Returns the leftmost position of `haystack` that holds `needle`, or `None`
/// when `needle` does not occur, whatever `capability` is: it selects the block
/// width and nothing else.
pub fn memchr(needle: u8, haystack: &[u8], capability: Capability) -> (r: Option<usize>)
    ensures
        is_scan_result(haystack@, needle, r),
{
    if haystack.len() < THRESHOLD {
        return crate::naive::memchr(needle, haystack);
    }
    let result: Result<usize, usize> = match capability {
        Capability::Wide => find_char_in_avx2_blocks(
            haystack,
            needle,
            AVX2_BLOCK_SIZE,
            2 * AVX2_BLOCK_SIZE,
        ),
        Capability::Narrow => find_char_in_blocks(
            haystack,
            needle,
            SSE2_BLOCK_SIZE,
            2 * SSE2_BLOCK_SIZE,
        ),
        Capability::Scalar => Err(0),
    };
    proof {
        lemma_stop_within_scanned(
            haystack@.len() as int,
            AVX2_BLOCK_SIZE as int,
            AVX2_BLOCK_SIZE as int,
            2 * AVX2_BLOCK_SIZE,
        );
        lemma_stop_within_scanned(
            haystack@.len() as int,
            SSE2_BLOCK_SIZE as int,
            SSE2_BLOCK_SIZE as int,
            2 * SSE2_BLOCK_SIZE,
        );
    }
    match result {
        Ok(pos) => Some(pos),
        Err(offset) => find_char_in_tail(haystack, needle, offset),
    }
}

/// The block loop stops inside the prefix that its blocks cover, so the tail
/// scan that starts there misses no byte.
pub proof fn lemma_stop_within_scanned(len: int, lanes: int, block_size: int, repeat_size: int)
    requires
        1 <= block_size <= lanes,
    ensures
        stop_offset(len, block_size, repeat_size) <= scanned_len(
            len,
            lanes,
            block_size,
            repeat_size,
        ),
{
    let n = blocks_attempted(len, block_size, repeat_size);
    assert((n - 1) * block_size + block_size == n * block_size) by (nonlinear_arith);
}

} // verus!
