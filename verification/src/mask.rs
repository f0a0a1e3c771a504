//! Lane masks: one bit per byte of a block, set where the byte equals the
//! needle. Lane `i` of a block stands for the byte at the block's start plus `i`,
//! and is recorded in bit `i` of the mask, so the lowest set bit is the leftmost
//! match in memory order.

use vstd::prelude::*;
use vstd::std_specs::bits::axiom_u32_trailing_zeros;

verus! {

/// The most lanes that one mask can record.
pub const MAX_LANES: usize = 32;

/// Bit `lane` of `mask` is set.
pub open spec fn lane_set(mask: u32, lane: int) -> bool {
    0 <= lane < 32 && (mask >> (lane as u32)) & 1u32 == 1u32
}

proof fn lemma_bit_of_zero(i: u32)
    by (bit_vector)
    requires
        i < 32,
    ensures
        (0u32 >> i) & 1u32 == 0u32,
{
}

proof fn lemma_bit_after_or(mask: u32, lane: u32, i: u32)
    by (bit_vector)
    requires
        lane < 32,
        i < 32,
    ensures
        ((mask | (1u32 << lane)) >> i) & 1u32 == 1u32 <==> ((mask >> i) & 1u32 == 1u32 || i
            == lane),
{
}

/// The empty mask has no lane set.
pub proof fn lemma_no_lane_of_zero()
    ensures
        forall|i: int| !#[trigger] lane_set(0u32, i),
{
    assert forall|i: int| !#[trigger] lane_set(0u32, i) by {
        if 0 <= i < 32 {
            lemma_bit_of_zero(i as u32);
        }
    }
}

/// Compares the `lanes` bytes of `buf` that start at `offset` with `ch`, and
/// returns the mask of the lanes that are equal to it.
pub fn block_mask(buf: &[u8], offset: usize, lanes: usize, ch: u8) -> (mask: u32)
    requires
        lanes <= MAX_LANES,
        offset + lanes <= buf.len(),
    ensures
        forall|i: int|
            #[trigger] lane_set(mask, i) <==> (0 <= i < lanes && buf@[offset + i] == ch),
{
    let mut mask: u32 = 0;
    let mut lane: usize = 0;
    proof {
        lemma_no_lane_of_zero();
    }
    while lane < lanes
        invariant
            lane <= lanes <= MAX_LANES,
            offset + lanes <= buf.len(),
            forall|i: int|
                #[trigger] lane_set(mask, i) <==> (0 <= i < lane && buf@[offset + i] == ch),
        decreases lanes - lane,
    {
        if buf[offset + lane] == ch {
            let bit: u32 = 1u32 << (lane as u32);
            proof {
                assert forall|i: int| #[trigger]
                    lane_set(mask | bit, i) <==> (lane_set(mask, i) || i == lane) by {
                    if 0 <= i < 32 {
                        lemma_bit_after_or(mask, lane as u32, i as u32);
                    }
                }
            }
            mask = mask | bit;
        }
        lane += 1;
    }
    mask
}

/// Decodes a mask: returns the lowest lane that is set in it.
pub fn lowest_lane(mask: u32) -> (lane: usize)
    requires
        mask != 0,
    ensures
        lane_set(mask, lane as int),
        forall|j: int| 0 <= j < lane ==> !lane_set(mask, j),
{
    let zeros: u32 = mask.trailing_zeros();
    proof {
        axiom_u32_trailing_zeros(mask);
        assert forall|j: int| 0 <= j < zeros implies !lane_set(mask, j) by {
            let low: u32 = j as u32;
            assert((mask >> low) & 1u32 == 0u32);
        }
    }
    zeros as usize
}

} // verus!
