//! Helpers for moving between `u128` keys and pairs of `u64` halves.

use vstd::prelude::*;

verus! {

/// Joins two `u64` words into a `u128`, the first word in the high half.
pub fn combine_u64s(nums: [u64; 2]) -> (r: u128)
    ensures
        r == nums[0] * 0x1_0000_0000_0000_0000 + nums[1],
{
    let r: u128 = ((nums[0] as u128) << 64) | (nums[1] as u128);
    proof {
        let hi = nums[0];
        let lo = nums[1];
        assert(((hi as u128) << 64) | (lo as u128)
            == (hi as u128) * 0x1_0000_0000_0000_0000 + (lo as u128)) by (bit_vector);
    }
    r
}

/// Splits a `u128` into its high and low `u64` words, high first.
pub fn split_u128(num: u128) -> (r: [u64; 2])
    ensures
        r[0] == num / 0x1_0000_0000_0000_0000,
        r[1] == num % 0x1_0000_0000_0000_0000,
{
    let r: [u64; 2] = [(num >> 64) as u64, num as u64];
    proof {
        assert((num >> 64) as u64 == num / 0x1_0000_0000_0000_0000
            && num as u64 == num % 0x1_0000_0000_0000_0000) by (bit_vector);
    }
    r
}

/// Splitting inverts joining: the two halves of a combined pair are the
/// original words, and combining the halves of a key gives the key back.
pub proof fn lemma_split_combine_roundtrip(hi: u64, lo: u64, num: u128)
    ensures
        (hi * 0x1_0000_0000_0000_0000 + lo) / 0x1_0000_0000_0000_0000 == hi,
        (hi * 0x1_0000_0000_0000_0000 + lo) % 0x1_0000_0000_0000_0000 == lo,
        (num / 0x1_0000_0000_0000_0000) * 0x1_0000_0000_0000_0000
            + num % 0x1_0000_0000_0000_0000 == num,
{
    let h = hi as u128;
    let l = lo as u128;
    assert((h * 0x1_0000_0000_0000_0000 + l) / 0x1_0000_0000_0000_0000 == h
        && (h * 0x1_0000_0000_0000_0000 + l) % 0x1_0000_0000_0000_0000 == l) by (bit_vector)
        requires
            h < 0x1_0000_0000_0000_0000,
            l < 0x1_0000_0000_0000_0000,
    ;
    assert((num / 0x1_0000_0000_0000_0000) * 0x1_0000_0000_0000_0000
        + num % 0x1_0000_0000_0000_0000 == num) by (bit_vector);
}

} // verus!
