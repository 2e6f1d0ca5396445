//! Splitting an address into block offset, set index and tag.

use vstd::arithmetic::power2::pow2;
use vstd::prelude::*;

verus! {

/// The tag of an address: what lies above the set-index and block-offset fields.
pub open spec fn tag_of(address: u64, set_index_bits: u32, block_bits: u32) -> u64 {
    (address as nat / pow2((set_index_bits + block_bits) as nat)) as u64
}

/// The set index of an address: the `set_index_bits` bits just above the
/// block offset.
pub open spec fn set_index_of(address: u64, set_index_bits: u32, block_bits: u32) -> u64 {
    ((address as nat / pow2(block_bits as nat)) % pow2(set_index_bits as nat)) as u64
}

/// Shifting one left by fewer than 64 places gives that power of two.
pub proof fn lemma_one_shl_is_pow2(bits: u64)
    requires
        bits < 64,
    ensures
        (1u64 << bits) == pow2(bits as nat),
{
    vstd::bits::lemma_u64_pow2_no_overflow(bits as nat);
    vstd::bits::lemma_u64_shl_is_mul(1u64, bits);
}

/// Decodes an address into `(set index, tag)` for a cache with
/// `2^set_index_bits` sets and blocks of `2^block_bits` bytes.
pub fn decode(address: u64, set_index_bits: u32, block_bits: u32) -> (fields: (u64, u64))
    requires
        set_index_bits + block_bits < 64,
    ensures
        fields.0 == set_index_of(address, set_index_bits, block_bits),
        fields.1 == tag_of(address, set_index_bits, block_bits),
        fields.0 < pow2(set_index_bits as nat),
        fields.0 == (address >> (block_bits as u64)) & (((1u64 << (set_index_bits as u64)) - 1) as u64),
        fields.1 == address >> ((set_index_bits + block_bits) as u64),
{
    let s: u64 = set_index_bits as u64;
    let b: u64 = block_bits as u64;
    let tag: u64 = address >> (b + s);
    let above_offset: u64 = address >> b;
    let sets: u64 = 1u64 << s;
    proof {
        lemma_one_shl_is_pow2(s);
        vstd::bits::lemma_u64_pow2_no_overflow(s as nat);
    }
    let mask: u64 = sets - 1;
    let set_index: u64 = above_offset & mask;
    proof {
        vstd::bits::lemma_u64_shr_is_div(address, (b + s) as u64);
        vstd::bits::lemma_u64_shr_is_div(address, b);
        vstd::bits::lemma_u64_low_bits_mask_is_mod(above_offset, s as nat);
        assert(mask == vstd::bits::low_bits_mask(s as nat));
        vstd::arithmetic::div_mod::lemma_mod_bound(above_offset as int, pow2(s as nat) as int);
    }
    (set_index, tag)
}

/// Decoding is a function of the address and the geometry: two calls on the
/// same arguments give the same set index and the same tag.
pub proof fn lemma_decode_is_repeatable(
    address: u64,
    set_index_bits: u32,
    block_bits: u32,
    first: (u64, u64),
    second: (u64, u64),
)
    requires
        call_ensures(decode, (address, set_index_bits, block_bits), first),
        call_ensures(decode, (address, set_index_bits, block_bits), second),
    ensures
        first == second,
{
}

} // verus!
