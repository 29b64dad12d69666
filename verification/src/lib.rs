//! Verified building blocks for competitive programming: ordered maps,
//! range-sum trees, disjoint sets, graphs and number theory.

use vstd::arithmetic::power2::pow2;
use vstd::prelude::*;
use vstd::std_specs::bits::{axiom_u32_leading_zeros, u32_leading_zeros};

pub mod algo;
pub mod ds;
pub mod graph;
pub mod input;
pub mod math;
pub mod misc;
pub mod num;
pub mod option_ext;
pub mod perm;
pub mod vec2;

verus! {

/// The base 2 logarithm of `value`, rounded down.
pub fn log2(value: i32) -> (r: i32)
    requires
        value > 0,
    ensures
        0 <= r <= 30,
        pow2(r as nat) <= value < pow2((r + 1) as nat),
{
    let bits = value as u32;
    let zeros = bits.leading_zeros();
    proof {
        axiom_u32_leading_zeros(bits);
        let top: u32 = (31 - zeros) as u32;
        let above: u32 = (32 - zeros) as u32;
        assert((bits >> top) & 1u32 != 0u32);
        assert(bits >> above == 0u32);
        assert(bits >= (1u32 << top)) by (bit_vector)
            requires
                top < 32,
                (bits >> top) & 1u32 != 0u32,
        ;
        assert(top < 31) by (bit_vector)
            requires
                top < 32,
                (bits >> top) & 1u32 != 0u32,
                bits < 0x8000_0000u32,
        ;
        assert(bits < (1u32 << above)) by (bit_vector)
            requires
                above < 32,
                bits >> above == 0u32,
        ;
        vstd::bits::lemma_u32_pow2_no_overflow(top as nat);
        vstd::bits::lemma_u32_pow2_no_overflow(above as nat);
        vstd::bits::lemma_u32_shl_is_mul(1u32, top);
        vstd::bits::lemma_u32_shl_is_mul(1u32, above);
    }
    (32 - zeros - 1) as i32
}

} // verus!
