use vstd::prelude::*;
use vstd::arithmetic::power2::pow2;
use vstd::bits::{lemma_u32_shl_is_mul, lemma_u32_pow2_no_overflow};

verus! {

/// Largest code value of an unsigned channel of `bit_depth` bits.
pub fn quantized_maximum(bit_depth: u32) -> (m: u32)
    requires
        1 <= bit_depth <= 32,
    ensures
        m == pow2(bit_depth as nat) - 1,
{
    if bit_depth == 32 {
        proof {
            vstd::arithmetic::power2::lemma2_to64();
        }
        u32::MAX
    } else {
        proof {
            lemma_u32_pow2_no_overflow(bit_depth as nat);
            lemma_u32_shl_is_mul(1, bit_depth);
        }
        (1u32 << bit_depth) - 1
    }
}

} // verus!
