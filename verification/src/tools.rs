//! Bit-range utilities used by the descriptor-table code: reading a range
//! of bits out of a word, and splicing a bit pattern into one.
//!
//! The contracts speak arithmetic: bit range `[lower, higher]` of `x` is
//! `(x / 2^lower) % 2^(higher + 1 - lower)`.

use vstd::arithmetic::power2::pow2;
use vstd::prelude::*;

verus! {

/// Reads bits `lower` through `higher` (inclusive) out of `target`,
/// right-aligned.
pub fn bin_extract(target: u64, higher: usize, lower: usize) -> (r: u64)
    requires
        lower <= higher < 64,
        higher - lower < 63,
    ensures
        r as nat == (target as nat / pow2(lower as nat)) % pow2((higher + 1 - lower) as nat),
{
    let width = (higher + 1 - lower) as u64;
    proof {
        vstd::bits::lemma_u64_pow2_no_overflow(width as nat);
        vstd::bits::lemma_u64_shl_is_mul(1u64, width);
        vstd::bits::lemma_u64_shr_is_div(target, lower as u64);
        vstd::arithmetic::power2::lemma_pow2_pos(width as nat);
    }
    let shifted = target >> (lower as u64);
    let mask = (1u64 << width) - 1;
    proof {
        assert(mask as nat == vstd::bits::low_bits_mask(width as nat));
        vstd::bits::lemma_u64_low_bits_mask_is_mod(shifted, width as nat);
    }
    shifted & mask
}

/// Splices `payload` into bits `lower` through `higher` (inclusive) of
/// `target`: bits below `lower` and above `higher` keep `target`'s values,
/// and the range itself becomes `payload`.
pub fn bin_insert(target: u64, payload: u64, higher: usize, lower: usize) -> (r: u64)
    requires
        lower <= higher < 64,
        higher - lower < 63,
        (payload as nat) < pow2((higher + 1 - lower) as nat),
    ensures
        r as nat % pow2(lower as nat) == target as nat % pow2(lower as nat),
        (r as nat / pow2(lower as nat)) % pow2((higher + 1 - lower) as nat) == payload as nat,
        r as nat / pow2((higher + 1) as nat) == target as nat / pow2((higher + 1) as nat),
{
    let l = lower as u64;
    let h = higher as u64;
    let width = (higher + 1 - lower) as u64;
    proof {
        vstd::bits::lemma_u64_pow2_no_overflow(width as nat);
        vstd::bits::lemma_u64_shl_is_mul(1u64, width);
        vstd::bits::lemma_u64_pow2_no_overflow(l as nat);
        vstd::bits::lemma_u64_shl_is_mul(1u64, l);
        vstd::arithmetic::power2::lemma_pow2_pos(width as nat);
        vstd::arithmetic::power2::lemma_pow2_pos(l as nat);
    }
    let enable = payload << l;
    let mlow = (1u64 << l) - 1;
    let mhi: u64 = if higher == 63 {
        0
    } else {
        u64::MAX << (h + 1)
    };
    let disable = (enable | mlow) | mhi;
    let r = (target | enable) & disable;
    proof {
        let w = width;
        // Bits below `lower` are target's.
        assert(r & mlow == target & mlow) by (bit_vector)
            requires
                r == (target | (payload << l)) & (((payload << l) | mlow) | mhi),
                mlow == vstd::prelude::sub(1u64 << l, 1),
                mhi == (if l + w == 64 {
                    0u64
                } else {
                    u64::MAX << (l + w)
                }),
                l + w <= 64,
                1u64 <= w < 64,
                payload < (1u64 << w),
        ;
        assert(mlow as nat == vstd::bits::low_bits_mask(l as nat));
        vstd::bits::lemma_u64_low_bits_mask_is_mod(r, l as nat);
        vstd::bits::lemma_u64_low_bits_mask_is_mod(target, l as nat);
        // The range itself is payload.
        assert((r >> l) & vstd::prelude::sub(1u64 << w, 1) == payload) by (bit_vector)
            requires
                r == (target | (payload << l)) & (((payload << l) | mlow) | mhi),
                mlow == vstd::prelude::sub(1u64 << l, 1),
                mhi == (if l + w == 64 {
                    0u64
                } else {
                    u64::MAX << (l + w)
                }),
                l + w <= 64,
                1u64 <= w < 64,
                payload < (1u64 << w),
        ;
        vstd::bits::lemma_u64_shr_is_div(r, l);
        assert(vstd::prelude::sub(1u64 << w, 1) as nat == vstd::bits::low_bits_mask(w as nat));
        vstd::bits::lemma_u64_low_bits_mask_is_mod((r >> l), w as nat);
        // Bits above `higher` are target's.
        if higher == 63 {
            vstd::arithmetic::power2::lemma2_to64_rest();
            assert(r as nat / pow2(64) == 0) by {
                vstd::arithmetic::div_mod::lemma_basic_div(r as int, pow2(64) as int);
            }
            assert(target as nat / pow2(64) == 0) by {
                vstd::arithmetic::div_mod::lemma_basic_div(target as int, pow2(64) as int);
            }
        } else {
            assert(r >> (l + w) == target >> (l + w)) by (bit_vector)
                requires
                    r == (target | (payload << l)) & (((payload << l) | mlow) | mhi),
                    mlow == vstd::prelude::sub(1u64 << l, 1),
                    mhi == u64::MAX << (l + w),
                    l + w < 64,
                    1u64 <= w < 64,
                    payload < (1u64 << w),
            ;
            vstd::bits::lemma_u64_shr_is_div(r, (h + 1) as u64);
            vstd::bits::lemma_u64_shr_is_div(target, (h + 1) as u64);
        }
    }
    r
}

} // verus!
