//! Deterministic pseudo-random integer source: a 32-bit Galois LFSR, plus a
//! mapping of its raw output onto an inclusive integer range. Stack
//! initialization draws its slice values from here; every draw is a pure
//! function of the generator state, so callers get exact contracts.

use vstd::arithmetic::power2::{lemma2_to64, pow2};
use vstd::bits::lemma_u64_shr_is_div;
use vstd::prelude::*;

verus! {

/// Feedback taps of the 32-bit Galois LFSR.
pub const LSFW_TAPS: u32 = 0x8020_0003;

/// State of the generator: the current shift-register value.
pub struct PrngCtxGaloisLsfw {
    pub value: u32,
}

/// One step of the Galois LFSR: shift right, and fold the taps back in
/// when the bit that fell off was set.
pub open spec fn lsfw_next(v: u32) -> u32 {
    if v & 1 == 1 {
        (v >> 1) ^ LSFW_TAPS
    } else {
        v >> 1
    }
}

/// The register value after `k` steps from `v`.
pub open spec fn lsfw_iter(v: u32, k: nat) -> u32
    decreases k,
{
    if k == 0 {
        v
    } else {
        lsfw_next(lsfw_iter(v, (k - 1) as nat))
    }
}

/// Rounded scaling of a raw 32-bit draw onto `[min, max]`:
/// `min + round(raw * (max - min) / 2^32)`.
pub open spec fn scale_in_range(raw: u32, min: int, max: int) -> int {
    min + (raw * (max - min) + 0x8000_0000) / 0x1_0000_0000
}

/// Re-seed the generator.
pub fn prng_seed_galois_lsfw(ctx: &mut PrngCtxGaloisLsfw, seed: u32)
    ensures
        final(ctx).value == seed,
{
    ctx.value = seed;
}

/// Advance the generator one step and return the new register value.
pub fn prng_galois_lsfw(ctx: &mut PrngCtxGaloisLsfw) -> (r: u32)
    ensures
        r == lsfw_next(old(ctx).value),
        final(ctx).value == r,
{
    let v = ctx.value;
    let next = if v & 1 == 1 {
        (v >> 1) ^ LSFW_TAPS
    } else {
        v >> 1
    };
    ctx.value = next;
    next
}

/// The scaled draw stays inside `[min, max]` and fits the word sizes used by
/// the executable code.
proof fn lemma_scale_in_range_bounds(raw: u32, min: int, max: int)
    requires
        min <= max,
        max - min <= i32::MAX as int,
    ensures
        min <= scale_in_range(raw, min, max) <= max,
        raw * (max - min) + 0x8000_0000 <= u64::MAX as int,
{
    let span = max - min;
    assert(raw * span <= 0xFFFF_FFFF * span) by (nonlinear_arith)
        requires
            0 <= raw <= 0xFFFF_FFFF,
            0 <= span,
    ;
    assert(0 <= raw * span) by (nonlinear_arith)
        requires
            0 <= raw,
            0 <= span,
    ;
    assert((raw * span + 0x8000_0000) / 0x1_0000_0000 <= span) by {
        assert(raw * span + 0x8000_0000 < (span + 1) * 0x1_0000_0000) by (nonlinear_arith)
            requires
                raw * span <= 0xFFFF_FFFF * span,
                0 <= span,
        ;
    };
}

/// Advance the generator one step and map the draw onto the inclusive range
/// `[min, max]`.
pub fn prng_galois_lsfw_int_minmax(ctx: &mut PrngCtxGaloisLsfw, min: i32, max: i32) -> (r: i32)
    requires
        min <= max,
        max as int - min as int <= i32::MAX as int,
    ensures
        final(ctx).value == lsfw_next(old(ctx).value),
        r as int == scale_in_range(lsfw_next(old(ctx).value), min as int, max as int),
        min <= r <= max,
{
    let raw = prng_galois_lsfw(ctx);
    let span = (max - min) as u32;
    proof {
        lemma_scale_in_range_bounds(raw, min as int, max as int);
    }
    let prod: u64 = (raw as u64) * (span as u64);
    let sum: u64 = prod + 0x8000_0000;
    let shifted: u64 = sum >> 32;
    proof {
        lemma_u64_shr_is_div(sum, 32);
        lemma2_to64();
        assert(pow2(32) == 0x1_0000_0000nat);
    }
    min + (shifted as i32)
}

} // verus!
