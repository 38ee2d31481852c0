//! Vocabulary size estimates by Heaps' law.
use vstd::prelude::*;

verus! {

/// The growth constant used when no vocabulary size is given.
pub const DEFAULT_GROWTH_CONSTANT: u32 = 45;

/// Heaps' law with exponent one half: `floor(k * sqrt(tokens))`, the largest
/// `r` with `r * r <= k * k * tokens`.
pub fn voc_size(k: u32, tokens: usize) -> (r: u64)
    ensures
        (r as int) * (r as int) <= (k as int) * (k as int) * (tokens as int),
        (k as int) * (k as int) * (tokens as int) < (r as int + 1) * (r as int + 1),
{
    assert((k as int) * (k as int) <= 0xffff_ffff_ffff_ffff) by (nonlinear_arith)
        requires
            k <= 0xffff_ffff,
    ;
    let kk: u128 = k as u128 * k as u128;
    proof {
        assert(kk * (tokens as int) <= 0xffff_ffff_ffff_ffff * 0xffff_ffff_ffff_ffff) by (nonlinear_arith)
            requires
                kk <= 0xffff_ffff_ffff_ffff,
                tokens <= 0xffff_ffff_ffff_ffff,
        ;
    }
    let n: u128 = kk * tokens as u128;
    let mut lo: u128 = 0;
    let mut hi: u128 = 0x1_0000_0000_0000_0000;
    assert(n < hi * hi) by (nonlinear_arith)
        requires
            n <= 0xffff_ffff_ffff_ffff * 0xffff_ffff_ffff_ffff,
            hi == 0x1_0000_0000_0000_0000,
    ;
    while hi - lo > 1
        invariant
            lo < hi <= 0x1_0000_0000_0000_0000,
            lo * lo <= n,
            n < hi * hi,
        decreases hi - lo,
    {
        let mid = lo + (hi - lo) / 2;
        assert(mid * mid < 0x1_0000_0000_0000_0000 * 0x1_0000_0000_0000_0000) by (nonlinear_arith)
            requires
                mid < 0x1_0000_0000_0000_0000,
        ;
        if mid * mid <= n {
            lo = mid;
        } else {
            hi = mid;
        }
    }
    lo as u64
}

} // verus!
