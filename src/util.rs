//! Small integer helpers.
use vstd::prelude::*;

verus! {

/// Reinterpret the bits of `i` as a two's-complement signed integer.
pub fn u64_i64(i: u64) -> (r: i64)
    ensures
        r as int == if i < 0x8000_0000_0000_0000 { i as int } else { i as int - 0x1_0000_0000_0000_0000 },
{
    if i < 0x8000_0000_0000_0000 {
        i as i64
    } else {
        let bits = i - 0x8000_0000_0000_0000;
        (bits as i64) - 0x7FFF_FFFF_FFFF_FFFF - 1
    }
}

/// Round `i` up to the next multiple of `b`, which must be at least 2.
pub fn align(i: usize, b: usize) -> (r: usize)
    requires
        b >= 2,
        i + b <= usize::MAX,
    ensures
        r % b == 0,
        i <= r < i + b,
{
    let rem = i % b;
    if rem == 0 {
        i
    } else {
        let r = i + (b - rem);
        assert(r % b == 0) by {
            vstd::arithmetic::div_mod::lemma_fundamental_div_mod(i as int, b as int);
            assert(((i / b + 1) as int) * (b as int) == (b as int) * ((i / b) as int) + b) by (nonlinear_arith);
            vstd::arithmetic::div_mod::lemma_fundamental_div_mod_converse(r as int, b as int, (i / b + 1) as int, 0);
        }
        r
    }
}

} // verus!
