//! Chunk-offset alignment arithmetic: rounding an offset down to the
//! chunk boundary it belongs to, and the facts about multiples of the
//! chunk size that the buffer's range computations rest on.

use vstd::prelude::*;
use vstd::arithmetic::div_mod::lemma_div_is_ordered;
use vstd::arithmetic::div_mod::lemma_fundamental_div_mod;
use vstd::arithmetic::div_mod::lemma_mod_add_multiples_vanish;
use vstd::arithmetic::div_mod::lemma_mod_division_less_than_divisor;
use vstd::arithmetic::div_mod::lemma_mod_multiples_vanish;
use vstd::arithmetic::div_mod::lemma_small_mod;
use vstd::arithmetic::div_mod::lemma_sub_mod_noop;
use vstd::arithmetic::mul::lemma_mul_inequality;
use vstd::arithmetic::mul::lemma_mul_is_commutative;

verus! {

/// `x` lies on a chunk boundary for chunk size `c`.
pub open spec fn aligned(x: int, c: int) -> bool {
    x % c == 0
}

/// The greatest multiple of `c` that is at most `x`: the start of the
/// chunk containing offset `x`.
pub open spec fn align_down(x: int, c: int) -> int {
    x - x % c
}

/// Rounding down lands on an aligned offset at most `x`, less than one
/// chunk below it.
pub proof fn lemma_align_down(x: int, c: int)
    requires
        c > 0,
        x >= 0,
    ensures
        aligned(align_down(x, c), c),
        0 <= align_down(x, c) <= x < align_down(x, c) + c,
{
    lemma_mod_division_less_than_divisor(x, c);
    lemma_fundamental_div_mod(x, c);
    // align_down(x, c) == c * (x / c)
    lemma_mod_multiples_vanish(x / c, 0, c);
    lemma_small_mod(0, c as nat);
}

/// Rounding down is monotone.
pub proof fn lemma_align_down_monotone(x: int, y: int, c: int)
    requires
        c > 0,
        0 <= x <= y,
    ensures
        align_down(x, c) <= align_down(y, c),
{
    lemma_fundamental_div_mod(x, c);
    lemma_fundamental_div_mod(y, c);
    lemma_mod_division_less_than_divisor(x, c);
    lemma_mod_division_less_than_divisor(y, c);
    lemma_div_is_ordered(x, y, c);
    lemma_mul_inequality(x / c, y / c, c);
    lemma_mul_is_commutative(c, x / c);
    lemma_mul_is_commutative(c, y / c);
}

/// The difference of two aligned offsets is a multiple of `c`.
pub proof fn lemma_aligned_diff(a: int, b: int, c: int)
    requires
        c > 0,
        aligned(a, c),
        aligned(b, c),
    ensures
        aligned(b - a, c),
{
    lemma_sub_mod_noop(b, a, c);
    lemma_small_mod(0, c as nat);
}

/// Two aligned offsets less than one chunk apart are equal.
pub proof fn lemma_aligned_close(a: int, b: int, c: int)
    requires
        c > 0,
        aligned(a, c),
        aligned(b, c),
        a <= b < a + c,
    ensures
        a == b,
{
    lemma_aligned_diff(a, b, c);
    lemma_small_mod((b - a) as nat, c as nat);
}

/// The next chunk boundary after an aligned offset is aligned.
pub proof fn lemma_aligned_step(a: int, c: int)
    requires
        c > 0,
        aligned(a, c),
    ensures
        aligned(a + c, c),
{
    lemma_mod_add_multiples_vanish(a, c);
}

} // verus!
