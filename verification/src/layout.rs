//! Size and alignment arithmetic for the growable arena: rounding a cursor up
//! to an alignment boundary, and picking power-of-two capacities.

use vstd::prelude::*;
use vstd::arithmetic::div_mod::{
    lemma_fundamental_div_mod, lemma_mod_bound, lemma_mod_multiples_basic,
};

verus! {

/// True exactly of the powers of two: 1, 2, 4, 8, ...
pub open spec fn is_pow2(n: int) -> bool
    decreases n,
{
    if n <= 0 {
        false
    } else if n == 1 {
        true
    } else {
        n % 2 == 0 && is_pow2(n / 2)
    }
}

/// The least multiple of `a` that is at least `x`.
pub open spec fn round_up(x: int, a: int) -> int {
    if x % a == 0 {
        x
    } else {
        x + a - x % a
    }
}

pub proof fn lemma_round_up(x: int, a: int)
    requires
        0 <= x,
        1 <= a,
    ensures
        round_up(x, a) % a == 0,
        x <= round_up(x, a) < x + a,
{
    lemma_fundamental_div_mod(x, a);
    lemma_mod_bound(x, a);
    if x % a != 0 {
        let q = x / a;
        assert(x + a - x % a == a * (q + 1)) by {
            assert(x == a * q + x % a);
            assert(a * (q + 1) == a * q + a) by (nonlinear_arith);
        }
        lemma_mod_multiples_basic(q + 1, a);
    }
}

/// Round `x` up to the next multiple of the alignment `a`.
pub fn round_up_usize(x: usize, a: usize) -> (r: usize)
    requires
        1 <= a,
        round_up(x as int, a as int) <= usize::MAX,
    ensures
        r as int == round_up(x as int, a as int),
{
    proof {
        lemma_round_up(x as int, a as int);
    }
    let rem = x % a;
    if rem == 0 {
        x
    } else {
        x + (a - rem)
    }
}

/// The smallest power of two that is at least `n`, with a floor of 64: the
/// capacity the arena grows to when `n` bytes must fit.
pub fn grow_capacity(n: usize) -> (cap: usize)
    requires
        n <= usize::MAX / 2,
    ensures
        is_pow2(cap as int),
        64 <= cap,
        n <= cap,
        cap == 64 || cap < 2 * n,
{
    proof {
        reveal_with_fuel(is_pow2, 8);
        assert(is_pow2(64));
    }
    let mut cap: usize = 64;
    while cap < n
        invariant
            is_pow2(cap as int),
            64 <= cap,
            n <= usize::MAX / 2,
            cap == 64 || cap < 2 * n,
        decreases 2 * n - cap,
    {
        proof {
            assert(is_pow2(2 * cap as int)) by {
                assert((2 * cap as int) / 2 == cap as int);
            }
        }
        cap = cap * 2;
    }
    cap
}

} // verus!
