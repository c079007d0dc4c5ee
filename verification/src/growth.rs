//! How much to allocate for what is wanted.

use vstd::prelude::*;

verus! {

/// `exponent` is that of the smallest power of two that is not under `num`.
pub open spec fn is_nearest_exponent(num: int, exponent: nat) -> bool {
    &&& num <= vstd::arithmetic::power2::pow2(exponent)
    &&& exponent > 0 ==> vstd::arithmetic::power2::pow2((exponent - 1) as nat) < num
}

/// The smallest power of two that is not under `num`.
pub open spec fn nearest_power(num: int) -> int {
    vstd::arithmetic::power2::pow2(choose|e: nat| is_nearest_exponent(num, e)) as int
}

/// There is one smallest power of two.
proof fn lemma_nearest_exponent(num: int, a: nat, b: nat)
    requires
        is_nearest_exponent(num, a),
        is_nearest_exponent(num, b),
    ensures
        a == b,
{
    if a < b {
        if a < b - 1 {
            vstd::arithmetic::power2::lemma_pow2_strictly_increases(a, (b - 1) as nat);
        }
    }
    if b < a {
        if b < a - 1 {
            vstd::arithmetic::power2::lemma_pow2_strictly_increases(b, (a - 1) as nat);
        }
    }
}

/// There is a smallest power of two: it is reached from any that is too small.
proof fn lemma_nearest_exists(num: int, e: nat)
    requires
        0 < num,
        e > 0 ==> vstd::arithmetic::power2::pow2((e - 1) as nat) < num,
    ensures
        exists|x: nat| is_nearest_exponent(num, x),
    decreases 2 * num - vstd::arithmetic::power2::pow2(e),
{
    vstd::arithmetic::power2::lemma_pow2_pos(e);
    if num <= vstd::arithmetic::power2::pow2(e) {
        assert(is_nearest_exponent(num, e));
    } else {
        vstd::arithmetic::power2::lemma_pow2_unfold(e + 1);
        lemma_nearest_exists(num, e + 1);
    }
}

/// The smallest power of two that is not under `num` is a power of two, and half of it is under
/// `num`.
pub proof fn law_nearest_power(num: int)
    requires
        0 < num,
    ensures
        exists|e: nat| nearest_power(num) == vstd::arithmetic::power2::pow2(e),
        num <= nearest_power(num) < 2 * num,
{
    lemma_nearest_exists(num, 0);
    let e = choose|e: nat| is_nearest_exponent(num, e);
    assert(nearest_power(num) == vstd::arithmetic::power2::pow2(e));
    if e > 0 {
        vstd::arithmetic::power2::lemma_pow2_unfold(e);
    } else {
        vstd::arithmetic::power2::lemma2_to64();
    }
}

/// The smallest power of two that is not under `num`.
pub fn nearest_pow(num: usize) -> (power: usize)
    requires
        0 < num <= usize::MAX / 2,
    ensures
        power == nearest_power(num as int),
        num <= power < 2 * num,
{
    let mut power: usize = 1;
    let ghost mut e: nat = 0;
    proof {
        vstd::arithmetic::power2::lemma2_to64();
    }
    while power < num
        invariant
            0 < num <= usize::MAX / 2,
            power == vstd::arithmetic::power2::pow2(e),
            e > 0 ==> vstd::arithmetic::power2::pow2((e - 1) as nat) < num,
            power < 2 * num,
            power > 0,
        decreases 2 * num - power,
    {
        proof {
            vstd::arithmetic::power2::lemma_pow2_unfold(e + 1);
            e = e + 1;
        }
        power = power * 2;
    }
    proof {
        assert(is_nearest_exponent(num as int, e));
        lemma_nearest_exponent(num as int, e, choose|x: nat| is_nearest_exponent(num as int, x));
    }
    power
}

} // verus!
