//! The probe sequence of an open-addressing table whose size is a power of two.
//!
//! The `s`-th probe of a key lies `1 + 2 + .. + s` slots after its first one,
//! modulo the table size. The lemmas here show that the first `size` probes
//! visit every slot.

use vstd::prelude::*;

verus! {

/// The slot of the `step`-th probe that starts at slot `start`.
pub open spec fn probe(start: int, step: nat, size: int) -> int
    decreases step,
{
    if step == 0 {
        start
    } else {
        (probe(start, (step - 1) as nat, size) + step) % size
    }
}

/// The sum `1 + 2 + .. + step`.
spec fn triangle(step: nat) -> nat
    decreases step,
{
    if step == 0 {
        0
    } else {
        triangle((step - 1) as nat) + step
    }
}

pub proof fn lemma_probe_in_range(start: int, step: nat, size: int)
    requires
        0 <= start < size,
    ensures
        0 <= probe(start, step, size) < size,
{
}

proof fn lemma_probe_is_triangle(start: int, step: nat, size: int)
    requires
        0 <= start < size,
    ensures
        probe(start, step, size) == (start + triangle(step)) % size,
    decreases step,
{
    if step == 0 {
        vstd::arithmetic::div_mod::lemma_small_mod(start as nat, size as nat);
    } else {
        let before = (step - 1) as nat;
        lemma_probe_is_triangle(start, before, size);
        vstd::arithmetic::div_mod::lemma_add_mod_noop_right(step as int, start + triangle(before), size);
        assert(start + triangle(before) + step == start + triangle(step));
    }
}

proof fn lemma_triangle_doubled(step: nat)
    ensures
        2 * triangle(step) == step * (step + 1),
    decreases step,
{
    if step == 0 {
        assert(step * (step + 1) == 0) by (nonlinear_arith)
            requires
                step == 0,
        ;
    } else {
        let before = (step - 1) as nat;
        lemma_triangle_doubled(before);
        assert(step * (step + 1) == before * (before + 1) + 2 * step) by (nonlinear_arith)
            requires
                step == before + 1,
        ;
    }
}

/// A power of two that divides a product with an odd factor divides the other factor.
proof fn lemma_odd_factor(odd: int, other: int, quotient: int, exponent: nat)
    requires
        odd % 2 == 1,
        odd * other == vstd::arithmetic::power2::pow2(exponent) * quotient,
    ensures
        exists|q: int| other == #[trigger] (vstd::arithmetic::power2::pow2(exponent) * q),
    decreases exponent,
{
    if exponent == 0 {
        vstd::arithmetic::power2::lemma2_to64();
        assert(other == vstd::arithmetic::power2::pow2(0) * other) by (nonlinear_arith)
            requires
                vstd::arithmetic::power2::pow2(0) == 1,
        ;
    } else {
        vstd::arithmetic::power2::lemma_pow2_unfold(exponent);
        let half_power = vstd::arithmetic::power2::pow2((exponent - 1) as nat);
        assert(odd * other == 2 * (half_power * quotient)) by (nonlinear_arith)
            requires
                odd * other == vstd::arithmetic::power2::pow2(exponent) * quotient,
                vstd::arithmetic::power2::pow2(exponent) == 2 * half_power,
        ;
        let n = odd / 2;
        if other % 2 == 1 {
            let m = other / 2;
            assert(odd * other == 2 * (2 * n * m + n + m) + 1) by (nonlinear_arith)
                requires
                    odd == 2 * n + 1,
                    other == 2 * m + 1,
            ;
            assert(false);
        }
        let half = other / 2;
        assert(odd * half == half_power * quotient) by (nonlinear_arith)
            requires
                odd * other == 2 * (half_power * quotient),
                other == 2 * half,
        ;
        lemma_odd_factor(odd, half, quotient, (exponent - 1) as nat);
        let q = choose|q: int| half == #[trigger] (half_power * q);
        assert(other == vstd::arithmetic::power2::pow2(exponent) * q) by (nonlinear_arith)
            requires
                other == 2 * half,
                half == half_power * q,
                vstd::arithmetic::power2::pow2(exponent) == 2 * half_power,
        ;
    }
}

/// Two different steps below the table size reach different slots.
proof fn lemma_probe_injective(start: int, i: nat, j: nat, exponent: nat)
    requires
        0 <= start < vstd::arithmetic::power2::pow2(exponent),
        i < j < vstd::arithmetic::power2::pow2(exponent),
    ensures
        probe(start, i, vstd::arithmetic::power2::pow2(exponent) as int) != probe(start, j, vstd::arithmetic::power2::pow2(exponent) as int),
{
    let size = vstd::arithmetic::power2::pow2(exponent) as int;
    if probe(start, i, size) == probe(start, j, size) {
        lemma_probe_is_triangle(start, i, size);
        lemma_probe_is_triangle(start, j, size);
        let a = start + triangle(i);
        let b = start + triangle(j);
        vstd::arithmetic::div_mod::lemma_fundamental_div_mod(a, size);
        vstd::arithmetic::div_mod::lemma_fundamental_div_mod(b, size);
        let q = b / size - a / size;
        assert(triangle(j) - triangle(i) == size * q) by (nonlinear_arith)
            requires
                a == size * (a / size) + a % size,
                b == size * (b / size) + b % size,
                a % size == b % size,
                q == b / size - a / size,
                b - a == triangle(j) - triangle(i),
        ;
        lemma_triangle_doubled(i);
        lemma_triangle_doubled(j);
        vstd::arithmetic::power2::lemma_pow2_unfold(exponent + 1);
        let difference = j - i;
        let total = (i + j + 1) as int;
        assert(difference * total == vstd::arithmetic::power2::pow2(exponent + 1) * q) by (nonlinear_arith)
            requires
                2 * triangle(i) == i * (i + 1),
                2 * triangle(j) == j * (j + 1),
                triangle(j) - triangle(i) == size * q,
                vstd::arithmetic::power2::pow2(exponent + 1) == 2 * size,
                difference == j - i,
                total == i + j + 1,
        ;
        assert(difference + total == 2 * j + 1);
        let big = vstd::arithmetic::power2::pow2(exponent + 1) as int;
        if difference % 2 == 1 {
            lemma_odd_factor(difference, total, q, exponent + 1);
            let r = choose|r: int| total == #[trigger] (big * r);
            assert(false) by (nonlinear_arith)
                requires
                    total == big * r,
                    0 < total < big,
            ;
        } else {
            assert(total % 2 == 1);
            assert(total * difference == vstd::arithmetic::power2::pow2(exponent + 1) * q) by (nonlinear_arith)
                requires
                    difference * total == vstd::arithmetic::power2::pow2(exponent + 1) * q,
            ;
            lemma_odd_factor(total, difference, q, exponent + 1);
            let r = choose|r: int| difference == #[trigger] (big * r);
            assert(false) by (nonlinear_arith)
                requires
                    difference == big * r,
                    0 < difference < big,
            ;
        }
    }
}

/// Every slot is reached by one of the first `size` probes.
pub proof fn lemma_probe_covers(start: int, slot: int, exponent: nat)
    requires
        0 <= start < vstd::arithmetic::power2::pow2(exponent),
        0 <= slot < vstd::arithmetic::power2::pow2(exponent),
    ensures
        exists|step: nat|
            step < vstd::arithmetic::power2::pow2(exponent) && #[trigger] probe(start, step, vstd::arithmetic::power2::pow2(exponent) as int) == slot,
{
    let size = vstd::arithmetic::power2::pow2(exponent) as int;
    let steps = vstd::set_lib::set_int_range(0, size);
    let at = |s: int| probe(start, s as nat, size);
    let reached = steps.map(at);
    vstd::set_lib::lemma_int_range(0, size);
    assert(vstd::relations::injective_on(at, steps)) by {
        assert forall|x: int, y: int|
            steps.contains(x) && steps.contains(y) && #[trigger] at(x) == #[trigger] at(y) implies x
            == y by {
            if x < y {
                lemma_probe_injective(start, x as nat, y as nat, exponent);
            } else if y < x {
                lemma_probe_injective(start, y as nat, x as nat, exponent);
            }
        }
    }
    vstd::set_lib::lemma_map_size(steps, reached, at);
    assert forall|p: int| reached.contains(p) implies steps.contains(p) by {
        let s = choose|s: int| steps.contains(s) && at(s) == p;
        lemma_probe_in_range(start, s as nat, size);
    }
    vstd::set_lib::lemma_subset_equality(reached, steps);
    assert(reached.contains(slot));
    let s = choose|s: int| steps.contains(s) && at(s) == slot;
    assert(probe(start, s as nat, size) == slot);
}

/// How far a probe is from the first one: half of `step * (step + 1)` slots, up to a multiple of the
/// number of slots.
pub proof fn law_probe(start: int, step: nat, size: int)
    requires
        0 <= start < size,
    ensures
        0 <= probe(start, step, size) < size,
        exists|k: int|
            2 * (probe(start, step, size) - start + #[trigger] (k * size)) == step * (step + 1),
{
    lemma_probe_in_range(start, step, size);
    lemma_probe_is_triangle(start, step, size);
    lemma_triangle_doubled(step);
    let all = start + triangle(step);
    vstd::arithmetic::div_mod::lemma_fundamental_div_mod(all, size);
    let k = all / size;
    vstd::arithmetic::mul::lemma_mul_is_commutative(k, size);
    assert(2 * (probe(start, step, size) - start + k * size) == step * (step + 1));
}

} // verus!
