use vstd::arithmetic::div_mod::lemma_fundamental_div_mod;
use vstd::arithmetic::div_mod::lemma_fundamental_div_mod_converse;
use vstd::arithmetic::power2::lemma2_to64;
use vstd::arithmetic::power2::lemma_pow2_adds;
use vstd::arithmetic::power2::lemma_pow2_pos;
use vstd::arithmetic::power2::lemma_pow2_strictly_increases;
use vstd::arithmetic::power2::lemma_pow2_unfold;
use vstd::arithmetic::power2::pow2;
use vstd::prelude::*;

verus! {

/// Two to the power of `exponent`, or `None` where that does not fit a `usize`.
pub fn two_to_the(exponent: usize) -> (power: Option<usize>)
    ensures
        power is Some <==> pow2(exponent as nat) <= usize::MAX,
        power matches Some(value) ==> value == pow2(exponent as nat),
{
    let mut value: usize = 1;
    let mut done: usize = 0;
    proof {
        lemma2_to64();
    }
    while done < exponent
        invariant
            done <= exponent,
            value == pow2(done as nat),
        decreases exponent - done,
    {
        proof {
            lemma_pow2_unfold((done + 1) as nat);
        }
        if value > usize::MAX / 2 {
            proof {
                if done + 1 < exponent {
                    lemma_pow2_strictly_increases((done + 1) as nat, exponent as nat);
                }
            }
            return None;
        }
        value = value * 2;
        done = done + 1;
    }
    Some(value)
}

/// The number of ancestors of the leaf at `index`, itself included, that are
/// right children, counted from the leaf up to the first left child: the
/// level of the first ancestor that is a left child.
pub open spec fn trailing_ones(index: nat) -> nat
    decreases index,
{
    if index % 2 == 0 {
        0
    } else {
        1 + trailing_ones(index / 2)
    }
}

/// The number of binary digits of `value` that are set.
pub open spec fn set_digits(value: nat) -> nat
    decreases value,
{
    if value == 0 {
        0
    } else {
        value % 2 + set_digits(value / 2)
    }
}

/// Setting a binary digit above all digits of a number adds one to its set
/// digits.
pub proof fn lemma_set_digits_above(level: nat, value: nat)
    requires
        value < pow2(level),
    ensures
        set_digits(pow2(level) + value) == 1 + set_digits(value),
    decreases level,
{
    lemma_pow2_pos(level);
    if level == 0 {
        lemma2_to64();
        assert(set_digits(1) == 1 + set_digits(0)) by {
            reveal_with_fuel(set_digits, 2);
        }
    } else {
        let below = (level - 1) as nat;
        lemma_pow2_unfold(level);
        lemma_set_digits_above(below, value / 2);
        assert((pow2(level) + value) / 2 == pow2(below) + value / 2);
        assert((pow2(level) + value) % 2 == value % 2);
        if value == 0 {
            assert(set_digits(value / 2) == 0);
        }
    }
}

/// A multiple of a power of two, divided by it.
pub proof fn lemma_multiple(value: nat, factor: nat, level: nat)
    requires
        value == factor * pow2(level),
    ensures
        value / pow2(level) == factor,
        value % pow2(level) == 0,
{
    lemma_pow2_pos(level);
    lemma_fundamental_div_mod_converse(value as int, pow2(level) as int, factor as int, 0);
}

/// A number whose lowest `level` binary digits are all set, divided by the
/// power of two.
pub proof fn lemma_ones_below(value: nat, factor: nat, level: nat)
    requires
        value == factor * pow2(level) + pow2(level) - 1,
    ensures
        value / pow2(level) == factor,
{
    lemma_fundamental_div_mod_converse(
        value as int,
        pow2(level) as int,
        factor as int,
        pow2(level) - 1,
    );
}

/// A number whose lowest `level` binary digits are set and whose next digit is
/// not has `level` trailing ones.
pub proof fn lemma_trailing_ones(value: nat, factor: nat, level: nat)
    requires
        value == factor * pow2(level) + pow2(level) - 1,
        factor % 2 == 0,
    ensures
        trailing_ones(value) == level,
    decreases level,
{
    if level == 0 {
        lemma2_to64();
    } else {
        let below = (level - 1) as nat;
        lemma_pow2_unfold(level);
        let half = factor * pow2(below) + pow2(below) - 1;
        assert(value == 2 * half + 1) by (nonlinear_arith)
            requires
                value == factor * pow2(level) + pow2(level) - 1,
                pow2(level) == 2 * pow2(below),
                half == factor * pow2(below) + pow2(below) - 1,
        ;
        lemma_trailing_ones(half as nat, factor, below);
    }
}

/// One less than a number that `divisor` does not divide has the same
/// quotient and the remainder before.
pub proof fn lemma_step_back(value: nat, divisor: nat)
    requires
        divisor > 0,
        value % divisor != 0,
    ensures
        (value - 1) / (divisor as int) == value / divisor,
        (value - 1) % (divisor as int) + 1 == value % divisor,
{
    lemma_fundamental_div_mod(value as int, divisor as int);
    let quotient = value as int / divisor as int;
    let remainder = value as int % divisor as int;
    assert(value - 1 == quotient * divisor + (remainder - 1)) by (nonlinear_arith)
        requires
            value == divisor * quotient + remainder,
    ;
    lemma_fundamental_div_mod_converse(value - 1, divisor as int, quotient, remainder - 1);
}

/// One less than a positive multiple of `divisor` has the quotient before and
/// the largest remainder.
pub proof fn lemma_step_back_multiple(value: nat, divisor: nat)
    requires
        divisor > 0,
        value > 0,
        value % divisor == 0,
    ensures
        (value - 1) / (divisor as int) == value / divisor - 1,
        (value - 1) % (divisor as int) == divisor - 1,
{
    lemma_fundamental_div_mod(value as int, divisor as int);
    assert(value - 1 == (value / divisor - 1) * divisor + (divisor - 1)) by (nonlinear_arith)
        requires
            value == divisor * (value / divisor),
    ;
    lemma_fundamental_div_mod_converse(
        value - 1,
        divisor as int,
        value / divisor - 1,
        divisor - 1,
    );
}

/// An odd multiple of a power of two is no multiple of a higher power of two.
pub proof fn lemma_odd_multiple(value: nat, factor: nat, level: nat, higher: nat)
    requires
        value == factor * pow2(level),
        factor % 2 == 1,
        higher > level,
    ensures
        value % pow2(higher) != 0,
{
    let extra = (higher - level) as nat;
    lemma_pow2_adds(level, extra);
    lemma_pow2_unfold(extra);
    lemma_pow2_pos(higher);
    if value % pow2(higher) == 0 {
        // Then `factor` would be even.
        lemma_fundamental_div_mod(value as int, pow2(higher) as int);
        let times = value / pow2(higher);
        let rest = pow2((extra - 1) as nat);
        assert(factor == 2 * (rest * times)) by (nonlinear_arith)
            requires
                value == factor * pow2(level),
                value == pow2(higher) * times,
                pow2(higher) == pow2(level) * pow2(extra),
                pow2(extra) == 2 * rest,
                pow2(level) > 0,
        ;
    }
}

/// Above the level of its lowest set binary digit a number has the ancestors
/// of the number before it.
pub proof fn lemma_same_ancestor_above(value: nat, factor: nat, level: nat, higher: nat)
    requires
        value == factor * pow2(level),
        factor % 2 == 1,
        higher > level,
    ensures
        (value - 1) / (pow2(higher) as int) == value / pow2(higher),
{
    lemma_odd_multiple(value, factor, level, higher);
    lemma_pow2_pos(higher);
    lemma_step_back(value, pow2(higher));
}

} // verus!
