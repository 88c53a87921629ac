//! Reading degrees from the bit pattern of a double-precision number.
//!
//! A pattern has a sign bit, eleven exponent bits and 52 fraction bits. Its
//! magnitude is `significand * 2^(power - 1074)`, which this module turns
//! into fixed-point units, rounding down, without any arithmetic on the
//! number itself.

use vstd::prelude::*;
use vstd::arithmetic::div_mod::lemma_fundamental_div_mod_converse;
use vstd::arithmetic::div_mod::lemma_fundamental_div_mod;
use crate::bisect::{lemma_two_to_positive, lemma_two_to_sum, two_to};

verus! {

/// Two to the power 52: the weight of the hidden leading bit of a significand.
pub const HIDDEN_BIT: u64 = 0x10_0000_0000_0000;

/// Whether the sign bit is set.
pub open spec fn sign_of(pattern: u64) -> bool {
    pattern >= 0x8000_0000_0000_0000
}

/// The exponent field.
pub open spec fn exponent_of(pattern: u64) -> nat {
    ((pattern / HIDDEN_BIT) % 2048) as nat
}

/// The fraction field.
pub open spec fn fraction_of(pattern: u64) -> nat {
    (pattern % HIDDEN_BIT) as nat
}

/// The significand: the fraction, with the hidden bit unless the number is
/// subnormal.
pub open spec fn significand_of(pattern: u64) -> nat {
    if exponent_of(pattern) == 0 {
        fraction_of(pattern)
    } else {
        HIDDEN_BIT as nat + fraction_of(pattern)
    }
}

/// The power of two that scales the significand, offset by 1074.
pub open spec fn power_of(pattern: u64) -> nat {
    if exponent_of(pattern) == 0 {
        0
    } else {
        (exponent_of(pattern) - 1) as nat
    }
}

/// A finite number of magnitude below 256: the only patterns that are given
/// a fixed-point value.
pub open spec fn representable(pattern: u64) -> bool {
    exponent_of(pattern) <= 1030
}

/// The significand with the sign applied.
pub open spec fn signed_significand(pattern: u64) -> int {
    if sign_of(pattern) {
        -(significand_of(pattern) as int)
    } else {
        significand_of(pattern) as int
    }
}

/// The number in units of `2^-48`, rounded down to a whole unit: the signed
/// significand times `2^(power - 1026)`, where 1026 is 1074 less the 48
/// binary digits that a unit keeps after the point.
pub open spec fn units_of(pattern: u64) -> int {
    if power_of(pattern) >= 1026 {
        signed_significand(pattern) * two_to((power_of(pattern) - 1026) as nat)
    } else {
        signed_significand(pattern) / (two_to((1026 - power_of(pattern)) as nat) as int)
    }
}

/// The number itself, exactly, in units of `2^-1074`: the signed significand
/// times `2^power`.
pub open spec fn exact_of(pattern: u64) -> int {
    signed_significand(pattern) * two_to(power_of(pattern))
}

/// A unit of `2^-48` is `2^1026` of the units in which every number is
/// whole, and the fixed-point value is the exact one rounded down to it.
pub proof fn lemma_units_round_down(pattern: u64)
    ensures
        two_to(1026) * units_of(pattern) <= exact_of(pattern) < two_to(1026) * (units_of(pattern)
            + 1),
{
    let m = signed_significand(pattern);
    let power = power_of(pattern);
    let f = two_to(1026) as int;
    lemma_two_to_positive(1026);
    if power >= 1026 {
        let up = two_to((power - 1026) as nat) as int;
        let whole = two_to(power) as int;
        lemma_two_to_sum(1026, (power - 1026) as nat);
        assert(m * whole == f * (m * up)) by (nonlinear_arith)
            requires
                whole == f * up,
        ;
        assert(f * (m * up + 1) == f * (m * up) + f) by (nonlinear_arith);
    } else {
        let down = two_to((1026 - power) as nat) as int;
        let whole = two_to(power) as int;
        lemma_two_to_sum((1026 - power) as nat, power);
        lemma_two_to_positive((1026 - power) as nat);
        lemma_two_to_positive(power);
        lemma_fundamental_div_mod(m, down);
        let q = m / down;
        let rest = m % down;
        assert(m * whole == f * q + rest * whole) by (nonlinear_arith)
            requires
                m == down * q + rest,
                f == down * whole,
        ;
        assert(0 <= rest * whole < f) by (nonlinear_arith)
            requires
                0 <= rest < down,
                whole >= 1,
                f == down * whole,
        ;
        assert(f * (q + 1) == f * q + f) by (nonlinear_arith);
    }
}

/// The value of two to the 48th: the units in one degree.
pub proof fn lemma_two_to_48()
    ensures
        two_to(48) == 0x1_0000_0000_0000,
{
    lemma_two_to_52();
    reveal_with_fuel(two_to, 5);
    assert(two_to(52) == 16 * two_to(48));
}

/// Rounding a negative quotient down: it is the rounded-down positive
/// quotient negated, less one when the division leaves a rest.
proof fn lemma_negated_quotient(x: int, d: int)
    requires
        x >= 0,
        d > 0,
    ensures
        (-x) / d == if x % d == 0 {
            -(x / d)
        } else {
            -(x / d) - 1
        },
{
    let q = x / d;
    let r = x % d;
    lemma_fundamental_div_mod(x, d);
    if r == 0 {
        assert(-x == (-q) * d + 0) by (nonlinear_arith)
            requires
                x == d * q + r,
                r == 0,
        ;
        lemma_fundamental_div_mod_converse(-x, d, -q, 0);
    } else {
        assert(-x == (-q - 1) * d + (d - r)) by (nonlinear_arith)
            requires
                x == d * q + r,
        ;
        lemma_fundamental_div_mod_converse(-x, d, -q - 1, d - r);
    }
}

/// Powers of two grow with the exponent.
proof fn lemma_two_to_monotone(a: nat, b: nat)
    requires
        a <= b,
    ensures
        1 <= two_to(a) <= two_to(b),
    decreases b,
{
    if a < b {
        lemma_two_to_monotone(a, (b - 1) as nat);
    } else if a > 0 {
        lemma_two_to_monotone((a - 1) as nat, (a - 1) as nat);
    }
}

/// Powers of two up to the 53rd, against the size of a significand.
proof fn lemma_two_to_small(k: nat)
    requires
        k <= 53,
    ensures
        1 <= two_to(k) <= 0x20_0000_0000_0000,
        k < 53 ==> two_to(k) <= 0x10_0000_0000_0000,
{
    lemma_two_to_52();
    assert(two_to(53) == 2 * two_to(52));
    lemma_two_to_monotone(k, 53);
    if k < 53 {
        lemma_two_to_monotone(k, 52);
    }
}

/// The value of two to the 52nd.
proof fn lemma_two_to_52()
    ensures
        two_to(52) == 0x10_0000_0000_0000,
{
    reveal_with_fuel(two_to, 14);
    assert(two_to(13) == 0x2000);
    assert(two_to(26) == 0x400_0000);
    assert(two_to(39) == 0x80_0000_0000);
    assert(two_to(52) == 0x10_0000_0000_0000);
}

/// Two to the power `k`, for `k` up to 53.
fn power_of_two(k: u64) -> (p: u64)
    requires
        k <= 53,
    ensures
        p == two_to(k as nat),
        1 <= p <= 0x20_0000_0000_0000,
{
    let mut p: u64 = 1;
    for i in 0..k
        invariant
            k <= 53,
            p == two_to(i as nat),
        decreases k - i,
    {
        proof {
            lemma_two_to_small(i as nat);
            lemma_two_to_small((i + 1) as nat);
        }
        p = 2 * p;
    }
    proof {
        lemma_two_to_small(k as nat);
    }
    p
}

/// The fixed-point value of the number with the given bit pattern, rounded
/// down to a whole unit; `None` for a pattern that is not finite or whose
/// magnitude is 256 or more.
pub fn units_from_double(pattern: u64) -> (r: Option<i64>)
    ensures
        representable(pattern) ==> r is Some && r->Some_0 == units_of(pattern),
        !representable(pattern) ==> r is None,
{
    let negative: bool = pattern >= 0x8000_0000_0000_0000;
    let exponent: u64 = (pattern / HIDDEN_BIT) % 2048;
    let fraction: u64 = pattern % HIDDEN_BIT;
    if exponent > 1030 {
        return None;
    }
    let significand: u64 = if exponent == 0 {
        fraction
    } else {
        HIDDEN_BIT + fraction
    };
    let power: u64 = if exponent == 0 {
        0
    } else {
        exponent - 1
    };
    let magnitude: u64;
    if power >= 1026 {
        let factor: u64 = power_of_two(power - 1026);
        proof {
            reveal_with_fuel(two_to, 5);
            assert(two_to(0) == 1 && two_to(1) == 2 && two_to(2) == 4 && two_to(3) == 8);
            assert(significand * factor <= 0x20_0000_0000_0000 * 8) by (nonlinear_arith)
                requires
                    significand <= 0x20_0000_0000_0000,
                    factor <= 8,
            ;
            assert((-(significand as int)) * (factor as int) == -(significand * factor))
                by (nonlinear_arith);
        }
        magnitude = significand * factor;
    } else {
        let shift: u64 = 1026 - power;
        if shift >= 54 {
            proof {
                lemma_two_to_52();
                assert(two_to(53) == 2 * two_to(52));
                lemma_two_to_monotone(53, shift as nat);
                let d = two_to(shift as nat) as int;
                lemma_fundamental_div_mod_converse(significand as int, d, 0, significand as int);
                lemma_negated_quotient(significand as int, d);
            }
            magnitude = if negative && significand != 0 {
                1
            } else {
                0
            };
        } else {
            let divisor: u64 = power_of_two(shift);
            let quotient: u64 = significand / divisor;
            proof {
                lemma_negated_quotient(significand as int, divisor as int);
            }
            magnitude = if negative && significand % divisor != 0 {
                quotient + 1
            } else {
                quotient
            };
        }
    }
    if negative {
        Some(-(magnitude as i64))
    } else {
        Some(magnitude as i64)
    }
}

} // verus!
