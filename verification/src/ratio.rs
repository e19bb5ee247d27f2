//! The obstacle ratio, a binary64 number carried as its bit pattern, and the
//! obstacle count that it asks for.
//!
//! The count is the floor of the binary64 product of the grid area and the
//! ratio: the exact product, rounded to 53 significant bits with ties to
//! even, then rounded down to an integer.

use crate::config::{MAX_SIZE, MIN_SIZE};
use vstd::arithmetic::div_mod::{
    lemma_basic_div, lemma_div_by_multiple, lemma_div_denominator, lemma_div_is_ordered_by_denominator,
    lemma_small_div_converse,
};
use vstd::arithmetic::power2::{
    lemma2_to64, lemma2_to64_rest, lemma_pow2_adds, lemma_pow2_pos, lemma_pow2_strictly_increases,
    lemma_pow2_unfold, pow2,
};
use vstd::prelude::*;

verus! {

/// The sign bit of a binary64 bit pattern.
pub open spec fn sign_of(bits: u64) -> int {
    bits as int / 0x8000_0000_0000_0000
}

/// The biased exponent of a binary64 bit pattern.
pub open spec fn exponent_of(bits: u64) -> int {
    (bits as int / 0x10_0000_0000_0000) % 0x800
}

/// The fraction field of a binary64 bit pattern.
pub open spec fn fraction_of(bits: u64) -> int {
    bits as int % 0x10_0000_0000_0000
}

/// The binary64 number with this bit pattern is at least 0 and below one
/// half: it is positive with a biased exponent below that of one half, or it
/// is a zero of either sign. No NaN and no infinity is in range.
pub open spec fn ratio_in_range(bits: u64) -> bool {
    ||| sign_of(bits) == 0 && exponent_of(bits) < 1022
    ||| sign_of(bits) == 1 && exponent_of(bits) == 0 && fraction_of(bits) == 0
}

/// The significand of the number, as an integer: the number is
/// `significand_of / 2^places_of`, up to its sign.
pub open spec fn significand_of(bits: u64) -> nat {
    if exponent_of(bits) == 0 {
        fraction_of(bits) as nat
    } else {
        (0x10_0000_0000_0000 + fraction_of(bits)) as nat
    }
}

/// The number of binary places behind the point of the significand.
pub open spec fn places_of(bits: u64) -> nat {
    if exponent_of(bits) == 0 {
        1074
    } else {
        (1075 - exponent_of(bits)) as nat
    }
}

/// The number of bits that `p` has beyond 53.
pub open spec fn excess_bits(p: nat) -> nat
    decreases p,
{
    if p < 0x20_0000_0000_0000 {
        0
    } else {
        1 + excess_bits(p / 2)
    }
}

/// `p` rounded to 53 significant bits, to the nearest such number, and to
/// the one with an even last bit where two are equally near.
pub open spec fn round_to_53(p: nat) -> nat {
    let unit = pow2(excess_bits(p));
    let kept = p / unit;
    let rest = p % unit;
    if 2 * rest > unit || (2 * rest == unit && kept % 2 == 1) {
        (kept + 1) * unit
    } else {
        kept * unit
    }
}

/// The obstacle count for a grid of side `size` and the ratio with the given
/// bit pattern: the floor of their binary64 product.
pub open spec fn expected_count(size: int, bits: u64) -> nat {
    round_to_53((size * size * significand_of(bits)) as nat) / pow2(places_of(bits))
}

/// Whether the binary64 number with this bit pattern is at least 0 and below
/// one half.
pub fn check_ratio(bits: u64) -> (ok: bool)
    ensures
        ok == ratio_in_range(bits),
{
    bits < 0x3FE0_0000_0000_0000 || bits == 0x8000_0000_0000_0000
}

proof fn lemma_pow2_monotone(a: nat, b: nat)
    requires
        a <= b,
    ensures
        pow2(a) <= pow2(b),
        pow2(a) > 0,
{
    lemma_pow2_pos(a);
    if a < b {
        lemma_pow2_strictly_increases(a, b);
    }
}

proof fn lemma_halve(x: nat, k: nat)
    ensures
        (x / pow2(k)) / 2 == x / pow2(k + 1),
        pow2(k + 1) == 2 * pow2(k),
        pow2(k) > 0,
{
    lemma_pow2_pos(k);
    lemma_pow2_unfold(k + 1);
    lemma_div_denominator(x as int, pow2(k) as int, 2);
}

proof fn lemma_scaled_division(kept: nat, s: nat, shift: nat)
    ensures
        (kept * pow2(s)) / pow2(s + shift) == kept / pow2(shift),
{
    let unit = pow2(s) as int;
    let rest = pow2(shift) as int;
    lemma_pow2_pos(s);
    lemma_pow2_pos(shift);
    lemma_pow2_adds(s, shift);
    assert(kept * unit >= 0) by (nonlinear_arith)
        requires
            kept >= 0,
            unit > 0,
    ;
    lemma_div_denominator(kept * unit, unit, rest);
    lemma_div_by_multiple(kept as int, unit);
}

/// Computes the obstacle count for a grid of side `size` and the ratio with
/// the given bit pattern.
pub fn expected_obstacles(size: i32, bits: u64) -> (count: usize)
    requires
        MIN_SIZE <= size <= MAX_SIZE,
        ratio_in_range(bits),
    ensures
        count == expected_count(size as int, bits),
        count <= 0x100_0000,
{
    let exponent: u64 = (bits / 0x10_0000_0000_0000) % 0x800;
    let fraction: u64 = bits % 0x10_0000_0000_0000;
    let significand: u64 = if exponent == 0 {
        fraction
    } else {
        0x10_0000_0000_0000 + fraction
    };
    let places: u64 = if exponent == 0 {
        1074
    } else {
        1075 - exponent
    };
    let side: u64 = size as u64;
    assert(side * side <= 25_000_000) by (nonlinear_arith)
        requires
            10 <= side <= 5000,
    ;
    let area: u64 = side * side;
    assert(area * significand <= 25_000_000 * 0x20_0000_0000_0000) by (nonlinear_arith)
        requires
            0 <= area <= 25_000_000,
            0 <= significand <= 0x20_0000_0000_0000,
    ;
    let product: u128 = (area as u128) * (significand as u128);
    proof {
        lemma2_to64();
        lemma2_to64_rest();
        lemma_pow2_adds(25, 53);
        assert(product < pow2(25) * pow2(53)) by (nonlinear_arith)
            requires
                product == area * significand,
                0 <= area < pow2(25),
                0 <= significand < pow2(53),
        ;
        assert(product == size * size * significand_of(bits)) by (nonlinear_arith)
            requires
                product == area * significand,
                area == size * size,
                significand == significand_of(bits),
        ;
    }
    let mut kept: u128 = product;
    let mut unit: u128 = 1;
    let mut dropped: u64 = 0;
    while kept >= 0x20_0000_0000_0000
        invariant
            dropped <= 25,
            unit == pow2(dropped as nat),
            kept == product / unit,
            kept < pow2((78 - dropped) as nat),
            excess_bits(product as nat) == dropped + excess_bits(kept as nat),
        decreases kept,
    {
        proof {
            lemma2_to64();
            lemma2_to64_rest();
            lemma_halve(product as nat, dropped as nat);
            lemma_pow2_unfold((78 - dropped) as nat);
            if dropped >= 25 {
                lemma_pow2_monotone((78 - dropped) as nat, 53);
            }
            lemma_pow2_monotone(dropped as nat, 24);
        }
        kept = kept / 2;
        unit = unit * 2;
        dropped = dropped + 1;
    }
    proof {
        lemma_pow2_pos(dropped as nat);
    }
    let rest: u128 = product % unit;
    let up: bool = 2 * rest > unit || (2 * rest == unit && kept % 2 == 1);
    if up {
        kept = kept + 1;
    }
    assert(kept * unit == round_to_53(product as nat));
    let shift: u64 = places - dropped;
    let ghost rounded: nat = kept as nat;
    let mut steps: u64 = 0;
    while steps < shift && kept > 0
        invariant
            steps <= shift,
            kept == rounded / pow2(steps as nat),
        decreases shift - steps,
    {
        proof {
            lemma_halve(rounded, steps as nat);
        }
        kept = kept / 2;
        steps = steps + 1;
    }
    proof {
        lemma2_to64();
        lemma_pow2_pos(steps as nat);
        lemma_pow2_monotone(steps as nat, shift as nat);
        lemma_pow2_monotone(29, shift as nat);
        if steps < shift {
            lemma_small_div_converse(rounded as int, pow2(steps as nat) as int);
            lemma_basic_div(rounded as int, pow2(shift as nat) as int);
        }
        assert(kept == rounded / pow2(shift as nat));
        lemma_div_is_ordered_by_denominator(rounded as int, pow2(29) as int, pow2(shift as nat) as int);
        lemma_scaled_division(rounded, dropped as nat, shift as nat);
        assert(places_of(bits) == dropped + shift);
    }
    kept as usize
}

} // verus!
