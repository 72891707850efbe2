//! Binary floating-point numbers given by their bits: which are numbers, and how they compare.
//!
//! Numbers are in the single (32 bits) and double (64 bits) format of IEEE 754: a sign, an
//! exponent and a fraction, from the highest bit down.
use vstd::prelude::*;

verus! {

/// The bits of single-precision infinity, and of the sign.
pub const SINGLE_INFINITY: u32 = 0x7f80_0000;

pub const SINGLE_SIGN: u32 = 0x8000_0000;

/// The bits of double-precision infinity, and of the sign.
pub const DOUBLE_INFINITY: u64 = 0x7ff0_0000_0000_0000;

pub const DOUBLE_SIGN: u64 = 0x8000_0000_0000_0000;

/// The number that the bits below the sign stand for, as a multiple of the least positive one. The
/// upper bits are the exponent and the lower `fraction` ones the fraction; with an exponent of
/// zero the fraction is the number, and otherwise a one goes before it and each further step of
/// the exponent doubles it. Infinity comes out as the number that would follow the largest one.
pub open spec fn magnitude(bits: nat, fraction: nat) -> nat {
    let unit = vstd::arithmetic::power2::pow2(fraction);
    let (e, f) = (bits / unit, bits % unit);
    if e == 0 {
        f
    } else {
        (unit + f) * vstd::arithmetic::power2::pow2((e - 1) as nat)
    }
}

/// Whether single-precision bits stand for no number.
pub open spec fn single_is_nan(bits: u32) -> bool {
    bits % SINGLE_SIGN > SINGLE_INFINITY
}

/// The number that single-precision bits stand for, in units of two to the power of minus 149.
pub open spec fn single_value(bits: u32) -> int {
    if bits < SINGLE_SIGN {
        magnitude(bits as nat, 23) as int
    } else {
        -(magnitude((bits - SINGLE_SIGN) as nat, 23) as int)
    }
}

/// Whether double-precision bits stand for no number.
pub open spec fn double_is_nan(bits: u64) -> bool {
    bits % DOUBLE_SIGN > DOUBLE_INFINITY
}

/// The number that double-precision bits stand for, in units of two to the power of minus 1074.
pub open spec fn double_value(bits: u64) -> int {
    if bits < DOUBLE_SIGN {
        magnitude(bits as nat, 52) as int
    } else {
        -(magnitude((bits - DOUBLE_SIGN) as nat, 52) as int)
    }
}

/// Whether `a` is greater than `b`: both are numbers, and that of `a` is greater.
pub open spec fn single_exceeds(a: u32, b: u32) -> bool {
    !single_is_nan(a) && !single_is_nan(b) && single_value(a) > single_value(b)
}

/// Whether `a` is greater than `b`: both are numbers, and that of `a` is greater.
pub open spec fn double_exceeds(a: u64, b: u64) -> bool {
    !double_is_nan(a) && !double_is_nan(b) && double_value(a) > double_value(b)
}

/// The number after a number is greater.
proof fn lemma_magnitude_steps_up(bits: nat, fraction: nat)
    ensures
        magnitude(bits, fraction) < magnitude(bits + 1, fraction),
{
    let unit = vstd::arithmetic::power2::pow2(fraction) as int;
    vstd::arithmetic::power2::lemma_pow2_pos(fraction);
    let (e, f) = (bits as int / unit, bits as int % unit);
    let next = (bits + 1) as int;
    vstd::arithmetic::div_mod::lemma_fundamental_div_mod(bits as int, unit);
    vstd::arithmetic::div_mod::lemma_div_pos_is_pos(bits as int, unit);
    if f + 1 < unit {
        vstd::arithmetic::mul::lemma_mul_is_commutative(unit, e);
        vstd::arithmetic::div_mod::lemma_fundamental_div_mod_converse(next, unit, e, f + 1);
        if e > 0 {
            let p = vstd::arithmetic::power2::pow2((e - 1) as nat) as int;
            vstd::arithmetic::power2::lemma_pow2_pos((e - 1) as nat);
            assert((unit + f) * p < (unit + f + 1) * p) by (nonlinear_arith)
                requires
                    p > 0,
            ;
        }
    } else {
        vstd::arithmetic::mul::lemma_mul_is_commutative(unit, e);
        vstd::arithmetic::mul::lemma_mul_is_distributive_add_other_way(unit, e, 1);
        vstd::arithmetic::div_mod::lemma_fundamental_div_mod_converse(next, unit, e + 1, 0);
        let q = vstd::arithmetic::power2::pow2(e as nat) as int;
        vstd::arithmetic::power2::lemma_pow2_pos(e as nat);
        if e == 0 {
            vstd::arithmetic::power2::lemma2_to64();
        } else {
            let p = vstd::arithmetic::power2::pow2((e - 1) as nat) as int;
            vstd::arithmetic::power2::lemma_pow2_unfold(e as nat);
            vstd::arithmetic::power2::lemma_pow2_pos((e - 1) as nat);
            assert((unit + f) * p < unit * q) by (nonlinear_arith)
                requires
                    f + 1 == unit,
                    q == 2 * p,
                    p > 0,
            ;
        }
    }
}

/// Below the sign, greater bits stand for a greater number.
pub proof fn law_bits_keep_order(a: nat, b: nat, fraction: nat)
    ensures
        a < b <==> magnitude(a, fraction) < magnitude(b, fraction),
        a == b <==> magnitude(a, fraction) == magnitude(b, fraction),
{
    if a < b {
        lemma_magnitude_goes_up(a, b, fraction);
    } else if b < a {
        lemma_magnitude_goes_up(b, a, fraction);
    }
}

proof fn lemma_magnitude_goes_up(a: nat, b: nat, fraction: nat)
    requires
        a < b,
    ensures
        magnitude(a, fraction) < magnitude(b, fraction),
    decreases b - a,
{
    if a + 1 < b {
        lemma_magnitude_goes_up(a, (b - 1) as nat, fraction);
    }
    lemma_magnitude_steps_up((b - 1) as nat, fraction);
}

proof fn lemma_zero(fraction: nat)
    ensures
        magnitude(0, fraction) == 0,
{
    vstd::arithmetic::power2::lemma_pow2_pos(fraction);
    let unit = vstd::arithmetic::power2::pow2(fraction) as int;
    vstd::arithmetic::div_mod::lemma_fundamental_div_mod_converse(0, unit, 0, 0);
}

/// The place of a number among all numbers of its precision, counted from zero; nothing for what
/// is no number.
fn single_rank(bits: u32) -> (rank: Option<i64>)
    ensures
        rank is None <==> single_is_nan(bits),
        rank matches Some(r) ==> r == if bits < SINGLE_SIGN {
            bits as int
        } else {
            -(bits - SINGLE_SIGN)
        },
{
    let negative: bool = bits >= SINGLE_SIGN;
    let size: u32 = if negative {
        bits - SINGLE_SIGN
    } else {
        bits
    };
    if size > SINGLE_INFINITY {
        None
    } else if negative {
        Some(-(size as i64))
    } else {
        Some(size as i64)
    }
}

/// The place of a number among all numbers of its precision, counted from zero; nothing for what
/// is no number.
fn double_rank(bits: u64) -> (rank: Option<i64>)
    ensures
        rank is None <==> double_is_nan(bits),
        rank matches Some(r) ==> r == if bits < DOUBLE_SIGN {
            bits as int
        } else {
            -(bits - DOUBLE_SIGN)
        },
{
    let negative: bool = bits >= DOUBLE_SIGN;
    let size: u64 = if negative {
        bits - DOUBLE_SIGN
    } else {
        bits
    };
    if size > DOUBLE_INFINITY {
        None
    } else if negative {
        Some(-(size as i64))
    } else {
        Some(size as i64)
    }
}

/// Whether single-precision `a` is greater than `b`.
pub fn exceeds_single(a: u32, b: u32) -> (yes: bool)
    ensures
        yes == single_exceeds(a, b),
{
    proof {
        let size = |bits: u32| -> nat {
            if bits < SINGLE_SIGN {
                bits as nat
            } else {
                (bits - SINGLE_SIGN) as nat
            }
        };
        lemma_zero(23);
        law_bits_keep_order(size(a), size(b), 23);
        law_bits_keep_order(size(a), 0, 23);
        law_bits_keep_order(size(b), 0, 23);
    }
    match (single_rank(a), single_rank(b)) {
        (Some(x), Some(y)) => x > y,
        _ => false,
    }
}

/// Whether double-precision `a` is greater than `b`.
pub fn exceeds_double(a: u64, b: u64) -> (yes: bool)
    ensures
        yes == double_exceeds(a, b),
{
    proof {
        let size = |bits: u64| -> nat {
            if bits < DOUBLE_SIGN {
                bits as nat
            } else {
                (bits - DOUBLE_SIGN) as nat
            }
        };
        lemma_zero(52);
        law_bits_keep_order(size(a), size(b), 52);
        law_bits_keep_order(size(a), 0, 52);
        law_bits_keep_order(size(b), 0, 52);
    }
    match (double_rank(a), double_rank(b)) {
        (Some(x), Some(y)) => x > y,
        _ => false,
    }
}

/// One step of the exponent doubles a number: adding one to the exponent of bits that have one
/// gives the bits of twice the number.
pub proof fn law_exponent_doubles(bits: nat, fraction: nat)
    requires
        bits >= vstd::arithmetic::power2::pow2(fraction),
    ensures
        magnitude(bits + vstd::arithmetic::power2::pow2(fraction), fraction) == 2 * magnitude(
            bits,
            fraction,
        ),
{
    let unit = vstd::arithmetic::power2::pow2(fraction) as int;
    vstd::arithmetic::power2::lemma_pow2_pos(fraction);
    let (e, f) = (bits as int / unit, bits as int % unit);
    vstd::arithmetic::div_mod::lemma_fundamental_div_mod(bits as int, unit);
    vstd::arithmetic::mul::lemma_mul_is_commutative(unit, e);
    vstd::arithmetic::mul::lemma_mul_is_distributive_add_other_way(unit, e, 1);
    vstd::arithmetic::div_mod::lemma_fundamental_div_mod_converse(bits + unit, unit, e + 1, f);
    assert(e >= 1) by (nonlinear_arith)
        requires
            bits == e * unit + f,
            bits >= unit,
            0 <= f < unit,
            unit > 0,
    ;
    let p = vstd::arithmetic::power2::pow2((e - 1) as nat) as int;
    vstd::arithmetic::power2::lemma_pow2_unfold(e as nat);
    assert((unit + f) * (2 * p) == 2 * ((unit + f) * p)) by (nonlinear_arith);
}

/// Greater is a strict order on the numbers, and what is no number is neither greater nor less than
/// anything: no number exceeds itself, of two different numbers one exceeds the other, and what
/// exceeds a number exceeds all that it exceeds.
pub proof fn law_exceeding_is_an_order(a: u64, b: u64, c: u64)
    ensures
        double_is_nan(a) || double_is_nan(b) ==> !double_exceeds(a, b),
        !double_is_nan(a) && !double_is_nan(b) && double_value(a) != double_value(b)
            ==> double_exceeds(a, b) != double_exceeds(b, a),
        !double_exceeds(a, a),
        double_exceeds(a, b) && double_exceeds(b, c) ==> double_exceeds(a, c),
        a < b <= DOUBLE_INFINITY ==> double_exceeds(b, a),
{
    lemma_zero(52);
    law_bits_keep_order(a as nat, b as nat, 52);
}

} // verus!
