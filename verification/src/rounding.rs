//! The roundings of double-precision arithmetic, on whole numbers.
//!
//! A double-precision number holds 53 significant bits, and an operation on such
//! numbers gives the one nearest to the exact result, the even one of two that are
//! as near. A quotient or a product of whole numbers can therefore be had exactly as
//! double-precision arithmetic gives it, without any.

use vstd::arithmetic::power2::pow2;
use vstd::prelude::*;

verus! {

/// Two to the power of fifty-two.
pub const TWO_52: u128 = 0x10_0000_0000_0000;

/// Two to the power of fifty-three.
pub const TWO_53: u128 = 0x20_0000_0000_0000;

/// The whole number nearest to the quotient, the even one of two that are as near.
pub open spec fn nearest_even(num: nat, den: nat) -> nat {
    let quotient = num / den;
    let rest = num % den;
    if 2 * rest < den || (2 * rest == den && quotient % 2 == 0) {
        quotient
    } else {
        quotient + 1
    }
}

/// The whole number nearest to the quotient, the even one of two that are as near.
pub fn divide_to_nearest(num: u128, den: u128) -> (result: u128)
    requires
        0 < den,
        num < 0x8000_0000_0000_0000_0000_0000_0000_0000,
    ensures
        result == nearest_even(num as nat, den as nat),
        result <= num,
        result * den <= num + den,
{
    let quotient: u128 = num / den;
    let rest: u128 = num % den;
    proof {
        assert(num == quotient * den + rest) by (nonlinear_arith)
            requires
                0 < den,
                quotient == num / den,
                rest == num % den,
        ;
        assert(quotient <= num) by (nonlinear_arith)
            requires
                0 < den,
                num == quotient * den + rest,
                0 <= rest,
        ;
        assert((quotient + 1) * den == quotient * den + den) by (nonlinear_arith);
        if rest > 0 {
            assert(quotient < num) by (nonlinear_arith)
                requires
                    0 < den,
                    num == quotient * den + rest,
                    0 < rest,
            ;
        }
    }
    if rest < den - rest || (rest == den - rest && quotient % 2 == 0) {
        quotient
    } else {
        quotient + 1
    }
}

/// The least power of two, from `unit` on, whose multiples can tell numbers as large
/// as `value` apart with fifty-three bits.
pub open spec fn unit_for(value: nat, unit: nat) -> nat
    decreases value - unit,
    when unit > 0
{
    if value < TWO_53 * unit {
        unit
    } else {
        unit_for(value, 2 * unit)
    }
}

/// The double-precision number nearest to the whole number.
pub open spec fn rounded_53(value: nat) -> nat {
    let unit = unit_for(value, 1);
    nearest_even(value, unit) * unit
}

/// The double-precision number nearest to the whole number.
pub fn round_53(value: u128) -> (result: u128)
    requires
        value < 0x10_0000_0000_0000_0000_0000_0000,
    ensures
        result == rounded_53(value as nat),
        result <= 2 * value,
        value < TWO_53 ==> result == value,
{
    let mut unit: u128 = 1;
    while value >= TWO_53 * unit
        invariant
            0 < unit,
            unit == 1 || unit <= value,
            value < 0x10_0000_0000_0000_0000_0000_0000,
            TWO_53 * unit <= 0x40_0000_0000_0000_0000_0000_0000,
            unit_for(value as nat, 1) == unit_for(value as nat, unit as nat),
            value < TWO_53 ==> unit == 1,
        decreases value - unit,
    {
        unit = 2 * unit;
    }
    let nearest: u128 = divide_to_nearest(value, unit);
    proof {
        if unit == 1 {
            assert(value as nat / 1 == value && value as nat % 1 == 0);
            assert(nearest == value);
            assert(nearest * unit == value) by (nonlinear_arith)
                requires
                    unit == 1,
                    nearest == value,
            ;
        }
        assert(nearest * unit <= value + unit);
    }
    nearest * unit
}

/// The number and the power of two after both were doubled until the number is at
/// least two to the fifty-two times `den`.
pub open spec fn raised(num: nat, power: nat, den: nat) -> (nat, nat)
    decreases TWO_53 * den - num,
    when num > 0
{
    if num >= TWO_52 * den {
        (num, power)
    } else {
        raised(2 * num, 2 * power, den)
    }
}

/// `side` times the double-precision quotient of `max` and `longest`, as
/// double-precision arithmetic gives it, rounded to a whole number, halves upwards.
pub open spec fn scaled(side: nat, longest: nat, max: nat) -> nat {
    let (num, power) = raised(max, 1, longest);
    let product = rounded_53(side * nearest_even(num, longest));
    (2 * product + power) / (2 * power)
}

/// `side` times the double-precision quotient of `max` and `longest`, as
/// double-precision arithmetic gives it, rounded to a whole number, halves upwards.
pub fn scale(side: u32, longest: u32, max: u32) -> (result: u128)
    requires
        0 < max < longest,
    ensures
        result == scaled(side as nat, longest as nat, max as nat),
{
    let mut num: u128 = max as u128;
    let mut power: u128 = 1;
    let den: u128 = longest as u128;
    while num < TWO_52 * den
        invariant
            0 < power <= num,
            den == longest,
            0 < den,
            num < TWO_53 * den,
            raised(max as nat, 1, longest as nat) == raised(num as nat, power as nat, den as nat),
        decreases TWO_53 * den - num,
    {
        num = 2 * num;
        power = 2 * power;
    }
    let ratio: u128 = divide_to_nearest(num, den);
    proof {
        assert(num / den < TWO_53) by (nonlinear_arith)
            requires
                num < TWO_53 * den,
                0 < den,
        ;
        assert(ratio <= TWO_53);
        assert(side * ratio <= 0xffff_ffff * TWO_53) by (nonlinear_arith)
            requires
                side <= 0xffff_ffff,
                ratio <= TWO_53,
        ;
    }
    let product: u128 = round_53(side as u128 * ratio);
    (2 * product + power) / (2 * power)
}

proof fn lemma_nearest(num: nat, den: nat)
    requires
        0 < den,
    ensures
        2 * (nearest_even(num, den) * den) <= 2 * num + den,
        2 * num <= 2 * (nearest_even(num, den) * den) + den,
{
    let quotient = num / den;
    let rest = num % den;
    assert(num == quotient * den + rest && rest < den) by (nonlinear_arith)
        requires
            0 < den,
            quotient == num / den,
            rest == num % den,
    ;
    assert((quotient + 1) * den == quotient * den + den) by (nonlinear_arith);
}

proof fn lemma_unit(value: nat, unit: nat)
    requires
        0 < unit,
        unit == 1 || TWO_52 * unit <= value,
    ensures
        0 < unit_for(value, unit),
        unit_for(value, unit) == 1 || TWO_52 * unit_for(value, unit) <= value,
    decreases value - unit,
{
    if value >= TWO_53 * unit {
        lemma_unit(value, 2 * unit);
    }
}

proof fn lemma_raised(max: nat, num: nat, power: nat, den: nat)
    requires
        0 < num < TWO_53 * den,
        num == max * power,
    ensures
        raised(num, power, den).0 == max * raised(num, power, den).1,
        TWO_52 * den <= raised(num, power, den).0 < TWO_53 * den,
    decreases TWO_53 * den - num,
{
    if num < TWO_52 * den {
        assert(2 * num == max * (2 * power)) by (nonlinear_arith)
            requires
                num == max * power,
        ;
        lemma_raised(max, 2 * num, 2 * power, den);
    }
}

/// A side that is at most the longest one is scaled to at most `max`.
pub proof fn law_scaled_side_fits(side: u32, longest: u32, max: u32)
    requires
        0 < max < longest,
        side <= longest,
    ensures
        scaled(side as nat, longest as nat, max as nat) <= max,
{
    let den = longest as nat;
    let (num, power) = raised(max as nat, 1, den);
    lemma_raised(max as nat, max as nat, 1, den);
    let ratio = nearest_even(num, den);
    lemma_nearest(num, den);
    let value = side as nat * ratio;
    assert(value <= ratio * den) by (nonlinear_arith)
        requires
            value == side as nat * ratio,
            side <= den,
    ;
    lemma_unit(value, 1);
    let unit = unit_for(value, 1);
    lemma_nearest(value, unit);
    let product = rounded_53(value);
    assert(2 * product <= 2 * value + unit);
    assert(power > 16 * den) by (nonlinear_arith)
        requires
            num == max * power,
            0 < max <= 0xffff_ffff,
            0x10_0000_0000_0000 * den <= num,
            0 < den,
    ;
    assert(2 * product < 2 * num + power);
    assert((2 * product + power) / (2 * power) <= max) by (nonlinear_arith)
        requires
            2 * product < 2 * num + power,
            num == max * power,
            0 < power,
    ;
}

/// Whether `near` times `longest` is `side` times `max`, up to half of `longest` and two
/// millionths of it.
pub open spec fn nearly_scaled(near: int, side: int, longest: int, max: int) -> bool {
    let twice = 2 * (near * longest - side * max);
    &&& 0x4_0000 * twice <= 0x4_0001 * longest
    &&& -(0x4_0000 * twice) <= 0x4_0001 * longest
}

/// A side is scaled to the whole number nearest to its exact share of `max`, up to the
/// roundings on the way, and the longest side to `max` itself.
pub proof fn law_scaled_side_is_near(side: u32, longest: u32, max: u32)
    requires
        0 < max < longest,
        side <= longest,
    ensures
        nearly_scaled(
            scaled(side as nat, longest as nat, max as nat) as int,
            side as int,
            longest as int,
            max as int,
        ),
        side == longest ==> scaled(side as nat, longest as nat, max as nat) == max,
{
    let (s, l, m) = (side as int, longest as int, max as int);
    let (raised_num, raised_power) = raised(max as nat, 1, longest as nat);
    lemma_raised(max as nat, max as nat, 1, longest as nat);
    let (num, power) = (raised_num as int, raised_power as int);
    let ratio = nearest_even(raised_num, longest as nat) as int;
    lemma_nearest(raised_num, longest as nat);
    assert(ratio <= 0x20_0000_0000_0000) by (nonlinear_arith)
        requires
            2 * (ratio * l) <= 2 * num + l,
            num < 0x20_0000_0000_0000 * l,
            0 < l,
    ;
    let value = s * ratio;
    assert(0 <= value <= s * 0x20_0000_0000_0000) by (nonlinear_arith)
        requires
            0 <= s,
            0 <= ratio <= 0x20_0000_0000_0000,
            value == s * ratio,
    ;
    assert(value == side as nat * nearest_even(raised_num, longest as nat));
    lemma_unit(value as nat, 1);
    let unit = unit_for(value as nat, 1);
    lemma_nearest(value as nat, unit);
    let product = rounded_53(value as nat) as int;
    assert(-(2 * l) <= 2 * product - 2 * value <= 2 * l);
    let exact = s * num;
    assert(-(l * l) <= 2 * (value * l) - 2 * exact <= l * l) by (nonlinear_arith)
        requires
            value == s * ratio,
            exact == s * num,
            0 <= s <= l,
            2 * (ratio * l) <= 2 * num + l,
            2 * num <= 2 * (ratio * l) + l,
    {
        let off = 2 * (ratio * l) - 2 * num;
        assert(2 * (value * l) - 2 * exact == s * off) by (nonlinear_arith)
            requires
                value == s * ratio,
                exact == s * num,
                off == 2 * (ratio * l) - 2 * num,
        ;
        assert(-(l * l) <= s * off <= l * l) by (nonlinear_arith)
            requires
                0 <= s <= l,
                -l <= off <= l,
        ;
    }
    assert(-(3 * (l * l)) <= 2 * (product * l) - 2 * exact <= 3 * (l * l)) by {
        let off = 2 * product - 2 * value;
        assert(2 * (product * l) - 2 * (value * l) == off * l) by (nonlinear_arith)
            requires
                off == 2 * product - 2 * value,
        ;
        assert(-(2 * (l * l)) <= off * l <= 2 * (l * l)) by (nonlinear_arith)
            requires
                -(2 * l) <= off <= 2 * l,
                0 < l,
        ;
    }
    assert(power > 0x10_0000 * l) by (nonlinear_arith)
        requires
            num == m * power,
            0 < m <= 0xffff_ffff,
            0x10_0000_0000_0000 * l <= num,
            0 < l,
    ;
    assert(0x10_0000 * (l * l) <= power * l) by (nonlinear_arith)
        requires
            power > 0x10_0000 * l,
            0 < l,
    ;
    let near = scaled(side as nat, longest as nat, max as nat) as int;
    assert(near == (2 * product + power) / (2 * power));
    assert(-power <= 2 * product - 2 * (power * near) <= power) by (nonlinear_arith)
        requires
            near == (2 * product + power) / (2 * power),
            0 < power,
    ;
    let twice = 2 * (near * l - s * m);
    assert(power * twice == 2 * ((power * near) * l) - 2 * exact) by (nonlinear_arith)
        requires
            twice == 2 * (near * l - s * m),
            exact == s * num,
            num == m * power,
    ;
    assert(-(power * l) <= 2 * (product * l) - 2 * ((power * near) * l) <= power * l) by {
        let off = 2 * product - 2 * (power * near);
        assert(2 * (product * l) - 2 * ((power * near) * l) == off * l) by (nonlinear_arith)
            requires
                off == 2 * product - 2 * (power * near),
        ;
        assert(-(power * l) <= off * l <= power * l) by (nonlinear_arith)
            requires
                -power <= off <= power,
                0 < l,
        ;
    }
    assert(0x4_0000 * (power * twice) <= 0x4_0001 * (power * l));
    assert(-(0x4_0000 * (power * twice)) <= 0x4_0001 * (power * l));
    assert(0x4_0000 * twice <= 0x4_0001 * l && -(0x4_0000 * twice) <= 0x4_0001 * l) by (
        nonlinear_arith)
        requires
            0x4_0000 * (power * twice) <= 0x4_0001 * (power * l),
            -(0x4_0000 * (power * twice)) <= 0x4_0001 * (power * l),
            0 < power,
    ;
    if side == longest {
        assert(twice == 2 * ((near - m) * l)) by (nonlinear_arith)
            requires
                twice == 2 * (near * l - s * m),
                s == l,
        ;
        assert(near == m) by (nonlinear_arith)
            requires
                twice == 2 * ((near - m) * l),
                0x4_0000 * twice <= 0x4_0001 * l,
                -(0x4_0000 * twice) <= 0x4_0001 * l,
                0 < l,
        ;
    }
}

/// A quotient is rounded to the nearest whole number, and from half way to the even one.
pub proof fn law_quotient_is_the_nearest(num: nat, den: nat)
    requires
        den > 0,
    ensures
        2 * nearest_even(num, den) * den <= 2 * num + den,
        2 * nearest_even(num, den) * den >= 2 * num - den,
        2 * nearest_even(num, den) * den == 2 * num + den || 2 * nearest_even(num, den) * den == 2
            * num - den ==> nearest_even(num, den) % 2 == 0,
{
    let quotient = num / den;
    let rest = num % den;
    vstd::arithmetic::div_mod::lemma_fundamental_div_mod(num as int, den as int);
    assert(2 * (quotient * den) == 2 * num - 2 * rest) by {
        vstd::arithmetic::mul::lemma_mul_is_commutative(den as int, quotient as int);
    }
    assert((2 * quotient) * den == 2 * (quotient * den)) by (nonlinear_arith);
    assert((2 * (quotient + 1)) * den == 2 * (quotient * den) + 2 * den) by (nonlinear_arith);
    assert(rest < den);
}

/// A number below fifty-three bits is kept. A greater one is a multiple of a power of two,
/// of which it holds at least two to the fifty-second and less than two to the fifty-third,
/// and is rounded to the nearest such multiple.
pub proof fn law_numbers_keep_fifty_three_bits(value: nat) -> (n: nat)
    ensures
        value < 0x20_0000_0000_0000 ==> n == 0,
        value >= 0x20_0000_0000_0000 ==> 0x10_0000_0000_0000 * pow2(n) <= value,
        value < 0x20_0000_0000_0000 * pow2(n),
        rounded_53(value) == nearest_even(value, pow2(n)) * pow2(n),
{
    vstd::arithmetic::power2::lemma2_to64();
    let n = lemma_unit_is_a_power(value, 0);
    if value < 0x20_0000_0000_0000 {
        assert(unit_for(value, 1) == 1);
        if n > 0 {
            vstd::arithmetic::power2::lemma_pow2_strictly_increases(0, n);
        }
    }
    n
}

proof fn lemma_unit_is_a_power(value: nat, k: nat) -> (n: nat)
    ensures
        n >= k,
        unit_for(value, pow2(k)) == pow2(n),
        value < TWO_53 * pow2(n),
        n > k ==> TWO_52 * pow2(n) <= value,
    decreases value - pow2(k),
{
    vstd::arithmetic::power2::lemma_pow2_pos(k);
    if value < TWO_53 * pow2(k) {
        k
    } else {
        vstd::arithmetic::power2::lemma_pow2_unfold(k + 1);
        assert(pow2(k + 1) == 2 * pow2(k));
        let n = lemma_unit_is_a_power(value, k + 1);
        if n == k + 1 {
            assert(TWO_52 * pow2(n) == TWO_53 * pow2(k));
        }
        n
    }
}

} // verus!
