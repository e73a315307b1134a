//! Numbers of any size, held as bytes, and their digits in another base.

use vstd::prelude::*;
use vstd::arithmetic::div_mod::lemma_div_denominator;
use vstd::arithmetic::div_mod::lemma_fundamental_div_mod;
use vstd::arithmetic::div_mod::lemma_fundamental_div_mod_converse;
use vstd::arithmetic::power::lemma_pow0;
use vstd::arithmetic::power::lemma_pow1;
use vstd::arithmetic::power::lemma_pow_adds;
use vstd::arithmetic::power::lemma_pow_positive;
use vstd::arithmetic::power::pow;
use vstd::arithmetic::power2::lemma2_to64;
use vstd::arithmetic::power2::lemma_pow2_adds;
use vstd::arithmetic::power2::lemma_pow2_pos;
use vstd::arithmetic::power2::pow2;
use crate::symmetric::message_hash::small_power_of_two;

verus! {

/// The number that `bytes` holds, least significant byte first.
pub open spec fn spec_le_value(bytes: Seq<u8>) -> nat
    decreases bytes.len(),
{
    if bytes.len() == 0 {
        0
    } else {
        bytes[0] as nat + 256 * spec_le_value(bytes.drop_first())
    }
}

/// Divides the number that `number` holds by `divisor`: leaves the quotient
/// in `number`, in as many bytes as before, and returns the remainder.
pub fn div_small(number: &mut Vec<u8>, divisor: u32) -> (remainder: u32)
    requires
        divisor > 0,
    ensures
        final(number)@.len() == old(number)@.len(),
        spec_le_value(final(number)@) == spec_le_value(old(number)@) / divisor as nat,
        remainder == spec_le_value(old(number)@) % divisor as nat,
{
    let len = number.len();
    let mut remainder: u64 = 0;
    let mut i: usize = len;
    proof {
        let none = number@.subrange(i as int, len as int);
        assert(none =~= Seq::<u8>::empty());
        assert(spec_le_value(none) == 0);
        assert(spec_le_value(none) * divisor == 0) by (nonlinear_arith)
            requires
                spec_le_value(none) == 0,
        ;
    }
    while i > 0
        invariant
            i <= len,
            number@.len() == len,
            old(number)@.len() == len,
            divisor > 0,
            remainder < divisor,
            forall|k: int| 0 <= k < i ==> number@[k] == old(number)@[k],
            spec_le_value(number@.subrange(i as int, len as int)) * divisor + remainder
                == spec_le_value(old(number)@.subrange(i as int, len as int)),
        decreases i,
    {
        i -= 1;
        let ghost quotient_above = spec_le_value(number@.subrange(i + 1, len as int));
        let ghost dividend_above = spec_le_value(old(number)@.subrange(i + 1, len as int));
        let ghost above = number@.subrange(i + 1, len as int);
        let current = remainder * 256 + number[i] as u64;
        let digit = current / divisor as u64;
        let rest = current % divisor as u64;
        assert(digit < 256) by (nonlinear_arith)
            requires
                digit == current / divisor as u64,
                current < (remainder + 1) * 256,
                remainder < divisor,
                divisor > 0,
        ;
        assert(current == digit * divisor + rest) by (nonlinear_arith)
            requires
                digit == current / divisor as u64,
                rest == current % divisor as u64,
                divisor > 0,
        ;
        number.set(i, digit as u8);
        proof {
            let quotient = number@.subrange(i as int, len as int);
            let dividend = old(number)@.subrange(i as int, len as int);
            assert(quotient.drop_first() =~= above);
            assert(dividend.drop_first() =~= old(number)@.subrange(i + 1, len as int));
            assert(spec_le_value(quotient) == digit + 256 * quotient_above);
            assert(spec_le_value(dividend) == old(number)@[i as int] + 256 * dividend_above);
            let byte = old(number)@[i as int];
            assert((digit + 256 * quotient_above) * divisor + rest == byte + 256 * (quotient_above
                * divisor + remainder)) by (nonlinear_arith)
                requires
                    remainder * 256 + byte == digit * divisor + rest,
            ;
        }
        remainder = rest;
    }
    proof {
        assert(number@.subrange(0, len as int) =~= number@);
        assert(old(number)@.subrange(0, len as int) =~= old(number)@);
        lemma_fundamental_div_mod_converse(
            spec_le_value(old(number)@) as int,
            divisor as int,
            spec_le_value(number@) as int,
            remainder as int,
        );
    }
    remainder as u32
}

/// The digit of `value` at place `index` in base `base`, place 0 being that
/// of the least significant digit.
pub open spec fn spec_digit(value: nat, base: nat, index: nat) -> nat {
    (value as int / pow(base as int, index) % base as int) as nat
}

/// The digit at a place is the last digit of the number without the digits
/// at the places below.
pub proof fn lemma_digit_step(value: nat, base: nat, index: nat)
    requires
        base > 0,
    ensures
        pow(base as int, index) > 0,
        value as int / pow(base as int, index) / base as int == value as int / pow(
            base as int,
            index + 1,
        ),
{
    lemma_pow_positive(base as int, index);
    lemma_pow_adds(base as int, index, 1);
    lemma_pow1(base as int);
    lemma_div_denominator(value as int, pow(base as int, index), base as int);
}

/// Computes the `count` least significant digits of the number that
/// `number` holds, in base `base` and least significant digit first.
pub fn digits(number: Vec<u8>, base: u32, count: usize) -> (digits: Vec<u32>)
    requires
        base > 0,
    ensures
        digits@.len() == count,
        forall|i: int|
            0 <= i < count ==> digits@[i] == spec_digit(
                spec_le_value(number@),
                base as nat,
                i as nat,
            ),
{
    let ghost value = spec_le_value(number@);
    let mut rest = number;
    let mut digits: Vec<u32> = Vec::new();
    let mut done: usize = 0;
    proof {
        lemma_pow0(base as int);
    }
    while done < count
        invariant
            base > 0,
            done <= count,
            digits@.len() == done,
            spec_le_value(rest@) == value as int / pow(base as int, done as nat),
            forall|i: int|
                0 <= i < done ==> digits@[i] == spec_digit(value, base as nat, i as nat),
        decreases count - done,
    {
        proof {
            lemma_digit_step(value, base as nat, done as nat);
        }
        let digit = div_small(&mut rest, base);
        digits.push(digit);
        done += 1;
    }
    digits
}

/// A byte behind the others adds its worth at its place.
pub proof fn lemma_le_value_push(bytes: Seq<u8>, byte: u8)
    ensures
        spec_le_value(bytes.push(byte)) == spec_le_value(bytes) + byte * pow(
            256,
            bytes.len(),
        ),
    decreases bytes.len(),
{
    let longer = bytes.push(byte);
    let unit = pow(256, bytes.len());
    if bytes.len() == 0 {
        lemma_pow0(256);
        assert(longer.drop_first() =~= Seq::<u8>::empty());
        assert(spec_le_value(longer) == byte + 256 * spec_le_value(longer.drop_first()));
        assert(byte * unit == byte) by (nonlinear_arith)
            requires
                unit == 1,
        ;
    } else {
        lemma_le_value_push(bytes.drop_first(), byte);
        assert(longer.drop_first() =~= bytes.drop_first().push(byte));
        let below = pow(256, (bytes.len() - 1) as nat);
        assert(bytes.drop_first().len() == bytes.len() - 1);
        lemma_pow_adds(256, 1, (bytes.len() - 1) as nat);
        lemma_pow1(256);
        assert(unit == 256 * below) by {
            assert(1 + (bytes.len() - 1) as nat == bytes.len());
        }
        assert(256 * (byte * below) == byte * unit) by (nonlinear_arith)
            requires
                unit == 256 * below,
        ;
        assert(spec_le_value(longer) == longer[0] + 256 * spec_le_value(longer.drop_first()));
        assert(longer[0] == bytes[0]);
    }
}

/// Multiplies the number that `number` holds by `factor` and adds `addend`
/// to it. The number gets as many bytes as it then needs.
pub fn mul_small_add(number: &mut Vec<u8>, factor: u32, addend: u32)
    ensures
        spec_le_value(final(number)@) == spec_le_value(old(number)@) * factor + addend,
        final(number)@.len() >= old(number)@.len(),
{
    let len = number.len();
    let ghost target = spec_le_value(old(number)@) * factor + addend;
    let mut carry: u64 = addend as u64;
    let mut i: usize = 0;
    proof {
        lemma_pow0(256);
        let none = number@.subrange(0, 0);
        assert(none =~= Seq::<u8>::empty());
        assert(old(number)@.subrange(0, 0) =~= none);
        assert(spec_le_value(none) * factor == 0) by (nonlinear_arith)
            requires
                spec_le_value(none) == 0,
        ;
    }
    while i < len
        invariant
            i <= len,
            number@.len() == len,
            old(number)@.len() == len,
            carry <= u32::MAX,
            forall|k: int| i <= k < len ==> number@[k] == old(number)@[k],
            spec_le_value(number@.subrange(0, i as int)) + carry * pow(256, i as nat)
                == spec_le_value(old(number)@.subrange(0, i as int)) * factor + addend,
        decreases len - i,
    {
        let ghost product_below = spec_le_value(number@.subrange(0, i as int));
        let ghost number_below = spec_le_value(old(number)@.subrange(0, i as int));
        let ghost below = number@.subrange(0, i as int);
        let ghost unit = pow(256, i as nat);
        let byte = number[i];
        assert(byte as u64 * factor as u64 + carry <= 256 * 0xffff_ffff) by (nonlinear_arith)
            requires
                byte <= 255,
                factor <= 0xffff_ffff,
                carry <= 0xffff_ffff,
        ;
        let current = byte as u64 * factor as u64 + carry;
        let low = (current % 256) as u8;
        number.set(i, low);
        let ghost carry_before = carry;
        carry = current / 256;
        proof {
            assert(number@.subrange(0, i + 1) =~= below.push(low));
            assert(old(number)@.subrange(0, i + 1) =~= old(number)@.subrange(0, i as int).push(
                byte,
            ));
            lemma_le_value_push(below, low);
            lemma_le_value_push(old(number)@.subrange(0, i as int), byte);
            lemma_pow_adds(256, i as nat, 1);
            lemma_pow1(256);
            let next = pow(256, (i + 1) as nat);
            assert(next == unit * 256);
            assert(product_below + low * unit + carry * next == (number_below + byte * unit)
                * factor + addend) by (nonlinear_arith)
                requires
                    product_below + carry_before * unit == number_below * factor + addend,
                    next == unit * 256,
                    low + 256 * carry == byte * factor + carry_before,
            ;
        }
        i += 1;
    }
    assert(number@.subrange(0, len as int) =~= number@);
    assert(old(number)@.subrange(0, len as int) =~= old(number)@);
    while carry > 0
        invariant
            number@.len() >= len,
            spec_le_value(number@) + carry * pow(256, number@.len()) == target,
        decreases carry,
    {
        let ghost before = number@;
        let ghost unit = pow(256, before.len());
        let ghost carry_before = carry;
        let low = (carry % 256) as u8;
        number.push(low);
        carry = carry / 256;
        proof {
            lemma_le_value_push(before, low);
            lemma_pow_adds(256, before.len(), 1);
            lemma_pow1(256);
            let next = pow(256, before.len() + 1);
            assert(next == unit * 256);
            assert(low * unit + carry * next == carry_before * unit) by (nonlinear_arith)
                requires
                    next == unit * 256,
                    low + 256 * carry == carry_before,
            ;
        }
    }
    assert(carry * pow(256, number@.len()) == 0) by (nonlinear_arith)
        requires
            carry == 0,
    ;
}

/// Computes `base^exponent`.
pub fn power(base: u32, exponent: usize) -> (number: Vec<u8>)
    ensures
        spec_le_value(number@) == pow(base as int, exponent as nat),
{
    let mut number: Vec<u8> = Vec::new();
    mul_small_add(&mut number, 0, 1);
    let mut i: usize = 0;
    proof {
        lemma_pow0(base as int);
    }
    while i < exponent
        invariant
            i <= exponent,
            spec_le_value(number@) == pow(base as int, i as nat),
        decreases exponent - i,
    {
        proof {
            lemma_pow_adds(base as int, i as nat, 1);
            lemma_pow1(base as int);
        }
        mul_small_add(&mut number, base, 0);
        i += 1;
    }
    number
}

/// Computes `base^exponent - 1`.
pub fn power_minus_one(base: u32, exponent: usize) -> (number: Vec<u8>)
    requires
        base > 0,
    ensures
        spec_le_value(number@) == pow(base as int, exponent as nat) - 1,
{
    let mut number: Vec<u8> = Vec::new();
    let mut i: usize = 0;
    proof {
        lemma_pow0(base as int);
    }
    while i < exponent
        invariant
            base > 0,
            i <= exponent,
            spec_le_value(number@) == pow(base as int, i as nat) - 1,
        decreases exponent - i,
    {
        proof {
            lemma_pow_adds(base as int, i as nat, 1);
            lemma_pow1(base as int);
            let before = pow(base as int, i as nat);
            assert((before - 1) * base + (base - 1) == before * base - 1) by (nonlinear_arith);
        }
        mul_small_add(&mut number, base, base - 1);
        i += 1;
    }
    number
}

/// A number is zero where all its bytes are.
pub proof fn lemma_le_value_zero(bytes: Seq<u8>)
    ensures
        spec_le_value(bytes) == 0 <==> forall|i: int| 0 <= i < bytes.len() ==> bytes[i] == 0,
    decreases bytes.len(),
{
    if bytes.len() > 0 {
        let rest = bytes.drop_first();
        lemma_le_value_zero(rest);
        if spec_le_value(bytes) == 0 {
            assert forall|i: int| 0 <= i < bytes.len() implies bytes[i] == 0 by {
                if i > 0 {
                    assert(bytes[i] == rest[i - 1]);
                }
            }
        }
        if forall|i: int| 0 <= i < bytes.len() ==> bytes[i] == 0 {
            assert forall|i: int| 0 <= i < rest.len() implies rest[i] == 0 by {
                assert(rest[i] == bytes[i + 1]);
            }
        }
    }
}

/// Tells whether the number that `number` holds is zero.
pub fn is_zero(number: &Vec<u8>) -> (zero: bool)
    ensures
        zero == (spec_le_value(number@) == 0),
{
    proof {
        lemma_le_value_zero(number@);
    }
    let mut i: usize = 0;
    while i < number.len()
        invariant
            i <= number@.len(),
            forall|k: int| 0 <= k < i ==> number@[k] == 0,
        decreases number@.len() - i,
    {
        if number[i] != 0 {
            proof {
                lemma_le_value_zero(number@);
            }
            return false;
        }
        i += 1;
    }
    true
}

/// Tells whether the number that `number` holds is at least `2^bits`.
pub fn reaches_power_of_two(number: Vec<u8>, bits: usize) -> (reached: bool)
    ensures
        reached == (spec_le_value(number@) >= pow2(bits as nat)),
{
    let ghost value = spec_le_value(number@);
    let mut rest = number;
    let whole = bits / 8;
    let part = bits % 8;
    let mut done: usize = 0;
    proof {
        lemma2_to64();
        let unit = pow2((8 * done) as nat);
        assert(value / unit == value) by (nonlinear_arith)
            requires
                unit == 1,
        ;
    }
    while done < whole
        invariant
            done <= whole,
            whole <= usize::MAX / 8,
            spec_le_value(rest@) == value / pow2((8 * done) as nat),
        decreases whole - done,
    {
        proof {
            lemma2_to64();
            lemma_pow2_pos((8 * done) as nat);
            lemma_pow2_adds((8 * done) as nat, 8);
            lemma_div_denominator(value as int, pow2((8 * done) as nat) as int, 256);
        }
        div_small(&mut rest, 256);
        done += 1;
    }
    let divisor = small_power_of_two(part);
    proof {
        lemma_pow2_pos((8 * whole) as nat);
        lemma_pow2_pos(part as nat);
        lemma_pow2_adds((8 * whole) as nat, part as nat);
        lemma_div_denominator(
            value as int,
            pow2((8 * whole) as nat) as int,
            pow2(part as nat) as int,
        );
        assert(divisor <= 128) by {
            assert(part == 0 || part == 1 || part == 2 || part == 3 || part == 4 || part == 5
                || part == 6 || part == 7);
        }
    }
    div_small(&mut rest, divisor as u32);
    proof {
        let limit = pow2(bits as nat);
        lemma_pow2_pos(bits as nat);
        assert(spec_le_value(rest@) == value / limit);
        assert((value / limit == 0) == (value < limit)) by (nonlinear_arith)
            requires
                limit > 0,
                value >= 0,
        ;
    }
    !is_zero(&rest)
}

/// Two numbers below `base^count` with the same `count` least significant
/// digits in base `base` are the same number.
pub proof fn lemma_digits_determine(first: nat, second: nat, base: nat, count: nat)
    requires
        base > 0,
        first < pow(base as int, count),
        second < pow(base as int, count),
        forall|i: nat|
            i < count ==> #[trigger] spec_digit(first, base, i) == spec_digit(second, base, i),
    ensures
        first == second,
    decreases count,
{
    if count == 0 {
        lemma_pow0(base as int);
    } else {
        let fewer = (count - 1) as nat;
        let limit = pow(base as int, fewer);
        lemma_pow_adds(base as int, fewer, 1);
        lemma_pow1(base as int);
        lemma_pow_positive(base as int, fewer);
        lemma_pow0(base as int);
        assert(first / base < limit && second / base < limit) by (nonlinear_arith)
            requires
                first < limit * base,
                second < limit * base,
                base > 0,
        ;
        assert forall|i: nat| i < fewer implies #[trigger] spec_digit(first / base, base, i)
            == spec_digit(second / base, base, i) by {
            lemma_digit_shift(first, base, i);
            lemma_digit_shift(second, base, i);
            assert(spec_digit(first, base, i + 1) == spec_digit(second, base, i + 1));
        }
        lemma_digits_determine(first / base, second / base, base, fewer);
        assert(spec_digit(first, base, 0) == spec_digit(second, base, 0));
        assert(first as int / pow(base as int, 0) == first) by (nonlinear_arith)
            requires
                pow(base as int, 0) == 1,
        ;
        assert(second as int / pow(base as int, 0) == second) by (nonlinear_arith)
            requires
                pow(base as int, 0) == 1,
        ;
        lemma_fundamental_div_mod(first as int, base as int);
        lemma_fundamental_div_mod(second as int, base as int);
    }
}

/// The digit at a place is the digit one place below of the number without
/// its last digit.
pub proof fn lemma_digit_shift(value: nat, base: nat, index: nat)
    requires
        base > 0,
    ensures
        spec_digit(value / base, base, index) == spec_digit(value, base, index + 1),
{
    lemma_pow_positive(base as int, index);
    lemma_pow_adds(base as int, 1, index);
    lemma_pow1(base as int);
    lemma_div_denominator(value as int, base as int, pow(base as int, index));
}

/// A number of `n` bytes is below `2^(8 n)`.
pub proof fn lemma_le_value_bound(bytes: Seq<u8>)
    ensures
        spec_le_value(bytes) < pow2(8 * bytes.len()),
    decreases bytes.len(),
{
    lemma2_to64();
    if bytes.len() > 0 {
        let rest = bytes.drop_first();
        lemma_le_value_bound(rest);
        lemma_pow2_adds(8, 8 * rest.len());
        assert(8 + 8 * rest.len() == 8 * bytes.len());
    }
}

/// Two byte strings of one length that hold the same number are the same.
pub proof fn lemma_le_value_injective(first: Seq<u8>, second: Seq<u8>)
    requires
        first.len() == second.len(),
        spec_le_value(first) == spec_le_value(second),
    ensures
        first == second,
    decreases first.len(),
{
    if first.len() > 0 {
        let first_rest = first.drop_first();
        let second_rest = second.drop_first();
        assert(first[0] == second[0] && spec_le_value(first_rest) == spec_le_value(second_rest));
        lemma_le_value_injective(first_rest, second_rest);
        assert forall|i: int| 0 <= i < first.len() implies first[i] == second[i] by {
            if i > 0 {
                assert(first[i] == first_rest[i - 1]);
                assert(second[i] == second_rest[i - 1]);
            }
        }
    }
    assert(first =~= second);
}

} // verus!
