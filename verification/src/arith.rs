use vstd::prelude::*;

verus! {

/// The sum of `values` in 32-bit two's complement: each addition wraps
/// around at the ends of the `i32` range.
pub open spec fn total(values: Seq<i32>) -> i32
    decreases values.len(),
{
    if values.len() == 0 {
        0
    } else {
        total(values.drop_last()).wrapping_add(values.last())
    }
}

/// `value` with its sign turned, wrapping at `i32::MIN`.
pub open spec fn negation(value: i32) -> i32 {
    0i32.wrapping_sub(value)
}

/// Each of `values` with its sign turned.
pub open spec fn negated(values: Seq<i32>) -> Seq<i32> {
    Seq::new(values.len(), |i: int| negation(values[i]))
}

/// The distance of `value` from zero.
pub open spec fn magnitude(value: int) -> int {
    if value < 0 {
        -value
    } else {
        value
    }
}

/// `dividend / divisor` rounded toward zero. The one quotient that does not
/// fit, `i32::MIN / -1`, wraps to `i32::MIN`.
pub open spec fn truncated_quotient(dividend: i32, divisor: i32) -> i32
    recommends
        divisor != 0,
{
    let size = magnitude(dividend as int) / magnitude(divisor as int);
    let quotient = if (dividend < 0) != (divisor < 0) {
        -size
    } else {
        size
    };
    if quotient > i32::MAX {
        i32::MIN
    } else {
        quotient as i32
    }
}

/// The Euclidean quotient: the `q` for which `dividend - q * divisor` lies
/// from 0 to below the divisor's magnitude. The one quotient that does not
/// fit, `i32::MIN / -1`, wraps to `i32::MIN`.
pub open spec fn euclidean_quotient(dividend: i32, divisor: i32) -> i32
    recommends
        divisor != 0,
{
    let quotient = (dividend as int) / (divisor as int);
    if quotient > i32::MAX {
        i32::MIN
    } else {
        quotient as i32
    }
}

/// Adds up `values`.
pub fn sum(values: &Vec<i32>) -> (result: i32)
    ensures
        result == total(values@),
{
    let mut result: i32 = 0;
    let mut index: usize = 0;
    while index < values.len()
        invariant
            index <= values.len(),
            result == total(values@.take(index as int)),
        decreases values.len() - index,
    {
        assert(values@.take(index + 1).drop_last() =~= values@.take(index as int));
        result = result.wrapping_add(values[index]);
        index += 1;
    }
    assert(values@.take(index as int) =~= values@);
    result
}

/// Turns the sign of each of `values`.
pub fn negate_all(values: &Vec<i32>) -> (result: Vec<i32>)
    ensures
        result@ == negated(values@),
{
    let mut result: Vec<i32> = Vec::new();
    let mut index: usize = 0;
    while index < values.len()
        invariant
            index <= values.len(),
            result@ == negated(values@.take(index as int)),
        decreases values.len() - index,
    {
        result.push(0i32.wrapping_sub(values[index]));
        assert(result@ =~= negated(values@.take(index + 1)));
        index += 1;
    }
    assert(values@.take(index as int) =~= values@);
    result
}

/// Divides, rounding toward zero.
pub fn divide_truncated(dividend: i32, divisor: i32) -> (quotient: i32)
    requires
        divisor != 0,
    ensures
        quotient == truncated_quotient(dividend, divisor),
{
    match dividend.checked_div(divisor) {
        Some(quotient) => quotient,
        None => i32::MIN,
    }
}

/// Divides, rounding so that the remainder is not negative.
pub fn divide_euclidean(dividend: i32, divisor: i32) -> (quotient: i32)
    requires
        divisor != 0,
    ensures
        quotient == euclidean_quotient(dividend, divisor),
{
    match dividend.checked_div_euclid(divisor) {
        Some(quotient) => quotient,
        None => {
            assert((dividend as int) / (divisor as int) > i32::MAX) by (nonlinear_arith)
                requires
                    divisor != 0,
                    i32::MIN <= dividend <= i32::MAX,
                    i32::MIN <= divisor <= i32::MAX,
                    !(i32::MIN <= (dividend as int) / (divisor as int) <= i32::MAX),
            {
            }
            i32::MIN
        },
    }
}

} // verus!
