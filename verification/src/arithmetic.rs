//! Arithmetic on floating-point numbers given as bit patterns.

use vstd::prelude::*;
use crate::float::{
    at_least, compute_number, computes, floats, is_at_least, is_not_a_number, magnitude, not_a_number, number,
    number_rank, rank_numbers, FloatReply, FloatTask, FloatTaskView, Floats, SIGN,
};
use crate::text::Rank;

verus! {

/// 0.
pub const ZERO: u64 = 0x0000000000000000;

/// 1.
pub const ONE: u64 = 0x3ff0000000000000;

/// -1.
pub const MINUS_ONE: u64 = 0xbff0000000000000;

/// 0.5.
pub const HALF: u64 = 0x3fe0000000000000;

/// 0.25.
pub const QUARTER: u64 = 0x3fd0000000000000;

/// 0.75.
pub const THREE_QUARTERS: u64 = 0x3fe8000000000000;

/// 0.2.
pub const FIFTH: u64 = 0x3fc999999999999a;

/// 0.8.
pub const FOUR_FIFTHS: u64 = 0x3fe999999999999a;

/// 1.2.
pub const BM25_SATURATION: u64 = 0x3ff3333333333333;

/// 2.2.
pub const BM25_GAIN: u64 = 0x400199999999999a;

/// 10.
pub const TEN: u64 = 0x4024000000000000;

/// 60.
pub const SIXTY: u64 = 0x404e000000000000;

/// 1000.
pub const THOUSAND: u64 = 0x408f400000000000;

/// 1000000000.
pub const BILLION: u64 = 0x41cdcd6500000000;

/// The distance from 1 to the next larger number.
pub const EPSILON: u64 = 0x3cb0000000000000;

/// Infinity.
pub const POSITIVE_INFINITY: u64 = 0x7ff0000000000000;

/// Minus infinity.
pub const NEGATIVE_INFINITY: u64 = 0xfff0000000000000;

/// Whether the first number is larger; false where either is no number.
pub open spec fn exceeds(left: u64, right: u64) -> bool {
    number_rank(left, right) == Some(Rank::After)
}

pub fn is_larger(left: u64, right: u64) -> (result: bool)
    ensures
        result == exceeds(left, right),
{
    match rank_numbers(left, right) {
        Some(Rank::After) => true,
        _ => false,
    }
}

/// Whether the two are equal as numbers.
pub open spec fn same_number(left: u64, right: u64) -> bool {
    number_rank(left, right) == Some(Rank::Same)
}

pub fn is_same_number(left: u64, right: u64) -> (result: bool)
    ensures
        result == same_number(left, right),
{
    match rank_numbers(left, right) {
        Some(Rank::Same) => true,
        _ => false,
    }
}

/// The larger of two numbers; the other where one is no number.
pub open spec fn maximum(left: u64, right: u64) -> u64 {
    if not_a_number(left) {
        right
    } else if not_a_number(right) || at_least(left, right) {
        left
    } else {
        right
    }
}

pub fn maximum_of(left: u64, right: u64) -> (result: u64)
    ensures
        result == maximum(left, right),
{
    if is_not_a_number(left) {
        right
    } else if is_not_a_number(right) || is_at_least(left, right) {
        left
    } else {
        right
    }
}

/// The smaller of two numbers; the other where one is no number.
pub open spec fn minimum(left: u64, right: u64) -> u64 {
    if not_a_number(left) {
        right
    } else if not_a_number(right) || at_least(right, left) {
        left
    } else {
        right
    }
}

pub fn minimum_of(left: u64, right: u64) -> (result: u64)
    ensures
        result == minimum(left, right),
{
    if is_not_a_number(left) {
        right
    } else if is_not_a_number(right) || is_at_least(right, left) {
        left
    } else {
        right
    }
}

/// The number, or the bound that it is beyond.
pub open spec fn clamped(bits: u64, low: u64, high: u64) -> u64 {
    if exceeds(low, bits) {
        low
    } else if exceeds(bits, high) {
        high
    } else {
        bits
    }
}

pub fn clamp_number(bits: u64, low: u64, high: u64) -> (result: u64)
    ensures
        result == clamped(bits, low, high),
{
    if is_larger(low, bits) {
        low
    } else if is_larger(bits, high) {
        high
    } else {
        bits
    }
}

/// Whether a number lies between two bounds, or is one of them.
pub open spec fn between(bits: u64, low: u64, high: u64) -> bool {
    at_least(bits, low) && at_least(high, bits)
}

pub fn is_between(bits: u64, low: u64, high: u64) -> (result: bool)
    ensures
        result == between(bits, low, high),
{
    is_at_least(bits, low) && is_at_least(high, bits)
}

/// The number without its sign.
pub open spec fn absolute(bits: u64) -> u64 {
    magnitude(bits) as u64
}

pub fn absolute_of(bits: u64) -> (result: u64)
    ensures
        result == absolute(bits),
{
    if bits >= SIGN {
        bits - SIGN
    } else {
        bits
    }
}

/// The sum of two numbers.
pub open spec fn plus(floats: Floats, left: u64, right: u64) -> u64 {
    number(floats, FloatTaskView::Add(left, right))
}

pub fn compute_plus<F: Fn(FloatTask) -> FloatReply>(f: &F, left: u64, right: u64) -> (result: u64)
    requires
        computes(*f),
    ensures
        result == plus(floats(*f), left, right),
{
    compute_number(f, FloatTask::Add(left, right))
}

/// The difference of two numbers.
pub open spec fn minus(floats: Floats, left: u64, right: u64) -> u64 {
    number(floats, FloatTaskView::Subtract(left, right))
}

pub fn compute_minus<F: Fn(FloatTask) -> FloatReply>(f: &F, left: u64, right: u64) -> (result: u64)
    requires
        computes(*f),
    ensures
        result == minus(floats(*f), left, right),
{
    compute_number(f, FloatTask::Subtract(left, right))
}

/// The product of two numbers.
pub open spec fn times(floats: Floats, left: u64, right: u64) -> u64 {
    number(floats, FloatTaskView::Multiply(left, right))
}

pub fn compute_times<F: Fn(FloatTask) -> FloatReply>(f: &F, left: u64, right: u64) -> (result: u64)
    requires
        computes(*f),
    ensures
        result == times(floats(*f), left, right),
{
    compute_number(f, FloatTask::Multiply(left, right))
}

/// The quotient of two numbers.
pub open spec fn over(floats: Floats, left: u64, right: u64) -> u64 {
    number(floats, FloatTaskView::Divide(left, right))
}

pub fn compute_over<F: Fn(FloatTask) -> FloatReply>(f: &F, left: u64, right: u64) -> (result: u64)
    requires
        computes(*f),
    ensures
        result == over(floats(*f), left, right),
{
    compute_number(f, FloatTask::Divide(left, right))
}

/// The number nearest to a count.
pub open spec fn count_number(floats: Floats, count: nat) -> u64 {
    number(floats, FloatTaskView::FromInteger(count as i64))
}

/// The number nearest to a count.
pub fn number_of_count<F: Fn(FloatTask) -> FloatReply>(f: &F, count: usize) -> (result: u64)
    requires
        computes(*f),
    ensures
        result == count_number(floats(*f), count as nat),
{
    compute_number(f, FloatTask::FromInteger(count as i64))
}

} // verus!
