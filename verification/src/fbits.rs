//! Scalar values of the geometry engine.
//!
//! Coordinates, slopes, distances and tolerances are IEEE double-precision
//! numbers.  Verified code carries each such number as its bit pattern (the
//! `u64` produced by `to_bits`), and every arithmetic operation or
//! comparison on them is performed through a small trusted wrapper around
//! the corresponding operation of doubles.
//!
//! Whether an operation's result is a NaN, and the bits of a result that is
//! a number, are functions of the operand bits; the payload bits of a
//! produced NaN are not (they differ between machines), so the trusted
//! wrappers claim nothing about them.  The verified layer restores exact
//! determinism by canonicalizing: whenever an operation's result is a NaN
//! it is carried as the one canonical quiet NaN, and the `*_canon` spec
//! functions name these canonical results.  The engine's contracts are
//! stated over the canonical operations.

use vstd::prelude::*;

verus! {

/// The bits of the canonical quiet NaN that the engine carries whenever an
/// arithmetic result is a NaN.
pub const QNAN_BITS: u64 = 0x7FF8000000000000;

/// The bits of the double +0.
pub const POS_ZERO_BITS: u64 = 0;

/// The bits of the double -0.
pub const NEG_ZERO_BITS: u64 = 0x8000000000000000;

/// The bits of the double 1.
pub const ONE_BITS: u64 = 0x3FF0000000000000;

/// The bits of `a + b`, when that result is a number.
pub uninterp spec fn add_bits(a: u64, b: u64) -> u64;

/// Whether `a + b` is a NaN.
pub uninterp spec fn add_nan(a: u64, b: u64) -> bool;

/// The bits of `a - b`, when that result is a number.
pub uninterp spec fn sub_bits(a: u64, b: u64) -> u64;

/// Whether `a - b` is a NaN.
pub uninterp spec fn sub_nan(a: u64, b: u64) -> bool;

/// The bits of `a * b`, when that result is a number.
pub uninterp spec fn mul_bits(a: u64, b: u64) -> u64;

/// Whether `a * b` is a NaN.
pub uninterp spec fn mul_nan(a: u64, b: u64) -> bool;

/// The bits of `a / b`, when that result is a number.
pub uninterp spec fn div_bits(a: u64, b: u64) -> u64;

/// Whether `a / b` is a NaN.
pub uninterp spec fn div_nan(a: u64, b: u64) -> bool;

/// The bits of `a.sqrt()`, when that result is a number.
pub uninterp spec fn sqrt_bits(a: u64) -> u64;

/// Whether `a.sqrt()` is a NaN.
pub uninterp spec fn sqrt_nan(a: u64) -> bool;

/// The bits of `a.abs()`.
pub uninterp spec fn abs_bits(a: u64) -> u64;

/// The result of `a <= b`.
pub uninterp spec fn le_bits(a: u64, b: u64) -> bool;

/// The result of `a < b`.
pub uninterp spec fn lt_bits(a: u64, b: u64) -> bool;

/// The result of `a.is_nan()`.
pub uninterp spec fn nan_bits(a: u64) -> bool;

/// A bit pattern that denotes a number rather than a NaN.
pub open spec fn numeric(a: u64) -> bool {
    !nan_bits(a)
}

/// IEEE equality of the two doubles: each is at most the other.  False
/// whenever either is a NaN; true for a positive and a negative zero.
pub open spec fn eq_bits(a: u64, b: u64) -> bool {
    le_bits(a, b) && le_bits(b, a)
}

/// The canonical sum: NaN results are carried as the canonical quiet NaN.
pub open spec fn add_canon(a: u64, b: u64) -> u64 {
    if add_nan(a, b) {
        QNAN_BITS
    } else {
        add_bits(a, b)
    }
}

/// The canonical difference.
pub open spec fn sub_canon(a: u64, b: u64) -> u64 {
    if sub_nan(a, b) {
        QNAN_BITS
    } else {
        sub_bits(a, b)
    }
}

/// The canonical product.
pub open spec fn mul_canon(a: u64, b: u64) -> u64 {
    if mul_nan(a, b) {
        QNAN_BITS
    } else {
        mul_bits(a, b)
    }
}

/// The canonical quotient.
pub open spec fn div_canon(a: u64, b: u64) -> u64 {
    if div_nan(a, b) {
        QNAN_BITS
    } else {
        div_bits(a, b)
    }
}

/// The canonical square root.
pub open spec fn sqrt_canon(a: u64) -> u64 {
    if sqrt_nan(a) {
        QNAN_BITS
    } else {
        sqrt_bits(a)
    }
}

/// Relies on `+` for doubles: whether the sum is a NaN, and the bits of a
/// sum that is a number, are determined by the operands (the payload bits
/// of a NaN sum are not, and are not claimed); a NaN operand gives a NaN
/// sum; two non-negative numbers (infinities included) give a non-negative
/// number.
#[verifier::external_body]
fn raw_add(a: u64, b: u64) -> (r: u64)
    ensures
        nan_bits(r) == add_nan(a, b),
        !nan_bits(r) ==> r == add_bits(a, b),
        !numeric(a) || !numeric(b) ==> nan_bits(r),
        numeric(a) && numeric(b) && le_bits(POS_ZERO_BITS, a) && le_bits(POS_ZERO_BITS, b)
            ==> !nan_bits(r) && le_bits(POS_ZERO_BITS, r),
{
    (<<geo_types::Coord as rstar::Point>::Scalar>::from_bits(a)
        + <<geo_types::Coord as rstar::Point>::Scalar>::from_bits(b)).to_bits()
}

/// Relies on `-` for doubles: NaN-ness and non-NaN bits are determined by
/// the operands (NaN payload bits are not claimed); a NaN operand gives a
/// NaN difference; subtracting a number from one at least as large gives a
/// NaN (only for equal infinities) or a non-negative number.
#[verifier::external_body]
fn raw_sub(a: u64, b: u64) -> (r: u64)
    ensures
        nan_bits(r) == sub_nan(a, b),
        !nan_bits(r) ==> r == sub_bits(a, b),
        !numeric(a) || !numeric(b) ==> nan_bits(r),
        numeric(a) && numeric(b) && le_bits(b, a) ==> nan_bits(r) || le_bits(POS_ZERO_BITS, r),
{
    (<<geo_types::Coord as rstar::Point>::Scalar>::from_bits(a)
        - <<geo_types::Coord as rstar::Point>::Scalar>::from_bits(b)).to_bits()
}

/// Relies on `*` for doubles: NaN-ness and non-NaN bits are determined by
/// the operands (NaN payload bits are not claimed); a NaN operand gives a
/// NaN product.
#[verifier::external_body]
fn raw_mul(a: u64, b: u64) -> (r: u64)
    ensures
        nan_bits(r) == mul_nan(a, b),
        !nan_bits(r) ==> r == mul_bits(a, b),
        !numeric(a) || !numeric(b) ==> nan_bits(r),
{
    (<<geo_types::Coord as rstar::Point>::Scalar>::from_bits(a)
        * <<geo_types::Coord as rstar::Point>::Scalar>::from_bits(b)).to_bits()
}

/// Relies on `/` for doubles: NaN-ness and non-NaN bits are determined by
/// the operands (NaN payload bits are not claimed); a NaN operand gives a
/// NaN quotient.  Division by zero yields an infinity or a NaN, never a
/// panic.
#[verifier::external_body]
fn raw_div(a: u64, b: u64) -> (r: u64)
    ensures
        nan_bits(r) == div_nan(a, b),
        !nan_bits(r) ==> r == div_bits(a, b),
        !numeric(a) || !numeric(b) ==> nan_bits(r),
{
    (<<geo_types::Coord as rstar::Point>::Scalar>::from_bits(a)
        / <<geo_types::Coord as rstar::Point>::Scalar>::from_bits(b)).to_bits()
}

/// Relies on `sqrt`: NaN-ness and non-NaN bits are determined by the
/// operand (NaN payload bits are not claimed); a NaN operand gives a NaN
/// root; the result is always a NaN or at least +0.
#[verifier::external_body]
fn raw_sqrt(a: u64) -> (r: u64)
    ensures
        nan_bits(r) == sqrt_nan(a),
        !nan_bits(r) ==> r == sqrt_bits(a),
        !numeric(a) ==> nan_bits(r),
        nan_bits(r) || le_bits(POS_ZERO_BITS, r),
{
    <<geo_types::Coord as rstar::Point>::Scalar>::from_bits(a).sqrt().to_bits()
}

/// Relies on `abs`: the absolute value, exact in IEEE arithmetic (the sign
/// bit is cleared, the payload kept).
#[verifier::external_body]
pub(crate) fn fabs(a: u64) -> (r: u64)
    ensures
        r == abs_bits(a),
{
    <<geo_types::Coord as rstar::Point>::Scalar>::from_bits(a).abs().to_bits()
}

/// Relies on `is_nan`.  A double that is not a NaN compares `<=` with
/// itself, and the canonical quiet NaN pattern is a NaN.
#[verifier::external_body]
pub(crate) fn fnan(a: u64) -> (r: bool)
    ensures
        r == nan_bits(a),
        !r ==> le_bits(a, a),
        a == QNAN_BITS ==> r,
{
    <<geo_types::Coord as rstar::Point>::Scalar>::from_bits(a).is_nan()
}

/// Relies on `<=` for doubles: the IEEE comparison, which on numbers
/// (non-NaN values) is the order of the represented reals.
#[verifier::external_body]
pub(crate) fn fle(a: u64, b: u64) -> (r: bool)
    ensures
        r == le_bits(a, b),
{
    <<geo_types::Coord as rstar::Point>::Scalar>::from_bits(a)
        <= <<geo_types::Coord as rstar::Point>::Scalar>::from_bits(b)
}

/// Relies on `<` for doubles: the IEEE comparison.  On numbers (non-NaN
/// values) it is the order of the represented reals, so it is the negation
/// of `<=` with the operands swapped, and it chains with `<=` on either
/// side.  No double is `<` itself.
#[verifier::external_body]
pub(crate) fn flt(a: u64, b: u64) -> (r: bool)
    ensures
        r == lt_bits(a, b),
        a == b ==> !r,
        numeric(a) && numeric(b) ==> (r <==> !le_bits(b, a)),
        forall|z: u64|
            r && numeric(a) && numeric(b) && numeric(z) && #[trigger] le_bits(b, z) ==> le_bits(
                a,
                z,
            ),
        forall|z: u64|
            r && numeric(a) && numeric(b) && numeric(z) && #[trigger] le_bits(z, a) ==> le_bits(
                z,
                b,
            ),
{
    <<geo_types::Coord as rstar::Point>::Scalar>::from_bits(a)
        < <<geo_types::Coord as rstar::Point>::Scalar>::from_bits(b)
}

/// IEEE equality of two doubles.
pub(crate) fn feq(a: u64, b: u64) -> (r: bool)
    ensures
        r == eq_bits(a, b),
{
    fle(a, b) && fle(b, a)
}

/// Addition with NaN results canonicalized.
pub(crate) fn fadd(a: u64, b: u64) -> (r: u64)
    ensures
        r == add_canon(a, b),
        nan_bits(a) || nan_bits(b) ==> nan_bits(r),
        numeric(a) && numeric(b) && le_bits(POS_ZERO_BITS, a) && le_bits(POS_ZERO_BITS, b)
            ==> numeric(r) && le_bits(POS_ZERO_BITS, r),
{
    let raw = raw_add(a, b);
    if fnan(raw) {
        let q = QNAN_BITS;
        let _nq = fnan(q);
        q
    } else {
        raw
    }
}

/// Subtraction with NaN results canonicalized.
pub(crate) fn fsub(a: u64, b: u64) -> (r: u64)
    ensures
        r == sub_canon(a, b),
        nan_bits(a) || nan_bits(b) ==> nan_bits(r),
        numeric(a) && numeric(b) && le_bits(b, a) ==> nan_bits(r) || le_bits(POS_ZERO_BITS, r),
{
    let raw = raw_sub(a, b);
    if fnan(raw) {
        let q = QNAN_BITS;
        let _nq = fnan(q);
        q
    } else {
        raw
    }
}

/// Multiplication with NaN results canonicalized.
pub(crate) fn fmul(a: u64, b: u64) -> (r: u64)
    ensures
        r == mul_canon(a, b),
        nan_bits(a) || nan_bits(b) ==> nan_bits(r),
{
    let raw = raw_mul(a, b);
    if fnan(raw) {
        let q = QNAN_BITS;
        let _nq = fnan(q);
        q
    } else {
        raw
    }
}

/// Division with NaN results canonicalized.
pub(crate) fn fdiv(a: u64, b: u64) -> (r: u64)
    ensures
        r == div_canon(a, b),
        nan_bits(a) || nan_bits(b) ==> nan_bits(r),
{
    let raw = raw_div(a, b);
    if fnan(raw) {
        let q = QNAN_BITS;
        let _nq = fnan(q);
        q
    } else {
        raw
    }
}

/// Square root with NaN results canonicalized.
pub(crate) fn fsqrt(a: u64) -> (r: u64)
    ensures
        r == sqrt_canon(a),
        nan_bits(a) ==> nan_bits(r),
        nan_bits(r) || le_bits(POS_ZERO_BITS, r),
{
    let raw = raw_sqrt(a);
    if fnan(raw) {
        let q = QNAN_BITS;
        let _nq = fnan(q);
        q
    } else {
        raw
    }
}

} // verus!
