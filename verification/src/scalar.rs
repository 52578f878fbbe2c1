//! Complex amplitudes and the arithmetic that `num_complex` performs on them.
//!
//! The verifier treats an amplitude as an opaque value. Each operation is
//! performed by `num_complex` (the square root by std) and its outcome is
//! given a name, so that contracts elsewhere can say exactly which amplitudes
//! were combined and in what order without saying anything about rounding.
//!
//! A name stands for the outcome that IEEE 754 arithmetic fixes for the
//! operands. Where the outcome is not a number, the standard leaves its sign
//! and payload open, and so does the name.

use num_complex::Complex;
use num_complex::Complex64;
use vstd::prelude::*;

verus! {

/// Trusted: the complex number of `num_complex`, declared so that it can be
/// carried through verified code. Nothing inside a value is visible.
#[verifier::external_type_specification]
#[verifier::external_body]
#[verifier::reject_recursive_types(T)]
pub struct ExComplex<T>(Complex<T>);

/// The amplitude with the given integer real and imaginary parts.
pub uninterp spec fn complex_of_ints(re: int, im: int) -> Complex64;

/// The sum of two amplitudes as `num_complex` computes it.
pub uninterp spec fn complex_sum(a: Complex64, b: Complex64) -> Complex64;

/// The product of two amplitudes as `num_complex` computes it.
pub uninterp spec fn complex_product(a: Complex64, b: Complex64) -> Complex64;

/// The complex conjugate of an amplitude.
pub uninterp spec fn complex_conj(a: Complex64) -> Complex64;

/// The square root of the real part of an amplitude, as an amplitude
/// without imaginary part.
pub uninterp spec fn real_sqrt(a: Complex64) -> Complex64;

/// The reciprocal of an amplitude as `num_complex` computes it.
pub uninterp spec fn complex_inv(a: Complex64) -> Complex64;

/// Whether two amplitudes are equal as `num_complex` compares them: part by
/// part, as numbers.
pub uninterp spec fn complex_equal(a: Complex64, b: Complex64) -> bool;

/// The amplitude zero.
pub open spec fn zero() -> Complex64 {
    complex_of_ints(0, 0)
}

/// The amplitude one.
pub open spec fn one() -> Complex64 {
    complex_of_ints(1, 0)
}

/// The amplitude minus one.
pub open spec fn minus_one() -> Complex64 {
    complex_of_ints(-1, 0)
}

/// Trusted: `Complex::new` on the two integers, each converted without loss.
/// The contract only names the value built.
#[verifier::external_body]
pub(crate) fn amp_of_ints(re: i32, im: i32) -> (r: Complex64)
    ensures
        r == complex_of_ints(re as int, im as int),
{
    Complex64::new(re.into(), im.into())
}

/// Trusted: `Add::add` of `Complex`, which adds the parts. The contract only
/// names the sum.
#[verifier::external_body]
pub(crate) fn amp_add(a: Complex64, b: Complex64) -> (r: Complex64)
    ensures
        r == complex_sum(a, b),
{
    a + b
}

/// Trusted: `Mul::mul` of `Complex`. The contract only names the product.
#[verifier::external_body]
pub(crate) fn amp_mul(a: Complex64, b: Complex64) -> (r: Complex64)
    ensures
        r == complex_product(a, b),
{
    a * b
}

/// Trusted: `Complex::conj`, which negates the imaginary part. The contract
/// only names the conjugate.
#[verifier::external_body]
pub(crate) fn amp_conj(a: Complex64) -> (r: Complex64)
    ensures
        r == complex_conj(a),
{
    a.conj()
}

/// Trusted: `sqrt` of std on the real part, which is the correctly rounded
/// square root; the imaginary part is not looked at. The contract only names
/// the root.
#[verifier::external_body]
pub(crate) fn amp_real_sqrt(a: Complex64) -> (r: Complex64)
    ensures
        r == real_sqrt(a),
{
    Complex64::from(a.re.sqrt())
}

/// Trusted: `Complex::inv`, the conjugate divided by the squared norm. The
/// contract only names the reciprocal.
#[verifier::external_body]
pub(crate) fn amp_inv(a: Complex64) -> (r: Complex64)
    ensures
        r == complex_inv(a),
{
    a.inv()
}

/// Trusted: `PartialEq::eq` of `Complex`, which compares the real parts and
/// the imaginary parts. The contract only names the answer.
#[verifier::external_body]
pub(crate) fn amp_eq(a: Complex64, b: Complex64) -> (r: bool)
    ensures
        r == complex_equal(a, b),
{
    a == b
}

} // verus!
