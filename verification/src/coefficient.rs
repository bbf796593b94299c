//! Trusted boundary around the coefficient type.
//!
//! Coefficients are `qoqo_calculator::CalculatorComplex` values: complex
//! numbers whose real and imaginary parts are either floating-point numbers
//! or symbolic expressions. The library treats them as opaque values with
//! addition, multiplication, negation, conjugation and an exact-zero test;
//! each operation's result is named by an uninterpreted spec function, since
//! the numeric-or-symbolic case analysis is the outside crate's business.

use vstd::prelude::*;

verus! {

#[verifier::external_type_specification]
#[verifier::external_body]
pub struct ExCalculatorComplex(qoqo_calculator::CalculatorComplex);

#[verifier::external_type_specification]
#[verifier::external_body]
pub struct ExCalculatorFloat(qoqo_calculator::CalculatorFloat);

/// The value of `a + b` on coefficients.
pub uninterp spec fn cc_add(a: qoqo_calculator::CalculatorComplex, b: qoqo_calculator::CalculatorComplex) -> qoqo_calculator::CalculatorComplex;

/// The value of `a * b` on coefficients.
pub uninterp spec fn cc_mul(a: qoqo_calculator::CalculatorComplex, b: qoqo_calculator::CalculatorComplex) -> qoqo_calculator::CalculatorComplex;

/// The value of `-a` on coefficients.
pub uninterp spec fn cc_neg(a: qoqo_calculator::CalculatorComplex) -> qoqo_calculator::CalculatorComplex;

/// The complex conjugate of a coefficient.
pub uninterp spec fn cc_conj(a: qoqo_calculator::CalculatorComplex) -> qoqo_calculator::CalculatorComplex;

/// Whether a coefficient is exactly the zero value: both parts compare equal
/// to the floating-point zero. A symbolic part is never exactly zero.
pub uninterp spec fn cc_is_zero(a: qoqo_calculator::CalculatorComplex) -> bool;

/// The coefficient with the given real part and zero imaginary part.
pub uninterp spec fn cc_of_float(f: qoqo_calculator::CalculatorFloat) -> qoqo_calculator::CalculatorComplex;

/// The display text of a coefficient, `(<re> + i * <im>)`.
pub uninterp spec fn cc_text(a: qoqo_calculator::CalculatorComplex) -> Seq<char>;

/// Relies on `CalculatorComplex::ZERO`: the constant with both parts equal
/// to the floating-point zero, which the exact-zero test accepts.
#[verifier::external_body]
pub fn cc_zero_exec() -> (r: qoqo_calculator::CalculatorComplex)
    ensures
        cc_is_zero(r),
{
    qoqo_calculator::CalculatorComplex::ZERO
}

/// Relies on the derived `PartialEq` of `CalculatorComplex`: comparison with
/// the zero constant is the exact-zero test, true only when both parts are
/// floating-point zeros.
#[verifier::external_body]
pub fn cc_is_zero_exec(a: &qoqo_calculator::CalculatorComplex) -> (r: bool)
    ensures
        r == cc_is_zero(*a),
{
    *a == qoqo_calculator::CalculatorComplex::ZERO
}

/// Relies on the derived `Clone` of `CalculatorComplex`: the clone carries
/// the same parts as the original.
pub assume_specification[ <qoqo_calculator::CalculatorComplex as Clone>::clone ](
    a: &qoqo_calculator::CalculatorComplex,
) -> (r: qoqo_calculator::CalculatorComplex)
    ensures
        r == *a,
;

/// Relies on `CalculatorComplex`'s `Add`: part-wise addition, numeric where
/// both parts are numbers and symbolic otherwise.
#[verifier::external_body]
pub fn cc_add_exec(a: &qoqo_calculator::CalculatorComplex, b: &qoqo_calculator::CalculatorComplex) -> (r:
    qoqo_calculator::CalculatorComplex)
    ensures
        r == cc_add(*a, *b),
{
    a.clone() + b.clone()
}

/// Relies on `CalculatorComplex`'s `Mul`: the complex product of the two
/// values, numeric where all parts are numbers and symbolic otherwise.
#[verifier::external_body]
pub fn cc_mul_exec(a: &qoqo_calculator::CalculatorComplex, b: &qoqo_calculator::CalculatorComplex) -> (r:
    qoqo_calculator::CalculatorComplex)
    ensures
        r == cc_mul(*a, *b),
{
    a.clone() * b.clone()
}

/// Relies on `CalculatorComplex`'s `Neg`: both parts are negated. A numeric
/// part that does not compare equal to zero stays that way when negated, and
/// a symbolic part stays symbolic, so negation preserves being non-zero.
#[verifier::external_body]
pub fn cc_neg_exec(a: &qoqo_calculator::CalculatorComplex) -> (r: qoqo_calculator::CalculatorComplex)
    ensures
        r == cc_neg(*a),
        !cc_is_zero(*a) ==> !cc_is_zero(r),
{
    -a.clone()
}

/// Relies on `CalculatorComplex::conj`: the real part is kept and the
/// imaginary part negated, which likewise preserves being non-zero.
#[verifier::external_body]
pub fn cc_conj_exec(a: &qoqo_calculator::CalculatorComplex) -> (r: qoqo_calculator::CalculatorComplex)
    ensures
        r == cc_conj(*a),
        !cc_is_zero(*a) ==> !cc_is_zero(r),
{
    a.conj()
}

/// Relies on `CalculatorComplex`'s `From<CalculatorFloat>`: the argument
/// becomes the real part and the imaginary part is the floating-point zero.
#[verifier::external_body]
pub fn cc_of_float_exec(f: qoqo_calculator::CalculatorFloat) -> (r: qoqo_calculator::CalculatorComplex)
    ensures
        r == cc_of_float(f),
{
    qoqo_calculator::CalculatorComplex::from(f)
}

/// Relies on `CalculatorComplex`'s `Display`: the text `(<re> + i * <im>)`,
/// a function of the two parts alone.
#[verifier::external_body]
pub fn cc_text_exec(a: &qoqo_calculator::CalculatorComplex) -> (r: String)
    ensures
        r@ == cc_text(*a),
{
    format!("{}", a)
}

} // verus!
