//! Adapter for the pairing-friendly curve library: the scalar field Fr and
//! the pairing groups G1, G2 and Gt, with their arithmetic taken on trust.
//!
//! The elements themselves are opaque here. Each deterministic operation of
//! the curve library is given a name, and the trusted specifications below
//! say that the operation returns the named value of its arguments; every
//! contract of the protocol speaks of those names.
use vstd::prelude::*;

verus! {

#[verifier::external_type_specification]
#[verifier::external_body]
pub struct ExFr(rabe_bn::Fr);

#[verifier::external_type_specification]
#[verifier::external_body]
pub struct ExG1(rabe_bn::G1);

#[verifier::external_type_specification]
#[verifier::external_body]
pub struct ExG2(rabe_bn::G2);

#[verifier::external_type_specification]
#[verifier::external_body]
pub struct ExGt(rabe_bn::Gt);

/// The difference of two scalars in the field of order r.
pub uninterp spec fn fr_sub(a: rabe_bn::Fr, b: rabe_bn::Fr) -> rabe_bn::Fr;

/// The product of two scalars in the field of order r.
pub uninterp spec fn fr_mul(a: rabe_bn::Fr, b: rabe_bn::Fr) -> rabe_bn::Fr;

/// The multiplicative inverse of a scalar; `None` exactly when the
/// scalar has none, that is for the zero of the field.
pub uninterp spec fn fr_inverse(a: rabe_bn::Fr) -> Option<rabe_bn::Fr>;

/// The scalar multiple of a G1 element.
pub uninterp spec fn g1_mul(p: rabe_bn::G1, k: rabe_bn::Fr) -> rabe_bn::G1;

/// The scalar multiple of a G2 element.
pub uninterp spec fn g2_mul(p: rabe_bn::G2, k: rabe_bn::Fr) -> rabe_bn::G2;

/// The product of two Gt elements.
pub uninterp spec fn gt_mul(a: rabe_bn::Gt, b: rabe_bn::Gt) -> rabe_bn::Gt;

/// A Gt element raised to a scalar exponent.
pub uninterp spec fn gt_pow(a: rabe_bn::Gt, k: rabe_bn::Fr) -> rabe_bn::Gt;

/// The inverse of a Gt element of the order-r pairing subgroup.
pub uninterp spec fn gt_inv(a: rabe_bn::Gt) -> rabe_bn::Gt;

/// The canonical byte serialization of a Gt element.
pub uninterp spec fn gt_bytes(a: rabe_bn::Gt) -> Seq<u8>;

/// The bilinear pairing e: G1 x G2 -> Gt.
pub uninterp spec fn pair_of(p: rabe_bn::G1, q: rabe_bn::G2) -> rabe_bn::Gt;

/// Relies on the curve library's subtraction of field elements.
#[verifier::external_body]
pub(crate) fn fr_diff(a: rabe_bn::Fr, b: rabe_bn::Fr) -> (r: rabe_bn::Fr)
    ensures
        r == fr_sub(a, b),
{
    a - b
}

/// Relies on the curve library's multiplication of field elements.
#[verifier::external_body]
pub(crate) fn fr_prod(a: rabe_bn::Fr, b: rabe_bn::Fr) -> (r: rabe_bn::Fr)
    ensures
        r == fr_mul(a, b),
{
    a * b
}

/// Relies on `Fr::inverse`: the inverse of a field element, or `None`
/// for the zero element.
pub assume_specification[ rabe_bn::Fr::inverse ](a: &rabe_bn::Fr) -> (r: Option<rabe_bn::Fr>)
    ensures
        r == fr_inverse(*a),
;

/// Relies on the curve library's scalar multiplication in G1.
#[verifier::external_body]
pub(crate) fn g1_scale(p: rabe_bn::G1, k: rabe_bn::Fr) -> (r: rabe_bn::G1)
    ensures
        r == g1_mul(p, k),
{
    p * k
}

/// Relies on the curve library's scalar multiplication in G2.
#[verifier::external_body]
pub(crate) fn g2_scale(p: rabe_bn::G2, k: rabe_bn::Fr) -> (r: rabe_bn::G2)
    ensures
        r == g2_mul(p, k),
{
    p * k
}

/// Relies on the curve library's multiplication in Gt.
#[verifier::external_body]
pub(crate) fn gt_prod(a: rabe_bn::Gt, b: rabe_bn::Gt) -> (r: rabe_bn::Gt)
    ensures
        r == gt_mul(a, b),
{
    a * b
}

/// Relies on `Gt::pow`: exponentiation by a scalar.
pub assume_specification[ rabe_bn::Gt::pow ](a: &rabe_bn::Gt, exp: rabe_bn::Fr) -> (r: rabe_bn::Gt)
    ensures
        r == gt_pow(*a, exp),
;

/// Relies on `Gt::into_bytes`: the canonical serialization, a function
/// of the element alone.
pub assume_specification[ rabe_bn::Gt::into_bytes ](a: &rabe_bn::Gt) -> (r: Vec<u8>)
    ensures
        r@ == gt_bytes(*a),
;

/// Relies on `rabe_bn::pairing`: the bilinear map, a function of the
/// two points alone.
pub assume_specification[ rabe_bn::pairing ](p: rabe_bn::G1, q: rabe_bn::G2) -> (r: rabe_bn::Gt)
    ensures
        r == pair_of(p, q),
;

/// Relies on `Gt::pow` with the exponent that represents -1 in the scalar
/// field: on the order-r pairing subgroup, where every protocol value
/// lives, this is the multiplicative inverse. `Gt::inverse` is not used
/// because it panics on the zero of the underlying extension field.
#[verifier::external_body]
pub(crate) fn gt_invert(a: &rabe_bn::Gt) -> (r: rabe_bn::Gt)
    ensures
        r == gt_inv(*a),
{
    a.pow(rabe_bn::Fr::zero() - rabe_bn::Fr::one())
}

/// Relies on `thread_rng` and the curve library's `Distribution` of
/// uniformly random field elements. Nothing is promised of the result.
#[verifier::external_body]
pub(crate) fn sample_fr() -> rabe_bn::Fr {
    rand::Rng::gen(&mut rand::thread_rng())
}

} // verus!
