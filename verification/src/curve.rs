//! The pairing groups that the tree encryption computes in: the curve
//! BLS12-381, with its groups written additively.
//!
//! Nothing here is proved. A group element is a value that is carried through;
//! what an operation returns has a name, and the contracts of the callers are
//! stated over these names.
use bls12_381::{G1Affine, G2Affine, G2Projective, Gt, Scalar};
use group::ff::Field;
use group::Group;
use rand::rngs::ThreadRng;
use vstd::prelude::*;

verus! {

/// `bls12_381::Scalar`: an element of the field of scalars.
#[verifier::external_type_specification]
#[verifier::external_body]
pub struct ExScalar(Scalar);

/// `bls12_381::G1Affine`: an element of the first group.
#[verifier::external_type_specification]
#[verifier::external_body]
pub struct ExG1Affine(G1Affine);

/// `bls12_381::G2Affine`: an element of the second group.
#[verifier::external_type_specification]
#[verifier::external_body]
pub struct ExG2Affine(G2Affine);

/// `bls12_381::Gt`: an element of the target group.
#[verifier::external_type_specification]
#[verifier::external_body]
pub struct ExGt(Gt);

/// `rand::rngs::ThreadRng`: the generator that all randomness is drawn from.
#[verifier::external_type_specification]
#[verifier::external_body]
pub struct ExThreadRng(ThreadRng);

/// Whether the coordinates of an element of the first group lie on the
/// curve.
pub uninterp spec fn g1_on_curve(p: G1Affine) -> bool;

/// Whether an element of the first group has no part outside the subgroup of
/// prime order.
pub uninterp spec fn g1_torsion_free(p: G1Affine) -> bool;

/// Whether the coordinates of an element of the second group lie on the
/// curve.
pub uninterp spec fn g2_on_curve(p: G2Affine) -> bool;

/// Whether an element of the second group has no part outside the subgroup
/// of prime order.
pub uninterp spec fn g2_torsion_free(p: G2Affine) -> bool;

/// The value is an element of the first group: a point of the curve, in the
/// subgroup of prime order. Every value is, but one made by a function that
/// does not test its input.
pub open spec fn g1_valid(p: G1Affine) -> bool {
    g1_on_curve(p) && g1_torsion_free(p)
}

/// The value is an element of the second group: a point of the curve, in the
/// subgroup of prime order. Every value is, but one made by a function that
/// does not test its input.
pub open spec fn g2_valid(p: G2Affine) -> bool {
    g2_on_curve(p) && g2_torsion_free(p)
}

/// The multiple `s * p` of an element of the first group.
pub uninterp spec fn g1_product(p: G1Affine, s: Scalar) -> G1Affine;

/// The multiple `s * p` of an element of the second group.
pub uninterp spec fn g2_product(p: G2Affine, s: Scalar) -> G2Affine;

/// The sum `p + q` of two elements of the second group.
pub uninterp spec fn g2_sum(p: G2Affine, q: G2Affine) -> G2Affine;

/// The pairing `e(p, q)`.
pub uninterp spec fn pairing_value(p: G1Affine, q: G2Affine) -> Gt;

/// The sum `a + b` of two elements of the target group.
pub uninterp spec fn gt_sum(a: Gt, b: Gt) -> Gt;

/// The difference `a - b` of two elements of the target group.
pub uninterp spec fn gt_difference(a: Gt, b: Gt) -> Gt;

/// `G1Affine::is_on_curve`.
#[verifier::external_body]
pub(crate) fn g1_is_on_curve(p: &G1Affine) -> (r: bool)
    ensures
        r == g1_on_curve(*p),
{
    bool::from(p.is_on_curve())
}

/// `G1Affine::is_torsion_free`.
#[verifier::external_body]
pub(crate) fn g1_is_torsion_free(p: &G1Affine) -> (r: bool)
    ensures
        r == g1_torsion_free(*p),
{
    bool::from(p.is_torsion_free())
}

/// `G2Affine::is_on_curve`.
#[verifier::external_body]
pub(crate) fn g2_is_on_curve(p: &G2Affine) -> (r: bool)
    ensures
        r == g2_on_curve(*p),
{
    bool::from(p.is_on_curve())
}

/// `G2Affine::is_torsion_free`.
#[verifier::external_body]
pub(crate) fn g2_is_torsion_free(p: &G2Affine) -> (r: bool)
    ensures
        r == g2_torsion_free(*p),
{
    bool::from(p.is_torsion_free())
}

/// `Scalar::random`: a scalar drawn from the generator. Nothing is known of
/// it.
#[verifier::external_body]
pub(crate) fn random_scalar(rng: &mut ThreadRng) -> Scalar {
    Scalar::random(rng)
}

/// `G2Projective::random`, brought to affine form: an element of the second
/// group drawn from the generator. It is a point of the subgroup of prime
/// order; nothing else is known of it.
#[verifier::external_body]
pub(crate) fn random_g2(rng: &mut ThreadRng) -> (r: G2Affine)
    ensures
        g2_valid(r),
{
    G2Affine::from(G2Projective::random(rng))
}

/// `Gt::random`: an element of the target group drawn from the generator.
/// Nothing is known of it.
#[verifier::external_body]
pub(crate) fn random_gt(rng: &mut ThreadRng) -> Gt {
    Gt::random(rng)
}

/// `G1Affine::generator`: the fixed generator of the first group, which is a
/// point of the subgroup of prime order.
#[verifier::external_body]
pub(crate) fn g1_generator() -> (r: G1Affine)
    ensures
        g1_valid(r),
{
    G1Affine::generator()
}

/// `&G1Affine * &Scalar`, brought back to affine form by `G1Affine::from`:
/// the multiple of the element, which depends on the two arguments alone,
/// and lies in the subgroup of prime order where the element does.
#[verifier::external_body]
pub(crate) fn g1_mul(p: &G1Affine, s: &Scalar) -> (r: G1Affine)
    ensures
        r == g1_product(*p, *s),
        g1_valid(*p) ==> g1_valid(r),
{
    G1Affine::from(p * s)
}

/// `&G2Affine * &Scalar`, brought back to affine form by `G2Affine::from`:
/// the multiple of the element, which depends on the two arguments alone,
/// and lies in the subgroup of prime order where the element does.
#[verifier::external_body]
pub(crate) fn g2_mul(p: &G2Affine, s: &Scalar) -> (r: G2Affine)
    ensures
        r == g2_product(*p, *s),
        g2_valid(*p) ==> g2_valid(r),
{
    G2Affine::from(p * s)
}

/// `G2Projective + &G2Affine` on the projective form of the first element,
/// brought back to affine form by `G2Affine::from`: the sum of the two
/// elements, which depends on them alone, and lies in the subgroup of prime
/// order where both do.
#[verifier::external_body]
pub(crate) fn g2_add(p: &G2Affine, q: &G2Affine) -> (r: G2Affine)
    ensures
        r == g2_sum(*p, *q),
        g2_valid(*p) && g2_valid(*q) ==> g2_valid(r),
{
    G2Affine::from(G2Projective::from(p) + q)
}

/// `bls12_381::pairing`: the pairing of the two elements, which depends on
/// them alone. On coordinates that are no point of the subgroups of prime
/// order the call can panic, which `requires` leaves out.
#[verifier::external_body]
pub(crate) fn pairing(p: &G1Affine, q: &G2Affine) -> (r: Gt)
    requires
        g1_valid(*p),
        g2_valid(*q),
    ensures
        r == pairing_value(*p, *q),
{
    bls12_381::pairing(p, q)
}

/// `&Gt + &Gt`: the sum of the two elements, which depends on them alone.
#[verifier::external_body]
pub(crate) fn gt_add(a: &Gt, b: &Gt) -> (r: Gt)
    ensures
        r == gt_sum(*a, *b),
{
    a + b
}

/// `&Gt - &Gt`: the difference of the two elements, which depends on them
/// alone.
#[verifier::external_body]
pub(crate) fn gt_sub(a: &Gt, b: &Gt) -> (r: Gt)
    ensures
        r == gt_difference(*a, *b),
{
    a - b
}

} // verus!
