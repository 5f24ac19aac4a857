use super::super::data::field::{field_add, field_mul, field_sub, modulus, FieldElement};
use ark_ff::{BigInt, PrimeField};
use ark_poly::univariate::DensePolynomial;
use ark_poly::{DenseUVPolynomial, Polynomial};
use ark_test_curves::bls12_381::Fr;
use vstd::arithmetic::div_mod::{lemma_add_mod_noop, lemma_mul_mod_noop_left, lemma_small_mod};
use vstd::prelude::*;

verus! {

/// The value at `x` of the polynomial whose coefficient of the `i`-th
/// power is `coeffs[i]`, in the field.
pub open spec fn eval(coeffs: Seq<FieldElement>, x: nat) -> nat
    decreases coeffs.len(),
{
    if coeffs.len() == 0 {
        0
    } else {
        field_add(coeffs[0]@, field_mul(x, eval(coeffs.drop_first(), x)))
    }
}

/// Whether every coefficient is a residue below the modulus.
pub open spec fn all_wf(coeffs: Seq<FieldElement>) -> bool {
    forall|i: int| 0 <= i < coeffs.len() ==> (#[trigger] coeffs[i]).wf()
}

/// The value of a polynomial of degree one.
pub proof fn lemma_eval_linear(c0: FieldElement, c1: FieldElement, x: nat)
    requires
        c1.wf(),
    ensures
        eval(seq![c0, c1], x) == field_add(c0@, field_mul(x, c1@)),
{
    let both = seq![c0, c1];
    let upper = both.drop_first();
    assert(upper =~= seq![c1]);
    assert(upper.drop_first() =~= Seq::<FieldElement>::empty());
    assert(eval(upper.drop_first(), x) == 0);
    assert(field_mul(x, 0) == 0) by {
        assert(x * 0 == 0);
    }
    assert(eval(upper, x) == c1@) by {
        lemma_small_mod(c1@, modulus());
    }
}

/// The value of the constant polynomial one.
pub proof fn lemma_eval_one(one: FieldElement, x: nat)
    requires
        one@ == 1,
    ensures
        eval(seq![one], x) == 1,
{
    let s = seq![one];
    assert(s.drop_first() =~= Seq::<FieldElement>::empty());
    assert(eval(s.drop_first(), x) == 0);
    assert(x * 0 == 0);
    assert(field_mul(x, 0) == 0);
    assert(s[0]@ == 1);
    lemma_small_mod(1, modulus());
}

/// The linear factor that Lagrange's basis takes for the key `xj`, with
/// `inv` in the place of the inverse of the difference of two keys: its
/// value at `x` is `(x - xj) * inv`.
pub proof fn lemma_factor_value(xj: nat, inv: nat, x: nat)
    requires
        xj < modulus(),
        inv < modulus(),
    ensures
        field_add(field_mul(field_sub(0, xj), inv), field_mul(x, inv)) == field_mul(
            field_sub(x, xj),
            inv,
        ),
{
    let p = modulus() as int;
    let neg = (p - xj) as int;
    let a = neg * inv;
    let b = (x * inv) as int;
    lemma_mul_mod_noop_left(neg, inv as int, p);
    assert(field_mul(field_sub(0, xj), inv) == a % p);
    lemma_add_mod_noop(a, b, p);
    assert(neg * inv + x * inv == (x + p - xj) * inv) by (nonlinear_arith)
        requires
            neg == p - xj,
    ;
    lemma_mul_mod_noop_left(x + p - xj, inv as int, p);
}

/// The product of two polynomials, by `DensePolynomial`'s `*`: it takes at
/// every point the product of their values, and, where it is not zero, has
/// one coefficient less than the two together, or fewer. `ark_poly`
/// multiplies over an evaluation domain with a point for each coefficient of
/// the product, and panics where the field has none that large; this field
/// has one up to 2 to the 32.
#[verifier::external_body]
pub(crate) fn poly_mul(a: &Vec<FieldElement>, b: &Vec<FieldElement>) -> (r: Vec<FieldElement>)
    requires
        a@.len() + b@.len() <= 0x1_0000_0000,
    ensures
        all_wf(r@),
        r@.len() == 0 || r@.len() < a@.len() + b@.len(),
        forall|x: nat| #[trigger] eval(r@, x) == field_mul(eval(a@, x), eval(b@, x)),
{
    let pa = DensePolynomial::from_coefficients_vec(
        a.iter().map(|c| Fr::from_bigint(BigInt::new(c.limbs)).unwrap()).collect(),
    );
    let pb = DensePolynomial::from_coefficients_vec(
        b.iter().map(|c| Fr::from_bigint(BigInt::new(c.limbs)).unwrap()).collect(),
    );
    (&pa * &pb).coeffs.iter().map(|c| FieldElement { limbs: c.into_bigint().0 }).collect()
}

/// The polynomial times a field element, by `DensePolynomial`'s `*` with an
/// element: it takes at every point the value of the polynomial times the
/// element.
#[verifier::external_body]
pub(crate) fn poly_scale(a: &Vec<FieldElement>, c: &FieldElement) -> (r: Vec<FieldElement>)
    ensures
        all_wf(r@),
        r@.len() <= a@.len(),
        forall|x: nat| #[trigger] eval(r@, x) == field_mul(eval(a@, x), c@),
{
    let pa = DensePolynomial::from_coefficients_vec(
        a.iter().map(|c| Fr::from_bigint(BigInt::new(c.limbs)).unwrap()).collect(),
    );
    let e = Fr::from_bigint(BigInt::new(c.limbs)).unwrap();
    (&pa * e).coeffs.iter().map(|c| FieldElement { limbs: c.into_bigint().0 }).collect()
}

/// The sum of two polynomials, by `DensePolynomial`'s `+`: it takes at
/// every point the sum of their values, has no more coefficients than the
/// longer of the two, and its last coefficient is not zero.
#[verifier::external_body]
pub(crate) fn poly_add(a: &Vec<FieldElement>, b: &Vec<FieldElement>) -> (r: Vec<FieldElement>)
    ensures
        all_wf(r@),
        r@.len() <= a@.len() || r@.len() <= b@.len(),
        r@.len() > 0 ==> r@.last()@ != 0,
        forall|x: nat| #[trigger] eval(r@, x) == field_add(eval(a@, x), eval(b@, x)),
{
    let pa = DensePolynomial::from_coefficients_vec(
        a.iter().map(|c| Fr::from_bigint(BigInt::new(c.limbs)).unwrap()).collect(),
    );
    let pb = DensePolynomial::from_coefficients_vec(
        b.iter().map(|c| Fr::from_bigint(BigInt::new(c.limbs)).unwrap()).collect(),
    );
    (&pa + &pb).coeffs.iter().map(|c| FieldElement { limbs: c.into_bigint().0 }).collect()
}

/// The value of the polynomial at a point, by `Polynomial::evaluate`.
#[verifier::external_body]
pub(crate) fn poly_evaluate(a: &Vec<FieldElement>, point: &FieldElement) -> (r: FieldElement)
    ensures
        r.wf(),
        r@ == eval(a@, point@),
{
    let pa = DensePolynomial::from_coefficients_vec(
        a.iter().map(|c| Fr::from_bigint(BigInt::new(c.limbs)).unwrap()).collect(),
    );
    let x = Fr::from_bigint(BigInt::new(point.limbs)).unwrap();
    FieldElement { limbs: pa.evaluate(&x).into_bigint().0 }
}

} // verus!
