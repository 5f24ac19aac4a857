use crate::data::field::{
    field_add, field_mul, field_sub, fr_inverse, fr_mul, fr_neg, fr_sub, lemma_element_of, modulus,
    FieldElement,
};
use crate::data::point::Point;
use crate::okvs::error::Error;
use crate::okvs::polynomial::{
    all_wf, eval, lemma_eval_linear, lemma_eval_one, lemma_factor_value, poly_add,
    poly_evaluate, poly_mul, poly_scale,
};
use crate::okvs::{Encoder, Store};
use vstd::arithmetic::div_mod::lemma_small_mod;
use vstd::prelude::*;

verus! {

/// The largest number of points that one polynomial is built from. The
/// field multiplies polynomials of up to 2 to the 32 coefficients.
pub const POLYNOMIAL_CAPACITY: usize = 0x4000_0000;

/// Whether no two points have the same key.
pub open spec fn distinct_keys(data: Seq<Point>) -> bool {
    forall|i: int, j: int|
        0 <= i < data.len() && 0 <= j < data.len() && i != j ==> (#[trigger] data[i]).x@ != (
        #[trigger] data[j]).x@
}

/// The error with which interpolating the points fails, if it fails: too
/// many points first, then two points with one key.
pub open spec fn point_failure(data: Seq<Point>) -> Option<Error> {
    if data.len() > POLYNOMIAL_CAPACITY {
        Some(Error::InputTooLarge)
    } else if !distinct_keys(data) {
        Some(Error::DuplicateKey)
    } else {
        None
    }
}

/// Whether the polynomial takes at the key of every point the point's
/// value.
pub open spec fn interpolates(poly: Seq<FieldElement>, data: Seq<Point>) -> bool {
    forall|k: int| 0 <= k < data.len() ==> eval(poly, (#[trigger] data[k]).x@) == data[k].y@
}

pub struct LagrangePolynomialOKVSBuilder<const N: usize> {}

/// An oblivious key-value store of `N` dimensions: one interpolated
/// polynomial for each.
pub struct LagrangePolynomialOKVS<const N: usize>(pub(crate) Vec<Vec<FieldElement>>);

/// The difference of two residues is zero only where they are the same.
proof fn lemma_sub_zero(a: nat, b: nat)
    requires
        a < modulus(),
        b < modulus(),
    ensures
        field_sub(a, b) == 0 <==> a == b,
{
    let p = modulus() as int;
    if a == b {
        assert((a + p - b) % p == 0);
    } else if a > b {
        lemma_small_mod((a - b) as nat, modulus());
        vstd::arithmetic::div_mod::lemma_mod_add_multiples_vanish(a - b, p);
    } else {
        lemma_small_mod((a + p - b) as nat, modulus());
    }
}

/// Products and sums with zero and one.
proof fn lemma_units(t: nat)
    ensures
        field_mul(0, t) == 0,
        field_mul(t, 0) == 0,
        t < modulus() ==> field_mul(1, t) == t,
        t < modulus() ==> field_add(t, 0) == t,
        t < modulus() ==> field_add(0, t) == t,
{
    assert(0 * t == 0);
    assert(t * 0 == 0);
    assert(1 * t == t);
    if t < modulus() {
        lemma_small_mod(t, modulus());
    }
}

impl<const N: usize> LagrangePolynomialOKVS<N> {
    /// One polynomial for each dimension.
    pub closed spec fn polynomials(&self) -> Seq<Seq<FieldElement>> {
        Seq::new(self.0@.len(), |d: int| self.0@[d]@)
    }

    /// The store holds `N` polynomials.
    #[verifier::type_invariant]
    pub closed spec fn wf(&self) -> bool {
        self.0@.len() == N
    }

    /// The degree of the polynomial of a dimension; 0 for the zero
    /// polynomial.
    pub fn degree(&self, dimension: usize) -> (r: usize)
        requires
            dimension < N,
        ensures
            r == if self.polynomials()[dimension as int].len() == 0 {
                0
            } else {
                self.polynomials()[dimension as int].len() - 1
            },
    {
        proof {
            use_type_invariant(self);
        }
        if self.0[dimension].len() == 0 {
            0
        } else {
            self.0[dimension].len() - 1
        }
    }

    /// Builds the polynomial of least degree that takes at the key of each
    /// point the point's value, as the sum over the points of the value
    /// times Lagrange's basis polynomial of the key.
    ///
    /// Fails with `DuplicateKey` where two points have the same key, and
    /// with `InputTooLarge` on more than `POLYNOMIAL_CAPACITY` points.
    pub fn interpolate(data: &[Point]) -> (r: Result<Vec<FieldElement>, Error>)
        ensures
            match r {
                Ok(poly) => {
                    &&& data@.len() <= POLYNOMIAL_CAPACITY
                    &&& distinct_keys(data@)
                    &&& interpolates(poly@, data@)
                    &&& all_wf(poly@)
                    &&& poly@.len() <= data@.len()
                    &&& poly@.len() > 0 ==> poly@.last()@ != 0
                },
                Err(Error::InputTooLarge) => data@.len() > POLYNOMIAL_CAPACITY,
                Err(Error::DuplicateKey) => data@.len() <= POLYNOMIAL_CAPACITY && !distinct_keys(
                    data@,
                ),
                Err(Error::ZeroRow(_)) => false,
            },
    {
        let n = data.len();
        if n > POLYNOMIAL_CAPACITY {
            return Err(Error::InputTooLarge);
        }
        let mut poly: Vec<FieldElement> = Vec::new();
        let one = FieldElement::from(1u64);
        proof {
            lemma_element_of(1u128);
            lemma_units(0);
        }
        let mut i: usize = 0;
        while i < n
            invariant
                n == data@.len(),
                n <= POLYNOMIAL_CAPACITY,
                i <= n,
                one@ == 1,
                all_wf(poly@),
                poly@.len() <= n,
                poly@.len() > 0 ==> poly@.last()@ != 0,
                forall|a: int, b: int|
                    0 <= a < i && 0 <= b < n && a != b ==> (#[trigger] data@[a]).x@ != (
                    #[trigger] data@[b]).x@,
                forall|k: int|
                    0 <= k < n ==> eval(poly@, (#[trigger] data@[k]).x@) == (if k < i {
                        data@[k].y@
                    } else {
                        0
                    }),
            decreases n - i,
        {
            let x_i = data[i].x;
            let y_i = data[i].y;
            proof {
                use_type_invariant(&x_i);
                use_type_invariant(&y_i);
            }
            let mut l_i: Vec<FieldElement> = Vec::new();
            l_i.push(one);
            proof {
                assert(l_i@ =~= seq![one]);
                lemma_eval_one(one, x_i@);
                use_type_invariant(&one);
            }
            let mut j: usize = 0;
            while j < n
                invariant
                    n == data@.len(),
                    n <= POLYNOMIAL_CAPACITY,
                    i < n,
                    j <= n,
                    x_i == data@[i as int].x,
                    x_i.wf(),
                    all_wf(l_i@),
                    l_i@.len() <= (if j <= i {
                        j + 1
                    } else {
                        j as int
                    }),
                    eval(l_i@, x_i@) == 1,
                    forall|k: int|
                        0 <= k < j && k != i ==> eval(l_i@, (#[trigger] data@[k]).x@) == 0,
                    forall|b: int| 0 <= b < j && b != i ==> (#[trigger] data@[b]).x@ != x_i@,
                decreases n - j,
            {
                if i != j {
                    let x_j = data[j].x;
                    proof {
                        use_type_invariant(&x_j);
                    }
                    let denominator = fr_sub(&x_i, &x_j);
                    proof {
                        lemma_sub_zero(x_i@, x_j@);
                    }
                    match fr_inverse(&denominator) {
                        None => {
                            proof {
                                assert(data@[i as int].x@ == data@[j as int].x@);
                            }
                            return Err(Error::DuplicateKey);
                        },
                        Some(denominator_inv) => {
                            let minus_x_j = fr_neg(&x_j);
                            let constant = fr_mul(&minus_x_j, &denominator_inv);
                            let mut term: Vec<FieldElement> = Vec::new();
                            term.push(constant);
                            term.push(denominator_inv);
                            let ghost before = l_i@;
                            let product = poly_mul(&l_i, &term);
                            proof {
                                assert(term@ =~= seq![constant, denominator_inv]);
                                assert forall|x: nat| #[trigger]
                                    eval(term@, x) == field_mul(
                                        field_sub(x, x_j@),
                                        denominator_inv@,
                                    ) by {
                                    lemma_eval_linear(constant, denominator_inv, x);
                                    lemma_factor_value(x_j@, denominator_inv@, x);
                                }
                                lemma_units(1);
                                assert(eval(product@, x_i@) == 1) by {
                                    assert(eval(term@, x_i@) == 1);
                                }
                                assert(eval(product@, x_j@) == 0) by {
                                    lemma_sub_zero(x_j@, x_j@);
                                    lemma_units(denominator_inv@);
                                    assert(eval(term@, x_j@) == 0);
                                    lemma_units(eval(before, x_j@));
                                }
                                assert forall|k: int| 0 <= k < j + 1 && k != i implies eval(
                                    product@,
                                    (#[trigger] data@[k]).x@,
                                ) == 0 by {
                                    if k < j {
                                        assert(eval(before, data@[k].x@) == 0);
                                        lemma_units(eval(term@, data@[k].x@));
                                    }
                                }
                            }
                            l_i = product;
                        },
                    }
                }
                j += 1;
            }
            let scaled = poly_scale(&l_i, &y_i);
            let ghost before = poly@;
            let sum = poly_add(&poly, &scaled);
            proof {
                assert forall|k: int| 0 <= k < n implies eval(sum@, (#[trigger] data@[k]).x@) == (
                if k < i + 1 {
                    data@[k].y@
                } else {
                    0
                }) by {
                    let x = data@[k].x@;
                    if k == i {
                        lemma_units(y_i@);
                    } else {
                        assert(eval(l_i@, x) == 0);
                        lemma_units(y_i@);
                        lemma_units(0);
                        if k < i {
                            assert(eval(before, x) == data@[k].y@);
                            assert(eval(before, x) < modulus());
                            lemma_units(eval(before, x));
                        }
                    }
                }
                assert forall|a: int, b: int|
                    0 <= a < i + 1 && 0 <= b < n && a != b implies (#[trigger] data@[a]).x@ != (
                #[trigger] data@[b]).x@ by {
                    if a == i {
                        assert(data@[b].x@ != x_i@);
                    }
                }
            }
            poly = sum;
            i += 1;
        }
        Ok(poly)
    }
}

impl<const N: usize> Store<N> for LagrangePolynomialOKVS<N> {
    /// For each dimension the low 64 bits of the value of its polynomial
    /// at the key.
    open spec fn decoded(&self, key: u64) -> Seq<u64> {
        Seq::new(
            N as nat,
            |d: int| (eval(self.polynomials()[d], key as nat) % 0x1_0000_0000_0000_0000) as u64,
        )
    }

    fn decode(&self, key: u64) -> (r: [u64; N]) {
        proof {
            use_type_invariant(self);
        }
        let mut result = [0u64;N];
        let p = FieldElement::from(key);
        proof {
            lemma_element_of(key as u128);
        }
        let mut dimension: usize = 0;
        while dimension < N
            invariant
                dimension <= N,
                self.0@.len() == N,
                p@ == key,
                forall|d: int|
                    0 <= d < dimension ==> result@[d] == (eval(self.0@[d]@, key as nat)
                        % 0x1_0000_0000_0000_0000) as u64,
            decreases N - dimension,
        {
            let y = poly_evaluate(&self.0[dimension], &p);
            result[dimension] = y.low_u64();
            dimension += 1;
        }
        assert(result@ =~= self.decoded(key));
        result
    }
}

impl<const N: usize> Encoder<N> for LagrangePolynomialOKVS<N> {
    /// Interpolates the points of each dimension. Fails where one of the
    /// dimensions does, with the error of the first that does.
    fn encode(data: &[Vec<Point>; N]) -> (r: Result<Self, Error>)
        ensures
            match r {
                Ok(store) => {
                    &&& store.polynomials().len() == N
                    &&& forall|d: int|
                        0 <= d < N ==> (#[trigger] data@[d])@.len() <= POLYNOMIAL_CAPACITY
                            && distinct_keys(data@[d]@) && interpolates(
                            store.polynomials()[d],
                            data@[d]@,
                        ) && store.polynomials()[d].len() <= data@[d]@.len()
                },
                Err(e) => exists|d: int|
                    {
                        &&& 0 <= d < N
                        &&& point_failure((#[trigger] data@[d])@) == Some(e)
                        &&& forall|c: int|
                            0 <= c < d ==> point_failure((#[trigger] data@[c])@) is None
                    },
            },
    {
        let mut polynomials: Vec<Vec<FieldElement>> = Vec::new();
        let mut dimension: usize = 0;
        while dimension < N
            invariant
                dimension <= N,
                polynomials@.len() == dimension,
                forall|d: int|
                    0 <= d < dimension ==> (#[trigger] data@[d])@.len() <= POLYNOMIAL_CAPACITY
                        && distinct_keys(data@[d]@) && interpolates(polynomials@[d]@, data@[d]@)
                        && polynomials@[d]@.len() <= data@[d]@.len(),
            decreases N - dimension,
        {
            match Self::interpolate(data[dimension].as_slice()) {
                Ok(poly) => {
                    polynomials.push(poly);
                },
                Err(e) => {
                    proof {
                        assert(point_failure(data@[dimension as int]@) == Some(e));
                        assert forall|c: int| 0 <= c < dimension implies point_failure(
                            (#[trigger] data@[c])@,
                        ) is None by {}
                    }
                    return Err(e);
                },
            }
            dimension += 1;
        }
        let store = LagrangePolynomialOKVS(polynomials);
        proof {
            assert forall|d: int, i: int, k: u64|
                0 <= d < N && 0 <= i < data@[d]@.len() && (#[trigger] data@[d]@[i]).x@
                    == k implies (#[trigger] store.decoded(k))[d] == data@[d]@[i].y@
                % 0x1_0000_0000_0000_0000 by {
                assert(interpolates(store.polynomials()[d], data@[d]@));
            }
        }
        Ok(store)
    }
}

} // verus!
