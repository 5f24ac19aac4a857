use crate::data::field::FieldElement;
use crate::data::point::Point;
use vstd::prelude::*;
use vstd::std_specs::convert::IntoSpec;

pub mod error;
pub mod lagrange_polynomial_okvs;
pub mod near_optimal;
pub mod okvs;
pub mod polynomial;

use error::Error;
use lagrange_polynomial_okvs::{distinct_keys, interpolates, LagrangePolynomialOKVS, POLYNOMIAL_CAPACITY};
use polynomial::{eval, poly_evaluate};

verus! {

/// A store that answers a key with one number for each of `N` dimensions.
pub trait Store<const N: usize> {
    /// What `decode` returns for a key.
    spec fn decoded(&self, key: u64) -> Seq<u64>;

    fn decode(&self, key: u64) -> (r: [u64; N])
        ensures
            r@ == self.decoded(key),
    ;
}

/// A store that can be built from `N` lists of points, one for each
/// dimension, and then answers the key of each point with its value.
pub trait Encoder<const N: usize>: Store<N> + Sized {
    fn encode(data: &[Vec<Point>; N]) -> (r: Result<Self, Error>)
        ensures
            r matches Ok(store) ==> forall|d: int, i: int, k: u64|
                0 <= d < N && 0 <= i < data@[d]@.len() && (#[trigger] data@[d]@[i]).x@ == k ==> (
                #[trigger] store.decoded(k))[d] == data@[d]@[i].y@ % 0x1_0000_0000_0000_0000,
    ;
}

/// Decoding is a function of the store and the key: two answers to the
/// same key are the same numbers.
pub proof fn lemma_store_decode_deterministic<S: Store<N>, const N: usize>(
    store: S,
    key: u64,
    first: [u64; N],
    second: [u64; N],
)
    requires
        first@ == store.decoded(key),
        second@ == store.decoded(key),
    ensures
        first == second,
{
    assert(first =~= second);
}

/// The points that a list of pairs stands for.
pub open spec fn pairs_as_points<K: Into<FieldElement>, V: Into<FieldElement>>(
    data: Seq<(K, V)>,
) -> Seq<Point> {
    Seq::new(data.len(), |i: int| Point { x: data[i].0.into_spec(), y: data[i].1.into_spec() })
}

/// An oblivious key-value store that is one polynomial over the scalar field
/// of BLS12-381: the polynomial of least degree that takes at every key its
/// value.
pub struct OKVS(pub(crate) Vec<FieldElement>);

impl OKVS {
    /// The coefficients of the polynomial, the constant one first.
    pub closed spec fn coefficients(&self) -> Seq<FieldElement> {
        self.0@
    }

    /// Interpolates the pairs. Fails with `DuplicateKey` where two pairs have
    /// the same key, and with `InputTooLarge` on more than
    /// `POLYNOMIAL_CAPACITY` pairs.
    pub fn encode<K: Into<FieldElement> + Copy, V: Into<FieldElement> + Copy>(data: &[(K, V)]) -> (r:
        Result<Self, Error>)
        ensures
            K::obeys_into_spec() && V::obeys_into_spec() ==> match r {
                Ok(store) => {
                    &&& data@.len() <= POLYNOMIAL_CAPACITY
                    &&& distinct_keys(pairs_as_points(data@))
                    &&& interpolates(store.coefficients(), pairs_as_points(data@))
                    &&& store.coefficients().len() <= data@.len()
                    &&& store.coefficients().len() > 0 ==> store.coefficients().last()@ != 0
                },
                Err(Error::InputTooLarge) => data@.len() > POLYNOMIAL_CAPACITY,
                Err(Error::DuplicateKey) => data@.len() <= POLYNOMIAL_CAPACITY && !distinct_keys(
                    pairs_as_points(data@),
                ),
                Err(Error::ZeroRow(_)) => false,
            },
    {
        let mut points: Vec<Point> = Vec::new();
        let mut i: usize = 0;
        while i < data.len()
            invariant
                i <= data@.len(),
                points@.len() == i,
                K::obeys_into_spec() && V::obeys_into_spec() ==> points@ == pairs_as_points(
                    data@,
                ).take(i as int),
            decreases data@.len() - i,
        {
            let (k, v) = data[i];
            points.push(Point::new(k, v));
            proof {
                if K::obeys_into_spec() && V::obeys_into_spec() {
                    let all = pairs_as_points(data@);
                    assert(all.take(i + 1) =~= all.take(i as int).push(all[i as int]));
                }
            }
            i += 1;
        }
        proof {
            let all = pairs_as_points(data@);
            assert(all.take(data@.len() as int) =~= all);
        }
        match LagrangePolynomialOKVS::<1>::interpolate(points.as_slice()) {
            Ok(poly) => Ok(OKVS(poly)),
            Err(e) => Err(e),
        }
    }

    /// The value of the polynomial at the key.
    pub fn decode<K: Into<FieldElement> + Copy>(&self, key: K) -> (r: FieldElement)
        ensures
            r.wf(),
            K::obeys_into_spec() ==> r@ == eval(self.coefficients(), key.into_spec()@),
    {
        let point: FieldElement = key.into();
        self.evaluate(&point)
    }

    /// The degree of the polynomial; 0 for the zero polynomial.
    pub fn degree(&self) -> (r: usize)
        ensures
            r == if self.coefficients().len() == 0 {
                0
            } else {
                self.coefficients().len() - 1
            },
    {
        if self.0.len() == 0 {
            0
        } else {
            self.0.len() - 1
        }
    }

    /// The value of the polynomial at a field element.
    pub fn evaluate(&self, point: &FieldElement) -> (r: FieldElement)
        ensures
            r.wf(),
            r@ == eval(self.coefficients(), point@),
    {
        poly_evaluate(&self.0, point)
    }
}

} // verus!
