use super::field::{lemma_element_of, FieldElement};
use vstd::prelude::*;
use vstd::std_specs::convert::{FromSpecImpl, IntoSpec};

verus! {

/// A list of field elements. Its view is the list of their residues.
#[derive(Debug, Clone, Eq, PartialEq, Hash)]
pub struct Vector(pub(crate) Vec<FieldElement>);

impl View for Vector {
    type V = Seq<nat>;

    closed spec fn view(&self) -> Seq<nat> {
        Seq::new(self.0@.len(), |i: int| self.0@[i]@)
    }
}

/// The residues that a list of numbers stands for.
pub open spec fn residues<T: Into<FieldElement>>(data: Seq<T>) -> Seq<nat> {
    Seq::new(data.len(), |i: int| data[i].into_spec()@)
}

impl Vector {
    /// The elements of the vector.
    pub fn elements(&self) -> (r: &Vec<FieldElement>)
        ensures
            r@.len() == self@.len(),
            forall|i: int| 0 <= i < r@.len() ==> (#[trigger] r@[i])@ == self@[i],
    {
        &self.0
    }

    /// The vector of the numbers of a slice, in order.
    pub fn from_numbers<T: Into<FieldElement> + Copy>(data: &[T]) -> (r: Vector)
        ensures
            T::obeys_into_spec() ==> r@ == residues(data@),
    {
        let mut out: Vec<FieldElement> = Vec::new();
        let mut i: usize = 0;
        while i < data.len()
            invariant
                i <= data@.len(),
                out@.len() == i,
                T::obeys_into_spec() ==> forall|j: int|
                    0 <= j < i ==> (#[trigger] out@[j]) == data@[j].into_spec(),
            decreases data@.len() - i,
        {
            out.push(data[i].into());
            i += 1;
        }
        let r = Vector(out);
        proof {
            if T::obeys_into_spec() {
                assert(r@ =~= residues(data@));
            }
        }
        r
    }
}

impl From<u8> for Vector {
    fn from(value: u8) -> (r: Vector)
        ensures
            r@ == seq![value as nat],
    {
        proof {
            lemma_element_of(value as u128);
        }
        let r = Vector::from_numbers(&[value]);
        assert(r@ =~= seq![value as nat]);
        r
    }
}

impl FromSpecImpl<u8> for Vector {
    open spec fn obeys_from_spec() -> bool {
        false
    }

    open spec fn from_spec(value: u8) -> Vector {
        arbitrary()
    }
}

impl From<Vec<u8>> for Vector {
    fn from(data: Vec<u8>) -> (r: Vector)
        ensures
            r@ == residues(data@),
    {
        Vector::from_numbers(data.as_slice())
    }
}

impl FromSpecImpl<Vec<u8>> for Vector {
    open spec fn obeys_from_spec() -> bool {
        false
    }

    open spec fn from_spec(data: Vec<u8>) -> Vector {
        arbitrary()
    }
}

impl From<&[u8]> for Vector {
    fn from(data: &[u8]) -> (r: Vector)
        ensures
            r@ == residues(data@),
    {
        Vector::from_numbers(data)
    }
}

impl FromSpecImpl<&[u8]> for Vector {
    open spec fn obeys_from_spec() -> bool {
        false
    }

    open spec fn from_spec(data: &[u8]) -> Vector {
        arbitrary()
    }
}

impl<const N: usize> From<&[u8; N]> for Vector {
    fn from(data: &[u8; N]) -> (r: Vector)
        ensures
            r@ == residues(data@),
    {
        Vector::from_numbers(data.as_slice())
    }
}

impl<const N: usize> FromSpecImpl<&[u8; N]> for Vector {
    open spec fn obeys_from_spec() -> bool {
        false
    }

    open spec fn from_spec(data: &[u8; N]) -> Vector {
        arbitrary()
    }
}

impl From<u16> for Vector {
    fn from(value: u16) -> (r: Vector)
        ensures
            r@ == seq![value as nat],
    {
        proof {
            lemma_element_of(value as u128);
        }
        let r = Vector::from_numbers(&[value]);
        assert(r@ =~= seq![value as nat]);
        r
    }
}

impl FromSpecImpl<u16> for Vector {
    open spec fn obeys_from_spec() -> bool {
        false
    }

    open spec fn from_spec(value: u16) -> Vector {
        arbitrary()
    }
}

impl From<Vec<u16>> for Vector {
    fn from(data: Vec<u16>) -> (r: Vector)
        ensures
            r@ == residues(data@),
    {
        Vector::from_numbers(data.as_slice())
    }
}

impl FromSpecImpl<Vec<u16>> for Vector {
    open spec fn obeys_from_spec() -> bool {
        false
    }

    open spec fn from_spec(data: Vec<u16>) -> Vector {
        arbitrary()
    }
}

impl From<&[u16]> for Vector {
    fn from(data: &[u16]) -> (r: Vector)
        ensures
            r@ == residues(data@),
    {
        Vector::from_numbers(data)
    }
}

impl FromSpecImpl<&[u16]> for Vector {
    open spec fn obeys_from_spec() -> bool {
        false
    }

    open spec fn from_spec(data: &[u16]) -> Vector {
        arbitrary()
    }
}

impl<const N: usize> From<&[u16; N]> for Vector {
    fn from(data: &[u16; N]) -> (r: Vector)
        ensures
            r@ == residues(data@),
    {
        Vector::from_numbers(data.as_slice())
    }
}

impl<const N: usize> FromSpecImpl<&[u16; N]> for Vector {
    open spec fn obeys_from_spec() -> bool {
        false
    }

    open spec fn from_spec(data: &[u16; N]) -> Vector {
        arbitrary()
    }
}

impl From<u32> for Vector {
    fn from(value: u32) -> (r: Vector)
        ensures
            r@ == seq![value as nat],
    {
        proof {
            lemma_element_of(value as u128);
        }
        let r = Vector::from_numbers(&[value]);
        assert(r@ =~= seq![value as nat]);
        r
    }
}

impl FromSpecImpl<u32> for Vector {
    open spec fn obeys_from_spec() -> bool {
        false
    }

    open spec fn from_spec(value: u32) -> Vector {
        arbitrary()
    }
}

impl From<Vec<u32>> for Vector {
    fn from(data: Vec<u32>) -> (r: Vector)
        ensures
            r@ == residues(data@),
    {
        Vector::from_numbers(data.as_slice())
    }
}

impl FromSpecImpl<Vec<u32>> for Vector {
    open spec fn obeys_from_spec() -> bool {
        false
    }

    open spec fn from_spec(data: Vec<u32>) -> Vector {
        arbitrary()
    }
}

impl From<&[u32]> for Vector {
    fn from(data: &[u32]) -> (r: Vector)
        ensures
            r@ == residues(data@),
    {
        Vector::from_numbers(data)
    }
}

impl FromSpecImpl<&[u32]> for Vector {
    open spec fn obeys_from_spec() -> bool {
        false
    }

    open spec fn from_spec(data: &[u32]) -> Vector {
        arbitrary()
    }
}

impl<const N: usize> From<&[u32; N]> for Vector {
    fn from(data: &[u32; N]) -> (r: Vector)
        ensures
            r@ == residues(data@),
    {
        Vector::from_numbers(data.as_slice())
    }
}

impl<const N: usize> FromSpecImpl<&[u32; N]> for Vector {
    open spec fn obeys_from_spec() -> bool {
        false
    }

    open spec fn from_spec(data: &[u32; N]) -> Vector {
        arbitrary()
    }
}

impl From<u64> for Vector {
    fn from(value: u64) -> (r: Vector)
        ensures
            r@ == seq![value as nat],
    {
        proof {
            lemma_element_of(value as u128);
        }
        let r = Vector::from_numbers(&[value]);
        assert(r@ =~= seq![value as nat]);
        r
    }
}

impl FromSpecImpl<u64> for Vector {
    open spec fn obeys_from_spec() -> bool {
        false
    }

    open spec fn from_spec(value: u64) -> Vector {
        arbitrary()
    }
}

impl From<Vec<u64>> for Vector {
    fn from(data: Vec<u64>) -> (r: Vector)
        ensures
            r@ == residues(data@),
    {
        Vector::from_numbers(data.as_slice())
    }
}

impl FromSpecImpl<Vec<u64>> for Vector {
    open spec fn obeys_from_spec() -> bool {
        false
    }

    open spec fn from_spec(data: Vec<u64>) -> Vector {
        arbitrary()
    }
}

impl From<&[u64]> for Vector {
    fn from(data: &[u64]) -> (r: Vector)
        ensures
            r@ == residues(data@),
    {
        Vector::from_numbers(data)
    }
}

impl FromSpecImpl<&[u64]> for Vector {
    open spec fn obeys_from_spec() -> bool {
        false
    }

    open spec fn from_spec(data: &[u64]) -> Vector {
        arbitrary()
    }
}

impl<const N: usize> From<&[u64; N]> for Vector {
    fn from(data: &[u64; N]) -> (r: Vector)
        ensures
            r@ == residues(data@),
    {
        Vector::from_numbers(data.as_slice())
    }
}

impl<const N: usize> FromSpecImpl<&[u64; N]> for Vector {
    open spec fn obeys_from_spec() -> bool {
        false
    }

    open spec fn from_spec(data: &[u64; N]) -> Vector {
        arbitrary()
    }
}

impl From<u128> for Vector {
    fn from(value: u128) -> (r: Vector)
        ensures
            r@ == seq![value as nat],
    {
        proof {
            lemma_element_of(value as u128);
        }
        let r = Vector::from_numbers(&[value]);
        assert(r@ =~= seq![value as nat]);
        r
    }
}

impl FromSpecImpl<u128> for Vector {
    open spec fn obeys_from_spec() -> bool {
        false
    }

    open spec fn from_spec(value: u128) -> Vector {
        arbitrary()
    }
}

impl From<Vec<u128>> for Vector {
    fn from(data: Vec<u128>) -> (r: Vector)
        ensures
            r@ == residues(data@),
    {
        Vector::from_numbers(data.as_slice())
    }
}

impl FromSpecImpl<Vec<u128>> for Vector {
    open spec fn obeys_from_spec() -> bool {
        false
    }

    open spec fn from_spec(data: Vec<u128>) -> Vector {
        arbitrary()
    }
}

impl From<&[u128]> for Vector {
    fn from(data: &[u128]) -> (r: Vector)
        ensures
            r@ == residues(data@),
    {
        Vector::from_numbers(data)
    }
}

impl FromSpecImpl<&[u128]> for Vector {
    open spec fn obeys_from_spec() -> bool {
        false
    }

    open spec fn from_spec(data: &[u128]) -> Vector {
        arbitrary()
    }
}

impl<const N: usize> From<&[u128; N]> for Vector {
    fn from(data: &[u128; N]) -> (r: Vector)
        ensures
            r@ == residues(data@),
    {
        Vector::from_numbers(data.as_slice())
    }
}

impl<const N: usize> FromSpecImpl<&[u128; N]> for Vector {
    open spec fn obeys_from_spec() -> bool {
        false
    }

    open spec fn from_spec(data: &[u128; N]) -> Vector {
        arbitrary()
    }
}

} // verus!
