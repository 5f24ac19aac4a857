use super::field::FieldElement;
use vstd::prelude::*;
use vstd::std_specs::convert::{FromSpecImpl, IntoSpec};

verus! {

/// A key `x` and its value `y`, both as field elements.
#[derive(Debug, Clone, Copy, Eq, PartialEq, Hash)]
pub struct Point {
    pub x: FieldElement,
    pub y: FieldElement,
}

impl Point {
    /// Whether both coordinates are residues below the modulus.
    pub open spec fn wf(&self) -> bool {
        self.x.wf() && self.y.wf()
    }

    pub fn new<K: Into<FieldElement>, V: Into<FieldElement>>(x: K, y: V) -> (r: Self)
        ensures
            K::obeys_into_spec() ==> r.x == x.into_spec(),
            V::obeys_into_spec() ==> r.y == y.into_spec(),
    {
        Self { x: x.into(), y: y.into() }
    }
}

impl<K: Into<FieldElement>, V: Into<FieldElement>> From<(K, V)> for Point {
    fn from(pair: (K, V)) -> (r: Point) {
        Self::new(pair.0, pair.1)
    }
}

impl<K: Into<FieldElement>, V: Into<FieldElement>> FromSpecImpl<(K, V)> for Point {
    open spec fn obeys_from_spec() -> bool {
        K::obeys_into_spec() && V::obeys_into_spec()
    }

    open spec fn from_spec(pair: (K, V)) -> Point {
        Point { x: pair.0.into_spec(), y: pair.1.into_spec() }
    }
}

impl<K: Into<FieldElement> + Copy, V: Into<FieldElement> + Copy> From<&(K, V)> for Point {
    fn from(pair: &(K, V)) -> (r: Point) {
        Self::new(pair.0, pair.1)
    }
}

impl<K: Into<FieldElement> + Copy, V: Into<FieldElement> + Copy> FromSpecImpl<&(K, V)> for Point {
    open spec fn obeys_from_spec() -> bool {
        K::obeys_into_spec() && V::obeys_into_spec()
    }

    open spec fn from_spec(pair: &(K, V)) -> Point {
        Point { x: pair.0.into_spec(), y: pair.1.into_spec() }
    }
}

} // verus!
