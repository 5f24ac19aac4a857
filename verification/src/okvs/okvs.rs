use crate::data::field::{lemma_element_of, FieldElement};
use crate::data::point::Point;
use crate::okvs::polynomial::eval;
use vstd::prelude::*;

verus! {

/// A store that answers a key with the point of that key.
pub trait OKVS {
    /// The value that the store holds for a key.
    spec fn value_at(&self, key: nat) -> nat;

    fn decode(&self, key: u128) -> (r: Point)
        ensures
            r.x@ == key,
            r.y@ == self.value_at(key as nat),
    ;
}

impl OKVS for super::OKVS {
    open spec fn value_at(&self, key: nat) -> nat {
        eval(self.coefficients(), key)
    }

    fn decode(&self, key: u128) -> (r: Point) {
        let x = FieldElement::from(key);
        proof {
            lemma_element_of(key);
        }
        let y = self.evaluate(&x);
        Point { x, y }
    }
}

} // verus!
