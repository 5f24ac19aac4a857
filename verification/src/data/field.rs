use ark_ff::{BigInt, Field, PrimeField};
use ark_test_curves::bls12_381::Fr;
use num_bigint::BigUint;
use vstd::prelude::*;
use vstd::std_specs::convert::FromSpecImpl;

verus! {

/// The order of the scalar field of BLS12-381, a prime.
pub open spec fn modulus() -> nat {
    52435875175126190479447740508185965837690552500527637822603658699938581184513nat
}

/// The sum of two residues in the field.
pub open spec fn field_add(a: nat, b: nat) -> nat {
    (a + b) % modulus()
}

/// The difference of two residues in the field.
pub open spec fn field_sub(a: nat, b: nat) -> nat {
    ((a + modulus() - b) % (modulus() as int)) as nat
}

/// The product of two residues in the field.
pub open spec fn field_mul(a: nat, b: nat) -> nat {
    (a * b) % modulus()
}

/// The number that four 64-bit limbs stand for, least significant first.
pub open spec fn limbs_value(limbs: [u64; 4]) -> nat {
    (limbs[0] as nat) + (limbs[1] as nat) * 0x1_0000_0000_0000_0000 + (limbs[2] as nat)
        * 0x1_0000_0000_0000_0000_0000_0000_0000_0000nat + (limbs[3] as nat)
        * 0x1_0000_0000_0000_0000_0000_0000_0000_0000_0000_0000_0000_0000nat
}

/// An element of the scalar field of BLS12-381, held as the limbs of its
/// least residue. Its view is that residue.
#[derive(Clone, Copy, Debug, PartialEq, Eq, Hash)]
pub struct FieldElement {
    pub(crate) limbs: [u64; 4],
}

impl View for FieldElement {
    type V = nat;

    closed spec fn view(&self) -> nat {
        limbs_value(self.limbs)
    }
}

/// The field element that stands for a number below 2 to the 128.
pub closed spec fn element_of(v: u128) -> FieldElement {
    FieldElement { limbs: [(v % 0x1_0000_0000_0000_0000) as u64, (v / 0x1_0000_0000_0000_0000) as u64, 0u64, 0u64] }
}

pub proof fn lemma_element_of(v: u128)
    ensures
        element_of(v)@ == v,
        element_of(v).wf(),
{
}

impl FieldElement {
    /// The limbs hold a residue below the modulus. This is the type's
    /// invariant: every element that exists at run time meets it.
    #[verifier::type_invariant]
    pub open spec fn wf(&self) -> bool {
        self@ < modulus()
    }

    /// The limbs, least significant first.
    pub fn limbs(&self) -> (r: [u64; 4])
        ensures
            limbs_value(r) == self@,
    {
        self.limbs
    }

    /// The element with the given limbs, where they stand for a number below
    /// the modulus.
    pub fn from_limbs(limbs: [u64; 4]) -> (r: Option<FieldElement>)
        ensures
            match r {
                Some(e) => e@ == limbs_value(limbs) && e.wf(),
                None => limbs_value(limbs) >= modulus(),
            },
    {
        let below = if limbs[3] != 0x73ed_a753_299d_7d48 {
            limbs[3] < 0x73ed_a753_299d_7d48
        } else if limbs[2] != 0x3339_d808_09a1_d805 {
            limbs[2] < 0x3339_d808_09a1_d805
        } else if limbs[1] != 0x53bd_a402_fffe_5bfe {
            limbs[1] < 0x53bd_a402_fffe_5bfe
        } else {
            limbs[0] < 0xffff_ffff_0000_0001
        };
        assert(modulus() == 0xffff_ffff_0000_0001 + 0x53bd_a402_fffe_5bfe
            * 0x1_0000_0000_0000_0000 + 0x3339_d808_09a1_d805
            * 0x1_0000_0000_0000_0000_0000_0000_0000_0000nat + 0x73ed_a753_299d_7d48
            * 0x1_0000_0000_0000_0000_0000_0000_0000_0000_0000_0000_0000_0000nat);
        if below {
            Some(FieldElement { limbs })
        } else {
            None
        }
    }

    /// The low 64 bits of the residue.
    pub fn low_u64(&self) -> (r: u64)
        ensures
            r == self@ % 0x1_0000_0000_0000_0000,
    {
        match low_digit(self) {
            Some(digit) => digit,
            None => 0,
        }
    }
}

impl From<u8> for FieldElement {
    fn from(v: u8) -> (r: FieldElement) {
        FieldElement { limbs: [v as u64, 0, 0, 0] }
    }
}

impl FromSpecImpl<u8> for FieldElement {
    open spec fn obeys_from_spec() -> bool {
        true
    }

    open spec fn from_spec(v: u8) -> FieldElement {
        element_of(v as u128)
    }
}

impl From<u16> for FieldElement {
    fn from(v: u16) -> (r: FieldElement) {
        FieldElement { limbs: [v as u64, 0, 0, 0] }
    }
}

impl FromSpecImpl<u16> for FieldElement {
    open spec fn obeys_from_spec() -> bool {
        true
    }

    open spec fn from_spec(v: u16) -> FieldElement {
        element_of(v as u128)
    }
}

impl From<u32> for FieldElement {
    fn from(v: u32) -> (r: FieldElement) {
        FieldElement { limbs: [v as u64, 0, 0, 0] }
    }
}

impl FromSpecImpl<u32> for FieldElement {
    open spec fn obeys_from_spec() -> bool {
        true
    }

    open spec fn from_spec(v: u32) -> FieldElement {
        element_of(v as u128)
    }
}

impl From<u64> for FieldElement {
    fn from(v: u64) -> (r: FieldElement) {
        FieldElement { limbs: [v, 0, 0, 0] }
    }
}

impl FromSpecImpl<u64> for FieldElement {
    open spec fn obeys_from_spec() -> bool {
        true
    }

    open spec fn from_spec(v: u64) -> FieldElement {
        element_of(v as u128)
    }
}

impl From<u128> for FieldElement {
    fn from(v: u128) -> (r: FieldElement) {
        FieldElement {
            limbs: [
                (v % 0x1_0000_0000_0000_0000) as u64,
                (v / 0x1_0000_0000_0000_0000) as u64,
                0,
                0,
            ],
        }
    }
}

impl FromSpecImpl<u128> for FieldElement {
    open spec fn obeys_from_spec() -> bool {
        true
    }

    open spec fn from_spec(v: u128) -> FieldElement {
        element_of(v)
    }
}

/// `a - b` in the field, by `Fr`'s `-`. The limbs of an element are below
/// the modulus by the type's invariant, so `from_bigint` accepts them, here
/// and in the functions below.
#[verifier::external_body]
pub(crate) fn fr_sub(a: &FieldElement, b: &FieldElement) -> (r: FieldElement)
    ensures
        r.wf(),
        r@ == field_sub(a@, b@),
{
    let x = Fr::from_bigint(BigInt::new(a.limbs)).unwrap();
    let y = Fr::from_bigint(BigInt::new(b.limbs)).unwrap();
    FieldElement { limbs: (x - y).into_bigint().0 }
}

/// `-a` in the field, by `Fr`'s unary `-`.
#[verifier::external_body]
pub(crate) fn fr_neg(a: &FieldElement) -> (r: FieldElement)
    ensures
        r.wf(),
        r@ == field_sub(0, a@),
{
    let x = Fr::from_bigint(BigInt::new(a.limbs)).unwrap();
    FieldElement { limbs: (-x).into_bigint().0 }
}

/// `a * b` in the field, by `Fr`'s `*`.
#[verifier::external_body]
pub(crate) fn fr_mul(a: &FieldElement, b: &FieldElement) -> (r: FieldElement)
    ensures
        r.wf(),
        r@ == field_mul(a@, b@),
{
    let x = Fr::from_bigint(BigInt::new(a.limbs)).unwrap();
    let y = Fr::from_bigint(BigInt::new(b.limbs)).unwrap();
    FieldElement { limbs: (x * y).into_bigint().0 }
}

/// The inverse of `a` in the field, by `Field::inverse`: none for zero,
/// else the element whose product with `a` is one.
#[verifier::external_body]
pub(crate) fn fr_inverse(a: &FieldElement) -> (r: Option<FieldElement>)
    ensures
        match r {
            Some(inv) => a@ != 0 && inv.wf() && field_mul(a@, inv@) == 1,
            None => a@ == 0,
        },
{
    let x = Fr::from_bigint(BigInt::new(a.limbs)).unwrap();
    x.inverse().map(|inv| FieldElement { limbs: inv.into_bigint().0 })
}

/// The least significant base 2 to the 64 digit of the residue, by
/// `BigUint::to_u64_digits`, which gives no digit for zero.
#[verifier::external_body]
pub(crate) fn low_digit(a: &FieldElement) -> (r: Option<u64>)
    ensures
        match r {
            Some(digit) => a@ != 0 && digit == a@ % 0x1_0000_0000_0000_0000,
            None => a@ == 0,
        },
{
    BigUint::from(BigInt::new(a.limbs)).to_u64_digits().first().copied()
}

} // verus!
