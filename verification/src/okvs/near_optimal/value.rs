use vstd::prelude::*;

verus! {

/// `w` zero bytes: the neutral element of `xor_bytes` on strings of `w`
/// bytes.
pub open spec fn zero_bytes(w: nat) -> Seq<u8> {
    Seq::new(w, |i: int| 0u8)
}

/// The bytewise exclusive or of two byte strings of one length.
pub open spec fn xor_bytes(a: Seq<u8>, b: Seq<u8>) -> Seq<u8> {
    Seq::new(a.len(), |i: int| a[i] ^ b[i])
}

pub proof fn lemma_xor_zero(a: Seq<u8>)
    ensures
        xor_bytes(a, zero_bytes(a.len())) == a,
        xor_bytes(zero_bytes(a.len()), a) == a,
{
    assert forall|i: int| 0 <= i < a.len() implies (a[i] ^ 0u8) == a[i] && (0u8 ^ a[i]) == a[i] by {
        let x = a[i];
        assert((x ^ 0u8) == x && (0u8 ^ x) == x) by (bit_vector);
    }
    assert(xor_bytes(a, zero_bytes(a.len())) =~= a);
    assert(xor_bytes(zero_bytes(a.len()), a) =~= a);
}

pub proof fn lemma_xor_self(a: Seq<u8>)
    ensures
        xor_bytes(a, a) == zero_bytes(a.len()),
{
    assert forall|i: int| 0 <= i < a.len() implies (a[i] ^ a[i]) == 0u8 by {
        let x = a[i];
        assert((x ^ x) == 0u8) by (bit_vector);
    }
    assert(xor_bytes(a, a) =~= zero_bytes(a.len()));
}

pub proof fn lemma_xor_commutes(a: Seq<u8>, b: Seq<u8>)
    requires
        a.len() == b.len(),
    ensures
        xor_bytes(a, b) == xor_bytes(b, a),
{
    assert forall|i: int| 0 <= i < a.len() implies (a[i] ^ b[i]) == (b[i] ^ a[i]) by {
        let x = a[i];
        let y = b[i];
        assert((x ^ y) == (y ^ x)) by (bit_vector);
    }
    assert(xor_bytes(a, b) =~= xor_bytes(b, a));
}

pub proof fn lemma_xor_associates(a: Seq<u8>, b: Seq<u8>, c: Seq<u8>)
    requires
        a.len() == b.len(),
        b.len() == c.len(),
    ensures
        xor_bytes(xor_bytes(a, b), c) == xor_bytes(a, xor_bytes(b, c)),
{
    assert forall|i: int| 0 <= i < a.len() implies ((a[i] ^ b[i]) ^ c[i]) == (a[i] ^ (b[i] ^ c[i])) by {
        let x = a[i];
        let y = b[i];
        let z = c[i];
        assert(((x ^ y) ^ z) == (x ^ (y ^ z))) by (bit_vector);
    }
    assert(xor_bytes(xor_bytes(a, b), c) =~= xor_bytes(a, xor_bytes(b, c)));
}

/// A value that an oblivious store can hold: a byte string of a width
/// fixed by its type, combined by bytewise exclusive or.
pub trait OkvsV: Clone + Sized {
    /// The bytes that a value stands for.
    spec fn bytes(&self) -> Seq<u8>;

    /// The number of bytes of every value of the type.
    spec fn width() -> nat;

    proof fn lemma_width(&self)
        ensures
            self.bytes().len() == Self::width(),
    ;

    fn default() -> (r: Self)
        ensures
            r.bytes() == zero_bytes(Self::width()),
    ;

    fn is_zero(&self) -> (b: bool)
        ensures
            b == (self.bytes() == zero_bytes(Self::width())),
    ;

    fn xor(&self, other: &Self) -> (r: Self)
        ensures
            r.bytes() == xor_bytes(self.bytes(), other.bytes()),
    ;

    fn in_place_xor(&mut self, other: &Self)
        ensures
            final(self).bytes() == xor_bytes(old(self).bytes(), other.bytes()),
    ;
}

/// A value of `N` bytes.
#[derive(Clone, Copy, Debug, PartialEq, Eq)]
pub struct OkvsValue<const N: usize>(pub [u8; N]);

impl<const N: usize> OkvsV for OkvsValue<N> {
    open spec fn bytes(&self) -> Seq<u8> {
        self.0@
    }

    open spec fn width() -> nat {
        N as nat
    }

    proof fn lemma_width(&self) {
    }

    fn default() -> (r: Self) {
        let zeros = [0u8; N];
        proof {
            vstd::array::axiom_spec_array_fill_for_copy_type::<u8, N>(0u8);
        }
        assert(zeros@ =~= zero_bytes(N as nat));
        Self(zeros)
    }

    fn is_zero(&self) -> (b: bool) {
        let mut i: usize = 0;
        while i < N
            invariant
                i <= N,
                forall|j: int| 0 <= j < i ==> self.0[j] == 0u8,
            decreases N - i,
        {
            if self.0[i] != 0 {
                assert(self.0@[i as int] != zero_bytes(N as nat)[i as int]);
                return false;
            }
            i += 1;
        }
        assert(self.0@ =~= zero_bytes(N as nat));
        true
    }

    fn xor(&self, other: &Self) -> (r: Self) {
        let mut result = [0u8; N];
        let mut i: usize = 0;
        while i < N
            invariant
                i <= N,
                forall|j: int| 0 <= j < i ==> result[j] == self.0[j] ^ other.0[j],
            decreases N - i,
        {
            result[i] = self.0[i] ^ other.0[i];
            i += 1;
        }
        assert(result@ =~= xor_bytes(self.0@, other.0@));
        Self(result)
    }

    fn in_place_xor(&mut self, other: &Self) {
        let mut i: usize = 0;
        while i < N
            invariant
                i <= N,
                forall|j: int| 0 <= j < i ==> self.0[j] == old(self).0[j] ^ other.0[j],
                forall|j: int| i <= j < N ==> self.0[j] == old(self).0[j],
            decreases N - i,
        {
            self.0[i] = self.0[i] ^ other.0[i];
            i += 1;
        }
        assert(self.0@ =~= xor_bytes(old(self).0@, other.0@));
    }
}

} // verus!
