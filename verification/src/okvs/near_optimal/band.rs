use sp_core::U256;
use vstd::prelude::*;

verus! {

/// Whether bit `i` of the word `w` is set, counting from the least
/// significant bit.
pub open spec fn limb_bit(w: u64, i: int) -> bool {
    (w >> (i as u64)) & 1 == 1
}

/// Whether bit `i` of the byte `b` is set, counting from the least
/// significant bit.
pub open spec fn byte_bit(b: u8, i: int) -> bool {
    (b >> (i as u8)) & 1 == 1
}

/// A 256-bit register held as four 64-bit limbs, least significant first.
///
/// Its view is the sequence of its 256 bits, bit 0 first.
#[derive(Clone, Copy, Debug)]
pub struct PackedBand(pub [u64; 4]);

impl View for PackedBand {
    type V = Seq<bool>;

    open spec fn view(&self) -> Seq<bool> {
        Seq::new(256, |i: int| limb_bit(self.0[i / 64], i % 64))
    }
}

/// The position of the lowest set bit of `bits`, or `bits.len()` when no
/// bit is set.
pub open spec fn lowest_set(bits: Seq<bool>) -> int
    decreases bits.len(),
{
    if bits.len() == 0 {
        0
    } else if bits[0] {
        0
    } else {
        1 + lowest_set(bits.drop_first())
    }
}

/// One more than the position of the highest set bit of `bits`, or 0 when
/// no bit is set.
pub open spec fn used_bits(bits: Seq<bool>) -> int
    decreases bits.len(),
{
    if bits.len() == 0 {
        0
    } else if bits.last() {
        bits.len() as int
    } else {
        used_bits(bits.drop_last())
    }
}

/// `lowest_set` is the least position that holds a set bit.
pub proof fn lemma_lowest_set(bits: Seq<bool>)
    ensures
        0 <= lowest_set(bits) <= bits.len(),
        lowest_set(bits) < bits.len() ==> bits[lowest_set(bits)],
        forall|j: int| 0 <= j < lowest_set(bits) ==> !bits[j],
    decreases bits.len(),
{
    if bits.len() != 0 && !bits[0] {
        let rest = bits.drop_first();
        lemma_lowest_set(rest);
        assert forall|j: int| 0 <= j < lowest_set(bits) implies !bits[j] by {
            if j > 0 {
                assert(rest[j - 1] == bits[j]);
            }
        }
    }
}

/// `used_bits` bounds every set bit from above, tightly.
pub proof fn lemma_used_bits(bits: Seq<bool>)
    ensures
        0 <= used_bits(bits) <= bits.len(),
        used_bits(bits) > 0 ==> bits[used_bits(bits) - 1],
        forall|j: int| used_bits(bits) <= j < bits.len() ==> !bits[j],
    decreases bits.len(),
{
    if bits.len() != 0 && !bits.last() {
        let rest = bits.drop_last();
        lemma_used_bits(rest);
        assert forall|j: int| used_bits(bits) <= j < bits.len() implies !bits[j] by {
            if j < rest.len() {
                assert(rest[j] == bits[j]);
            }
        }
    }
}

/// What `xor` returns: `b` combined with `a` after `a` is moved so that its
/// bit `start_a` lies on `b`'s bit `start_b`. Bits of `b` that the move would
/// push out of the register are lost with it.
pub open spec fn xor_aligned(a: Seq<bool>, b: Seq<bool>, start_a: int, start_b: int) -> Seq<bool> {
    if start_a == start_b {
        Seq::new(256, |j: int| a[j] != b[j])
    } else if start_a < start_b {
        Seq::new(256, |j: int| j >= start_b - start_a && (b[j] != a[j - (start_b - start_a)]))
    } else {
        Seq::new(256, |j: int| j + (start_a - start_b) < 256 && (b[j] != a[j + (start_a - start_b)]))
    }
}

/// `U256`'s `<<` by a `usize`: every bit moves up by `n` places, bits that
/// would pass position 255 are dropped and the low `n` bits are clear.
#[verifier::external_body]
pub(crate) fn shift_left(a: &PackedBand, n: usize) -> (r: PackedBand)
    ensures
        r@ == Seq::new(256, |j: int| j >= n && a@[j - n]),
{
    PackedBand((U256(a.0) << n).0)
}

/// `U256`'s `>>` by a `usize`: every bit moves down by `n` places, the low
/// `n` bits are dropped and the high `n` bits are clear.
#[verifier::external_body]
pub(crate) fn shift_right(a: &PackedBand, n: usize) -> (r: PackedBand)
    ensures
        r@ == Seq::new(256, |j: int| j + n < 256 && a@[j + n]),
{
    PackedBand((U256(a.0) >> n).0)
}

/// `U256`'s `^`: a bit of the result is set where exactly one of the two
/// operands has it set.
#[verifier::external_body]
pub(crate) fn bit_xor(a: &PackedBand, b: &PackedBand) -> (r: PackedBand)
    ensures
        r@ == Seq::new(256, |j: int| a@[j] != b@[j]),
{
    PackedBand((U256(a.0) ^ U256(b.0)).0)
}

/// `U256::trailing_zeros`: the position of the lowest set bit, 256 for
/// zero.
#[verifier::external_body]
pub(crate) fn trailing_zeros(a: &PackedBand) -> (r: usize)
    ensures
        r == lowest_set(a@),
{
    U256(a.0).trailing_zeros() as usize
}

/// `U256::bits`: the least number of bits that can hold the value, 0 for
/// zero.
#[verifier::external_body]
pub(crate) fn bits(a: &PackedBand) -> (r: usize)
    ensures
        r == used_bits(a@),
{
    U256(a.0).bits()
}

/// The 256 bits that a little-endian byte string stands for: byte `k` gives
/// bits `8k` to `8k + 7`, and the bits past the string are clear.
pub open spec fn band_bits(bytes: Seq<u8>) -> Seq<bool> {
    Seq::new(256, |j: int| j / 8 < bytes.len() && byte_bit(bytes[j / 8], j % 8))
}

/// `U256::from_little_endian`: the register that the bytes stand for, least
/// significant byte first. It panics on more than 32 bytes.
#[verifier::external_body]
pub(crate) fn from_little_endian(bytes: &[u8]) -> (r: PackedBand)
    requires
        bytes@.len() <= 32,
    ensures
        r@ == band_bits(bytes@),
{
    PackedBand(U256::from_little_endian(bytes).0)
}

} // verus!
