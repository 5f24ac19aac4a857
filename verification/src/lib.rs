//! Fuzzy private set intersection over oblivious key-value stores.
//!
//! Two parties hold points on a line and learn which points of the second
//! lie within a threshold of a point of the first. Each party sorts its
//! points into bins ([`hash`]), the parties exchange one message for each
//! bin, packed into an oblivious key-value store ([`okvs`]), and compare
//! what they read from the other's store ([`sub_protocol`]). [`FuzzyPSI`]
//! runs the three steps.
//!
//! Two stores are at hand: one interpolated polynomial over the scalar
//! field of BLS12-381, and a random band matrix over the exclusive or of
//! byte strings, solved by one pass of elimination over rows sorted by
//! start column.

use crate::hash::{bin_of, bins_of, create_bins, invert_bin, lemma_points_in_bin, near_bin, points_in_bin};
use crate::okvs::error::Error;
use crate::okvs::lagrange_polynomial_okvs::{interpolates, POLYNOMIAL_CAPACITY};
use crate::okvs::near_optimal::elimination::{
    first_zero_row, is_pivot_col, is_zero_band, lemma_first_zero_row, lemma_first_zero_row_is,
    pivot_row,
};
use crate::okvs::near_optimal::okvs::{zero_bytes, Okvs, OkvsKey, OkvsV, OkvsValue, RbOkvs};
use crate::okvs::polynomial::eval;
use crate::okvs::{pairs_as_points, OKVS};
use crate::sub_protocol::insecure::{sub_protocol_1, sub_protocol_2, sub_protocol_3, within};
use rand_chacha::rand_core::RngCore;
use rand_chacha::ChaCha20Rng;
use std::collections::HashSet;
use vstd::bytes::{
    lemma_auto_spec_u64_to_from_le_bytes, spec_u64_from_le_bytes, spec_u64_to_le_bytes,
    u64_from_le_bytes, u64_to_le_bytes,
};
use vstd::prelude::*;
use vstd::std_specs::iter::IteratorSpec;

pub mod data;
pub mod hash;
pub mod okvs;
pub mod sub_protocol;

verus! {

/// The least number of pairs that an encoding is sized for.
pub const MIN_OKVS_LENGTH: usize = 64;

/// The strategy that encodes the messages.
#[derive(Debug, Clone, Copy, PartialEq, Eq)]
pub enum OKVSEncoder {
    /// One interpolated polynomial.
    LagrangePolynomial,
    /// A random band matrix.
    RandomBand,
}

/// The comparison that the two parties run on each bin.
#[derive(Debug, Clone, Copy, PartialEq, Eq)]
pub enum SubProtocol {
    /// The messages are the points themselves.
    Insecure,
}

/// `rand_chacha::ChaCha20Rng`, the generator whose numbers pad the
/// messages. Nothing of its state is known here.
#[verifier::external_type_specification]
#[verifier::external_body]
pub struct ExChaCha20Rng(ChaCha20Rng);

/// The next 64 bits of the generator, by `RngCore::next_u64`. Nothing is
/// known of them.
#[verifier::external_body]
fn next_u64(rng: &mut ChaCha20Rng) -> u64 {
    rng.next_u64()
}

/// What a `FuzzyPSI` holds.
pub struct Settings {
    pub h1: u64,
    pub h2: u64,
    pub threshold: u64,
    pub items_party_a: Seq<u64>,
    pub items_party_b: Seq<u64>,
    pub encoder: OKVSEncoder,
    pub sub_protocol: SubProtocol,
}

/// The number of pairs that a party with `items` points and the factor
/// `h` pads its messages to.
pub open spec fn padded_len(items: nat, h: nat) -> nat {
    if items * h + 1 < MIN_OKVS_LENGTH {
        MIN_OKVS_LENGTH as nat
    } else {
        items * h + 1
    }
}

/// The first of the points whose bin is `bin`, if there is one.
pub open spec fn first_in_bin(points: Seq<u64>, bin: int, delta: int) -> Option<u64> {
    if points_in_bin(points, bin, delta).len() > 0 {
        Some(points_in_bin(points, bin, delta)[0])
    } else {
        None
    }
}

/// The messages of a party: for each bin of `order` that holds one of the
/// points, in that order, the bin and the first point in it.
pub open spec fn bin_messages(points: Seq<u64>, delta: int, order: Seq<u64>) -> Seq<(u64, u64)>
    decreases order.len(),
{
    if order.len() == 0 {
        Seq::empty()
    } else {
        let rest = bin_messages(points, delta, order.drop_last());
        match first_in_bin(points, order.last() as int, delta) {
            Some(point) => rest.push((order.last(), point)),
            None => rest,
        }
    }
}

/// The number of pairs of padding that follow `have` messages where
/// `at_hand` pairs of padding are there and `target` pairs are wanted.
pub open spec fn pad_count(have: nat, at_hand: nat, target: nat) -> nat {
    if have >= target {
        0
    } else if target - have <= at_hand {
        (target - have) as nat
    } else {
        at_hand
    }
}

/// The messages followed by padding until there are `target` pairs or the
/// padding runs out.
pub open spec fn padded(messages: Seq<(u64, u64)>, padding: Seq<(u64, u64)>, target: nat) -> Seq<
    (u64, u64),
> {
    messages + padding.take(pad_count(messages.len(), padding.len(), target) as int)
}

/// What the first party reports: for each of its states, in order, what it
/// reads from the encoding at the state's bin, where that lies within
/// `delta` of the state.
pub open spec fn answers(states: Seq<(u64, u64)>, encoding: Encoding, delta: int) -> Seq<u64>
    decreases states.len(),
{
    if states.len() == 0 {
        Seq::empty()
    } else {
        let rest = answers(states.drop_last(), encoding, delta);
        let reply = encoding.decoded(states.last().0);
        if within(states.last().1 as int, reply as int, delta) {
            rest.push(reply)
        } else {
            rest
        }
    }
}

impl Settings {
    /// Whether `r` is the outcome of a run in which the first party walks
    /// its bins in the order `order_a`, the second party its bins in the
    /// order `order_b`, and `encoding_b` is what the second party sends.
    ///
    /// The first party packs its messages, padded from `padding_a`; the
    /// run ends with the error of that packing if there is one. Else the
    /// second party packs its replies, padded from `padding_b`; the run ends
    /// with the error of that packing if there is one. Else the run succeeds
    /// with the answers that the first party reads from the second party's
    /// encoding.
    pub open spec fn explains(
        self,
        padding_a: Seq<(u64, u64)>,
        padding_b: Seq<(u64, u64)>,
        order_a: Seq<u64>,
        order_b: Seq<u64>,
        encoding_b: Encoding,
        r: Result<Vec<u64>, Error>,
    ) -> bool {
        let delta = self.threshold as int;
        let size_a = padded_len(self.items_party_a.len(), self.h1 as nat);
        let size_b = padded_len(self.items_party_b.len(), self.h2 as nat);
        let states = bin_messages(self.items_party_a, delta, order_a);
        let sent_a = padded(states, padding_a, size_a);
        let sent_b = padded(bin_messages(self.items_party_b, delta, order_b), padding_b, size_b);
        &&& order_a.no_duplicates()
        &&& order_a.to_set() == bins_of(self.items_party_a, delta)
        &&& match failure(self.encoder, sent_a, size_a as usize) {
            Some(e) => r == Err::<Vec<u64>, Error>(e),
            None => {
                &&& order_b.no_duplicates()
                &&& order_b.to_set() == bins_of(self.items_party_b, delta)
                &&& match failure(self.encoder, sent_b, size_b as usize) {
                    Some(e) => r == Err::<Vec<u64>, Error>(e),
                    None => {
                        &&& r matches Ok(found)
                        &&& encoding_b.holds(self.encoder, sent_b, size_b as usize)
                        &&& found@ == answers(states, encoding_b, delta)
                    },
                }
            },
        }
    }

    /// Whether the protocol can run: bins have a width, no window passes
    /// the largest number, and the padded sizes fit the machine.
    pub open spec fn valid(self) -> bool {
        &&& 0 < self.threshold
        &&& 2 * self.threshold <= u64::MAX
        &&& forall|i: int|
            0 <= i < self.items_party_a.len() ==> self.items_party_a[i] + self.threshold
                <= u64::MAX
        &&& forall|i: int|
            0 <= i < self.items_party_b.len() ==> self.items_party_b[i] + self.threshold
                <= u64::MAX
        &&& 11 * padded_len(self.items_party_a.len(), self.h1 as nat) + 9 <= usize::MAX
        &&& 11 * padded_len(self.items_party_b.len(), self.h2 as nat) + 9 <= usize::MAX
    }

    /// Whether `v` is a point of the second party that the protocol must
    /// report: it is the first of that party's points in its bin, and lies
    /// within the threshold of the first of the first party's points in that
    /// bin.
    pub open spec fn matched(self, v: u64) -> bool {
        exists|a: u64|
            {
                let bin = bin_of(a as int, self.threshold as int);
                &&& first_in_bin(self.items_party_a, bin, self.threshold as int) == Some(a)
                &&& first_in_bin(self.items_party_b, bin, self.threshold as int) == Some(v)
                &&& #[trigger] within(a as int, v as int, self.threshold as int)
            }
    }

    /// Whether a run can end with the error: the polynomial finds no zero
    /// row and the band matrix no duplicate key, and a band matrix is sized
    /// for all messages unless a factor is zero.
    pub open spec fn may_fail_with(self, e: Error) -> bool {
        match self.encoder {
            OKVSEncoder::LagrangePolynomial => !(e is ZeroRow),
            OKVSEncoder::RandomBand => !(e is DuplicateKey) && (e is InputTooLarge ==> self.h1 == 0
                || self.h2 == 0),
        }
    }

    /// Whether `v` lies within the threshold of a point of the first
    /// party.
    pub open spec fn near_party_a(self, v: u64) -> bool {
        exists|i: int|
            0 <= i < self.items_party_a.len() && within(
                #[trigger] self.items_party_a[i] as int,
                v as int,
                self.threshold as int,
            )
    }
}

/// Both parties of a fuzzy private set intersection, with their points and
/// the parameters of the protocol.
pub struct FuzzyPSI {
    h1: u64,
    h2: u64,
    threshold: u64,
    items_party_a: Vec<u64>,
    items_party_b: Vec<u64>,
    encoder: OKVSEncoder,
    sub_protocol: SubProtocol,
}

impl View for FuzzyPSI {
    type V = Settings;

    closed spec fn view(&self) -> Settings {
        Settings {
            h1: self.h1,
            h2: self.h2,
            threshold: self.threshold,
            items_party_a: self.items_party_a@,
            items_party_b: self.items_party_b@,
            encoder: self.encoder,
            sub_protocol: self.sub_protocol,
        }
    }
}

/// The key of a bin for the band matrix: its eight bytes, least
/// significant first.
pub closed spec fn band_key(k: u64) -> OkvsKey<8> {
    OkvsKey(choose|a: [u8; 8]| a@ == spec_u64_to_le_bytes(k))
}

/// The value of a message for the band matrix: its eight bytes, least
/// significant first.
pub closed spec fn band_value(v: u64) -> OkvsValue<8> {
    OkvsValue(choose|a: [u8; 8]| a@ == spec_u64_to_le_bytes(v))
}

/// The pairs as the band matrix takes them.
pub open spec fn band_rows(pairs: Seq<(u64, u64)>) -> Seq<(OkvsKey<8>, OkvsValue<8>)> {
    Seq::new(pairs.len(), |i: int| (band_key(pairs[i].0), band_value(pairs[i].1)))
}

/// The eight bytes of a number, least significant first.
fn le_bytes(v: u64) -> (r: [u8; 8])
    ensures
        r@ == spec_u64_to_le_bytes(v),
{
    let bytes = u64_to_le_bytes(v);
    proof {
        lemma_auto_spec_u64_to_from_le_bytes();
    }
    let mut out = [0u8;8];
    let mut i: usize = 0;
    while i < 8
        invariant
            i <= 8,
            bytes@.len() == 8,
            forall|j: int| 0 <= j < i ==> out@[j] == bytes@[j],
        decreases 8 - i,
    {
        out[i] = bytes[i];
        i += 1;
    }
    assert(out@ =~= bytes@);
    out
}

fn key_of(k: u64) -> (r: OkvsKey<8>)
    ensures
        r == band_key(k),
{
    let bytes = le_bytes(k);
    proof {
        let chosen = choose|a: [u8; 8]| a@ == spec_u64_to_le_bytes(k);
        assert(chosen@ == bytes@);
        assert(chosen =~= bytes);
    }
    OkvsKey(bytes)
}

fn value_of(v: u64) -> (r: OkvsValue<8>)
    ensures
        r == band_value(v),
        r.bytes() == spec_u64_to_le_bytes(v),
{
    let bytes = le_bytes(v);
    proof {
        let chosen = choose|a: [u8; 8]| a@ == spec_u64_to_le_bytes(v);
        assert(chosen@ == bytes@);
        assert(chosen =~= bytes);
    }
    OkvsValue(bytes)
}

/// Whether no two pairs have the same key.
pub open spec fn keys_distinct(pairs: Seq<(u64, u64)>) -> bool {
    forall|i: int, j: int|
        0 <= i < j < pairs.len() ==> (#[trigger] pairs[i]).0 != (#[trigger] pairs[j]).0
}

/// The error with which packing the pairs fails, if it fails.
///
/// The polynomial refuses more pairs than `POLYNOMIAL_CAPACITY`, then two
/// pairs with one key. The band matrix refuses more pairs than `size`, then
/// names the first row that elimination finds without a set bit.
pub open spec fn failure(encoder: OKVSEncoder, pairs: Seq<(u64, u64)>, size: usize) -> Option<
    Error,
> {
    match encoder {
        OKVSEncoder::LagrangePolynomial => if pairs.len() > POLYNOMIAL_CAPACITY {
            Some(Error::InputTooLarge)
        } else if !keys_distinct(pairs) {
            Some(Error::DuplicateKey)
        } else {
            None
        },
        OKVSEncoder::RandomBand => if pairs.len() > size {
            Some(Error::InputTooLarge)
        } else {
            let store = RbOkvs::sized_for(size);
            let rows = band_rows(pairs);
            match first_zero_row(
                store.row_bands(rows),
                store.row_starts(rows),
                rows.len() as int,
            ) {
                Some(i) => Some(Error::ZeroRow(i as usize)),
                None => None,
            }
        },
    }
}

/// The messages of one party, packed by one of the two strategies.
pub enum Encoding {
    Polynomial(OKVS),
    RandomBand(RbOkvs, Vec<OkvsValue<8>>),
}

impl Encoding {
    /// Whether the encoding can be decoded.
    pub open spec fn wf(&self) -> bool {
        match self {
            Encoding::Polynomial(_) => true,
            Encoding::RandomBand(store, values) => store.wf() && values@.len() == store.columns(),
        }
    }

    /// Whether the encoding is what `encode` builds from the pairs: every
    /// key decodes to its value; the polynomial is the one of least degree
    /// through the pairs; the band matrix is solved over the rows of the
    /// pairs, with every column zero that is no row's pivot column.
    pub open spec fn holds(&self, encoder: OKVSEncoder, pairs: Seq<(u64, u64)>, size: usize) -> bool {
        &&& self.wf()
        &&& forall|i: int| 0 <= i < pairs.len() ==> #[trigger] self.decoded(pairs[i].0) == pairs[i].1
        &&& encoder == OKVSEncoder::LagrangePolynomial ==> {
            &&& self matches Encoding::Polynomial(store)
            &&& interpolates(store.coefficients(), pairs_as_points(pairs))
            &&& store.coefficients().len() <= pairs.len()
            &&& store.coefficients().len() > 0 ==> store.coefficients().last()@ != 0
        }
        &&& encoder == OKVSEncoder::RandomBand ==> {
            let store = RbOkvs::sized_for(size);
            let rows = band_rows(pairs);
            &&& self matches Encoding::RandomBand(s, values)
            &&& s == store
            &&& store.encodes(rows, values@)
            &&& forall|c: int|
                0 <= c < store.columns() && !is_pivot_col(
                    store.row_bands(rows),
                    store.row_starts(rows),
                    c,
                ) ==> (#[trigger] values@[c]).bytes() == zero_bytes(8)
        }
    }

    /// What `decode` reads for a key.
    pub open spec fn decoded(&self, key: u64) -> u64 {
        match self {
            Encoding::Polynomial(store) => (eval(store.coefficients(), key as nat)
                % 0x1_0000_0000_0000_0000) as u64,
            Encoding::RandomBand(store, values) => spec_u64_from_le_bytes(
                store.decoded(values@, band_key(key)),
            ),
        }
    }

    /// Packs the pairs with the chosen strategy, sized for `size` pairs.
    /// From an encoding that was built, every key decodes to its value.
    ///
    /// The polynomial is built unless two pairs have the same key or there
    /// are more pairs than `POLYNOMIAL_CAPACITY`. The band matrix is solved
    /// unless there are more pairs than `size` or elimination finds a row
    /// without a set bit.
    pub fn encode(encoder: OKVSEncoder, pairs: Vec<(u64, u64)>, size: usize) -> (r: Result<
        Encoding,
        Error,
    >)
        requires
            encoder == OKVSEncoder::RandomBand ==> 8 <= size && 11 * size + 9 <= usize::MAX,
        ensures
            match r {
                Ok(encoding) => failure(encoder, pairs@, size) is None && encoding.holds(
                    encoder,
                    pairs@,
                    size,
                ),
                Err(e) => failure(encoder, pairs@, size) == Some(e),
            },
    {
        match encoder {
            OKVSEncoder::LagrangePolynomial => {
                match OKVS::encode(pairs.as_slice()) {
                    Ok(store) => {
                        proof {
                            let points = pairs_as_points(pairs@);
                            assert forall|i: int, j: int| 0 <= i < j < pairs@.len() implies (
                            #[trigger] pairs@[i]).0 != (#[trigger] pairs@[j]).0 by {
                                crate::data::field::lemma_element_of(pairs@[i].0 as u128);
                                crate::data::field::lemma_element_of(pairs@[j].0 as u128);
                                assert(points[i].x@ != points[j].x@);
                            }
                            assert forall|i: int| 0 <= i < pairs@.len() implies (eval(
                                store.coefficients(),
                                pairs@[i].0 as nat,
                            ) % 0x1_0000_0000_0000_0000) as u64 == pairs@[i].1 by {
                                crate::data::field::lemma_element_of(pairs@[i].0 as u128);
                                crate::data::field::lemma_element_of(pairs@[i].1 as u128);
                                assert(points[i].x@ == pairs@[i].0);
                                assert(points[i].y@ == pairs@[i].1);
                            }
                        }
                        Ok(Encoding::Polynomial(store))
                    },
                    Err(e) => {
                        proof {
                            if e == Error::DuplicateKey {
                                let points = pairs_as_points(pairs@);
                                let (i, j) = choose|i: int, j: int|
                                    0 <= i < points.len() && 0 <= j < points.len() && i != j && (
                                    #[trigger] points[i]).x@ == (#[trigger] points[j]).x@;
                                crate::data::field::lemma_element_of(pairs@[i].0 as u128);
                                crate::data::field::lemma_element_of(pairs@[j].0 as u128);
                                if i < j {
                                    assert(pairs@[i].0 == pairs@[j].0);
                                } else {
                                    assert(pairs@[j].0 == pairs@[i].0);
                                }
                            }
                        }
                        Err(e)
                    },
                }
            },
            OKVSEncoder::RandomBand => {
                let store = RbOkvs::new(size);
                let mut input: Vec<(OkvsKey<8>, OkvsValue<8>)> = Vec::new();
                let mut i: usize = 0;
                while i < pairs.len()
                    invariant
                        i <= pairs@.len(),
                        input@.len() == i,
                        forall|j: int|
                            0 <= j < i ==> (#[trigger] input@[j]) == band_rows(pairs@)[j]
                                && input@[j].1.bytes() == spec_u64_to_le_bytes(pairs@[j].1),
                    decreases pairs@.len() - i,
                {
                    let (k, v) = pairs[i];
                    input.push((key_of(k), value_of(v)));
                    i += 1;
                }
                let ghost rows = input@;
                assert(rows =~= band_rows(pairs@));
                let solved = store.encode(input);
                proof {
                    let bands = store.row_bands(rows);
                    let starts = store.row_starts(rows);
                    lemma_first_zero_row(bands, starts, rows.len() as int);
                    if let Err(Error::ZeroRow(i)) = solved {
                        lemma_first_zero_row_is(bands, starts, rows.len() as int, i as int);
                    }
                }
                match solved {
                    Ok(values) => {
                        proof {
                            lemma_auto_spec_u64_to_from_le_bytes();
                            assert forall|i: int| 0 <= i < pairs@.len() implies spec_u64_from_le_bytes(
                                store.decoded(values@, band_key(pairs@[i].0)),
                            ) == pairs@[i].1 by {
                                assert(store.decoded(values@, rows[i].0) == rows[i].1.bytes());
                            }
                        }
                        Ok(Encoding::RandomBand(store, values))
                    },
                    Err(e) => Err(e),
                }
            },
        }
    }

    /// Reads the value of a key. For a key that was not encoded the value
    /// means nothing.
    pub fn decode(&self, key: u64) -> (r: u64)
        requires
            self.wf(),
        ensures
            r == self.decoded(key),
    {
        match self {
            Encoding::Polynomial(store) => {
                proof {
                    crate::data::field::lemma_element_of(key as u128);
                }
                store.decode(key).low_u64()
            },
            Encoding::RandomBand(store, values) => {
                let k = key_of(key);
                let value: OkvsValue<8> = store.decode(values, &k);
                u64_from_le_bytes(value.0.as_slice())
            },
        }
    }
}

/// The members of the set, each once, in the order in which the set hands
/// them out.
fn members(set: &HashSet<u64>) -> (r: Vec<u64>)
    ensures
        r@.no_duplicates(),
        r@.to_set() == set@,
{
    broadcast use vstd::std_specs::hash::group_hash_axioms;

    let mut out: Vec<u64> = Vec::new();
    for bin in it: set.iter()
        invariant
            out@.len() == it.index(),
            forall|j: int| 0 <= j < out@.len() ==> out@[j] == *it.seq()[j],
    {
        out.push(*bin);
    }
    proof {
        let keys = set.iter().remaining().unref();
        assert(out@ =~= keys) by {
            assert forall|j: int| 0 <= j < out@.len() implies out@[j] == keys[j] by {}
        }
    }
    out
}

/// A bin that holds one of the points is among the bins of the points.
proof fn lemma_own_bin(points: Seq<u64>, bin: u64, delta: int)
    requires
        0 < delta,
        first_in_bin(points, bin as int, delta) is Some,
    ensures
        bins_of(points, delta).contains(bin),
        points.contains(first_in_bin(points, bin as int, delta).unwrap()),
        bin_of(first_in_bin(points, bin as int, delta).unwrap() as int, delta) == bin,
{
    let found = points_in_bin(points, bin as int, delta);
    let p = found[0];
    lemma_points_in_bin(points, bin as int, delta);
    assert(found.contains(p));
    let i = choose|i: int| 0 <= i < points.len() && points[i] == p;
    assert(bin_of(p as int, delta) == bin as int);
    assert(near_bin(points[i] as int, delta, bin as int));
}

/// For each bin of the points that holds one of them: the bin and the first
/// point in it.
fn first_points(points: &Vec<u64>, delta: u64) -> (r: (Vec<(u64, u64)>, Ghost<Seq<u64>>))
    requires
        0 < delta,
        2 * delta <= u64::MAX,
        forall|i: int| 0 <= i < points@.len() ==> points@[i] + delta <= u64::MAX,
    ensures
        r.1@.no_duplicates(),
        r.1@.to_set() == bins_of(points@, delta as int),
        r.0@ == bin_messages(points@, delta as int, r.1@),
        r.0@.len() <= points@.len(),
        forall|j: int|
            0 <= j < r.0@.len() ==> first_in_bin(
                points@,
                (#[trigger] r.0@[j]).0 as int,
                delta as int,
            ) == Some(r.0@[j].1),
        forall|bin: u64|
            first_in_bin(points@, bin as int, delta as int) is Some ==> r.0@.contains(
                (bin, #[trigger] first_in_bin(points@, bin as int, delta as int).unwrap()),
            ),
        forall|i: int, j: int|
            0 <= i < j < r.0@.len() ==> (#[trigger] r.0@[i]).0 != (#[trigger] r.0@[j]).0,
{
    let bins = create_bins(points.as_slice(), delta);
    let order = members(&bins);
    let mut out: Vec<(u64, u64)> = Vec::new();
    let mut t: usize = 0;
    assert(order@.take(0) =~= Seq::<u64>::empty());
    while t < order.len()
        invariant
            0 < delta,
            2 * delta <= u64::MAX,
            t <= order@.len(),
            order@.no_duplicates(),
            out@ == bin_messages(points@, delta as int, order@.take(t as int)),
            out@.len() <= t,
            forall|j: int|
                0 <= j < out@.len() ==> first_in_bin(
                    points@,
                    (#[trigger] out@[j]).0 as int,
                    delta as int,
                ) == Some(out@[j].1),
            forall|j: int|
                0 <= j < out@.len() ==> exists|s: int|
                    0 <= s < t && #[trigger] order@[s] == (#[trigger] out@[j]).0,
            forall|s: int|
                0 <= s < t && first_in_bin(points@, order@[s] as int, delta as int) is Some
                    ==> out@.contains(
                    (
                        #[trigger] order@[s],
                        first_in_bin(points@, order@[s] as int, delta as int).unwrap(),
                    ),
                ),
            forall|i: int, j: int|
                0 <= i < j < out@.len() ==> (#[trigger] out@[i]).0 != (#[trigger] out@[j]).0,
        decreases order@.len() - t,
    {
        let bin = order[t];
        let found = invert_bin(bin, points.as_slice(), delta);
        let ghost before = out@;
        proof {
            assert(order@.take(t + 1).drop_last() =~= order@.take(t as int));
            assert(order@.take(t + 1).last() == bin);
        }
        if found.len() > 0 {
            out.push((bin, found[0]));
            proof {
                assert forall|i: int, j: int| 0 <= i < j < out@.len() implies (#[trigger] out@[i]).0
                    != (#[trigger] out@[j]).0 by {
                    if j == before.len() {
                        let s = choose|s: int|
                            0 <= s < t && #[trigger] order@[s] == (#[trigger] before[i]).0;
                        assert(order@[s] != order@[t as int]);
                    }
                }
                assert forall|j: int| 0 <= j < out@.len() implies exists|s: int|
                    0 <= s < t + 1 && #[trigger] order@[s] == (#[trigger] out@[j]).0 by {
                    if j < before.len() {
                        let s = choose|s: int|
                            0 <= s < t && #[trigger] order@[s] == (#[trigger] before[j]).0;
                        assert(order@[s] == out@[j].0);
                    } else {
                        assert(order@[t as int] == out@[j].0);
                    }
                }
            }
        }
        proof {
            assert forall|s: int|
                0 <= s < t + 1 && first_in_bin(points@, order@[s] as int, delta as int) is Some implies out@.contains(
                (
                    #[trigger] order@[s],
                    first_in_bin(points@, order@[s] as int, delta as int).unwrap(),
                ),
            ) by {
                let wanted = (
                    order@[s],
                    first_in_bin(points@, order@[s] as int, delta as int).unwrap(),
                );
                if s < t {
                    assert(before.contains(wanted));
                    let j = choose|j: int| 0 <= j < before.len() && before[j] == wanted;
                    assert(out@[j] == wanted);
                } else {
                    assert(out@[before.len() as int] == wanted);
                }
            }
        }
        t += 1;
    }
    proof {
        assert forall|bin: u64|
            first_in_bin(points@, bin as int, delta as int) is Some implies out@.contains(
            (bin, #[trigger] first_in_bin(points@, bin as int, delta as int).unwrap()),
        ) by {
            lemma_own_bin(points@, bin, delta as int);
            assert(order@.to_set().contains(bin));
            let s = choose|s: int| 0 <= s < order@.len() && order@[s] == bin;
            assert(order@[s] == bin);
        }
        lemma_distinct_bins(points@, delta as int, out@);
        assert(order@.take(order@.len() as int) =~= order@);
    }
    (out, Ghost(order@))
}

/// Pairs of distinct bins, each with a point of that bin, are no more than
/// the points.
proof fn lemma_distinct_bins(points: Seq<u64>, delta: int, pairs: Seq<(u64, u64)>)
    requires
        0 < delta,
        forall|j: int|
            0 <= j < pairs.len() ==> first_in_bin(points, (#[trigger] pairs[j]).0 as int, delta)
                == Some(pairs[j].1),
        forall|i: int, j: int|
            0 <= i < j < pairs.len() ==> (#[trigger] pairs[i]).0 != (#[trigger] pairs[j]).0,
    ensures
        pairs.len() <= points.len(),
{
    let firsts = Seq::new(pairs.len(), |j: int| pairs[j].1);
    assert forall|i: int, j: int| 0 <= i < j < firsts.len() implies firsts[i] != firsts[j] by {
        lemma_own_bin(points, pairs[i].0, delta);
        lemma_own_bin(points, pairs[j].0, delta);
    }
    assert(firsts.no_duplicates());
    assert forall|v: u64| firsts.to_set().contains(v) implies points.to_set().contains(v) by {
        let j = choose|j: int| 0 <= j < firsts.len() && firsts[j] == v;
        lemma_own_bin(points, pairs[j].0, delta);
    }
    firsts.unique_seq_to_set();
    points.lemma_cardinality_of_set();
    vstd::set_lib::lemma_len_subset(firsts.to_set(), points.to_set());
}

/// Appends pairs of the padding until there are `target` pairs or the
/// padding runs out.
fn pad(pairs: &mut Vec<(u64, u64)>, padding: &Vec<(u64, u64)>, target: usize)
    ensures
        final(pairs)@ == padded(old(pairs)@, padding@, target as nat),
{
    let ghost start = pairs@;
    let mut i: usize = 0;
    assert(pairs@ =~= start + padding@.take(0));
    while pairs.len() < target && i < padding.len()
        invariant
            i <= padding@.len(),
            pairs@ == start + padding@.take(i as int),
            i <= pad_count(start.len(), padding@.len(), target as nat),
        decreases padding@.len() - i,
    {
        pairs.push(padding[i]);
        assert(pairs@ =~= start + padding@.take(i + 1));
        i += 1;
    }
}

/// The number of pairs that a party pads its messages to.
fn padded_size(items: usize, h: u64) -> (r: usize)
    requires
        11 * padded_len(items as nat, h as nat) + 9 <= usize::MAX,
    ensures
        r == padded_len(items as nat, h as nat),
{
    if items == 0 {
        assert(0 * (h as nat) == 0) by (nonlinear_arith);
        return MIN_OKVS_LENGTH;
    }
    assert(items * h <= padded_len(items as nat, h as nat));
    assert(h <= items * h) by (nonlinear_arith)
        requires
            items >= 1,
    ;
    let wanted = items * (h as usize) + 1;
    if wanted < MIN_OKVS_LENGTH {
        MIN_OKVS_LENGTH
    } else {
        wanted
    }
}

impl FuzzyPSI {
    pub fn new() -> (r: Self)
        ensures
            r@ == (Settings {
                h1: 17,
                h2: 23,
                threshold: 10,
                items_party_a: Seq::empty(),
                items_party_b: Seq::empty(),
                encoder: OKVSEncoder::LagrangePolynomial,
                sub_protocol: SubProtocol::Insecure,
            }),
    {
        Self {
            h1: 17,
            h2: 23,
            threshold: 10,
            items_party_a: Vec::new(),
            items_party_b: Vec::new(),
            encoder: OKVSEncoder::LagrangePolynomial,
            sub_protocol: SubProtocol::Insecure,
        }
    }

    pub fn with_h1(self, h1: u64) -> (r: Self)
        ensures
            r@ == (Settings { h1, ..self@ }),
    {
        let mut next = self;
        next.h1 = h1;
        next
    }

    pub fn with_h2(self, h2: u64) -> (r: Self)
        ensures
            r@ == (Settings { h2, ..self@ }),
    {
        let mut next = self;
        next.h2 = h2;
        next
    }

    pub fn with_threshold(self, threshold: u64) -> (r: Self)
        ensures
            r@ == (Settings { threshold, ..self@ }),
    {
        let mut next = self;
        next.threshold = threshold;
        next
    }

    pub fn with_items_party_a(self, items: Vec<u64>) -> (r: Self)
        ensures
            r@ == (Settings { items_party_a: items@, ..self@ }),
    {
        let mut next = self;
        next.items_party_a = items;
        next
    }

    pub fn with_items_party_b(self, items: Vec<u64>) -> (r: Self)
        ensures
            r@ == (Settings { items_party_b: items@, ..self@ }),
    {
        let mut next = self;
        next.items_party_b = items;
        next
    }

    pub fn with_encoder(self, encoder: OKVSEncoder) -> (r: Self)
        ensures
            r@ == (Settings { encoder, ..self@ }),
    {
        let mut next = self;
        next.encoder = encoder;
        next
    }

    pub fn with_sub_protocol(self, sub_protocol: SubProtocol) -> (r: Self)
        ensures
            r@ == (Settings { sub_protocol, ..self@ }),
    {
        let mut next = self;
        next.sub_protocol = sub_protocol;
        next
    }

    /// Whether the settings are valid, so that the protocol can run.
    pub fn can_run(&self) -> (r: bool)
        ensures
            r == self@.valid(),
    {
        if self.threshold == 0 || self.threshold > u64::MAX / 2 {
            return false;
        }
        let mut i: usize = 0;
        while i < self.items_party_a.len()
            invariant
                i <= self.items_party_a@.len(),
                forall|j: int|
                    0 <= j < i ==> self.items_party_a@[j] + self.threshold <= u64::MAX,
            decreases self.items_party_a@.len() - i,
        {
            if self.items_party_a[i] > u64::MAX - self.threshold {
                return false;
            }
            i += 1;
        }
        let mut i: usize = 0;
        while i < self.items_party_b.len()
            invariant
                i <= self.items_party_b@.len(),
                forall|j: int|
                    0 <= j < self.items_party_a@.len() ==> self.items_party_a@[j] + self.threshold
                        <= u64::MAX,
                forall|j: int|
                    0 <= j < i ==> self.items_party_b@[j] + self.threshold <= u64::MAX,
            decreases self.items_party_b@.len() - i,
        {
            if self.items_party_b[i] > u64::MAX - self.threshold {
                return false;
            }
            i += 1;
        }
        size_fits(self.items_party_a.len(), self.h1) && size_fits(
            self.items_party_b.len(),
            self.h2,
        )
    }

    /// Runs the three steps of the protocol with padding drawn from the
    /// generator and returns the points of the second party that were
    /// matched.
    ///
    /// The outcome is that of `run_with_padding` on the pairs that were
    /// drawn, as many for each party as its messages are padded to. So,
    /// whatever was drawn: every point that is returned lies within the
    /// threshold of a point of the first party, there is at most one for each
    /// of that party's points, and every point that `Settings::matched` names
    /// is returned.
    pub fn run(&self, rng: &mut ChaCha20Rng) -> (r: Result<Vec<u64>, Error>)
        requires
            self@.valid(),
        ensures
            match r {
                Ok(found) => {
                    &&& found@.len() <= self@.items_party_a.len()
                    &&& forall|j: int|
                        0 <= j < found@.len() ==> self@.near_party_a(#[trigger] found@[j])
                    &&& forall|v: u64| #[trigger] self@.matched(v) ==> found@.contains(v)
                },
                Err(e) => self@.may_fail_with(e),
            },
            exists|
                padding_a: Seq<(u64, u64)>,
                padding_b: Seq<(u64, u64)>,
                order_a: Seq<u64>,
                order_b: Seq<u64>,
                encoding_b: Encoding,
            |
                {
                    &&& padding_a.len() == padded_len(
                        self@.items_party_a.len(),
                        self@.h1 as nat,
                    )
                    &&& padding_b.len() == padded_len(self@.items_party_b.len(), self@.h2 as nat)
                    &&& #[trigger] self@.explains(
                        padding_a,
                        padding_b,
                        order_a,
                        order_b,
                        encoding_b,
                        r,
                    )
                },
    {
        let size_a = padded_size(self.items_party_a.len(), self.h1);
        let size_b = padded_size(self.items_party_b.len(), self.h2);
        let mut padding_a: Vec<(u64, u64)> = Vec::new();
        let mut i: usize = 0;
        while i < size_a
            invariant
                i <= size_a,
                padding_a@.len() == i,
            decreases size_a - i,
        {
            let key = next_u64(rng);
            let value = next_u64(rng);
            padding_a.push((key, value));
            i += 1;
        }
        let mut padding_b: Vec<(u64, u64)> = Vec::new();
        let mut i: usize = 0;
        while i < size_b
            invariant
                i <= size_b,
                padding_b@.len() == i,
            decreases size_b - i,
        {
            let key = next_u64(rng);
            let value = next_u64(rng);
            padding_b.push((key, value));
            i += 1;
        }
        let r = self.run_with_padding(&padding_a, &padding_b);
        proof {
            let (order_a, order_b, encoding_b) = choose|
                order_a: Seq<u64>,
                order_b: Seq<u64>,
                encoding_b: Encoding,
            | #[trigger]
                self@.explains(padding_a@, padding_b@, order_a, order_b, encoding_b, r);
            assert(self@.explains(padding_a@, padding_b@, order_a, order_b, encoding_b, r));
        }
        r
    }

    /// Runs the three steps of the protocol, padding the messages of the
    /// first party from `padding_a` and those of the second from
    /// `padding_b`.
    ///
    /// Each party walks its bins in the order in which its set of bins hands
    /// them out; for that order of each party, `Settings::explains` says with
    /// which error the run fails or which points it returns.
    pub fn run_with_padding(&self, padding_a: &Vec<(u64, u64)>, padding_b: &Vec<(u64, u64)>) -> (r:
        Result<Vec<u64>, Error>)
        requires
            self@.valid(),
        ensures
            exists|order_a: Seq<u64>, order_b: Seq<u64>, encoding_b: Encoding| #[trigger]
                self@.explains(padding_a@, padding_b@, order_a, order_b, encoding_b, r),
            match r {
                Ok(found) => {
                    &&& found@.len() <= self@.items_party_a.len()
                    &&& forall|j: int|
                        0 <= j < found@.len() ==> self@.near_party_a(#[trigger] found@[j])
                    &&& forall|v: u64| #[trigger] self@.matched(v) ==> found@.contains(v)
                },
                Err(e) => self@.may_fail_with(e),
            },
    {
        let delta = self.threshold;
        let size_a = padded_size(self.items_party_a.len(), self.h1);
        let size_b = padded_size(self.items_party_b.len(), self.h2);
        // Step 1: the first party sends a message for each of its bins.
        let (firsts_a, Ghost(order_a)) = first_points(&self.items_party_a, delta);
        let mut states: Vec<(u64, u64)> = Vec::new();
        let mut messages_a: Vec<(u64, u64)> = Vec::new();
        let mut t: usize = 0;
        while t < firsts_a.len()
            invariant
                t <= firsts_a@.len(),
                states@.len() == t,
                messages_a@.len() == t,
                forall|j: int| 0 <= j < t ==> #[trigger] states@[j] == firsts_a@[j],
                forall|j: int| 0 <= j < t ==> #[trigger] messages_a@[j] == firsts_a@[j],
            decreases firsts_a@.len() - t,
        {
            let (bin, point) = firsts_a[t];
            let (message, state) = match self.sub_protocol {
                SubProtocol::Insecure => sub_protocol_1(point),
            };
            states.push((bin, state));
            messages_a.push((bin, message));
            t += 1;
        }
        proof {
            lemma_size_holds_all(self.items_party_a@.len(), self.h1 as nat);
            assert(messages_a@ =~= firsts_a@);
            assert(states@ =~= firsts_a@);
        }
        pad(&mut messages_a, padding_a, size_a);
        let encoding_a = match Encoding::encode(self.encoder, messages_a, size_a) {
            Ok(encoding) => encoding,
            Err(e) => {
                let failed: Result<Vec<u64>, Error> = Err(e);
                assert(self@.explains(
                    padding_a@,
                    padding_b@,
                    order_a,
                    Seq::empty(),
                    arbitrary(),
                    failed,
                ));
                return failed;
            },
        };
        // Step 2: the second party answers for each of its bins.
        let (firsts_b, Ghost(order_b)) = first_points(&self.items_party_b, delta);
        let mut messages_b: Vec<(u64, u64)> = Vec::new();
        let mut t: usize = 0;
        while t < firsts_b.len()
            invariant
                t <= firsts_b@.len(),
                encoding_a.wf(),
                messages_b@.len() == t,
                forall|j: int| 0 <= j < t ==> #[trigger] messages_b@[j] == firsts_b@[j],
            decreases firsts_b@.len() - t,
        {
            let (bin, point) = firsts_b[t];
            let message_from_a = encoding_a.decode(bin);
            let reply = match self.sub_protocol {
                SubProtocol::Insecure => sub_protocol_2(message_from_a, point),
            };
            messages_b.push((bin, reply));
            t += 1;
        }
        let ghost replies = messages_b@;
        proof {
            lemma_size_holds_all(self.items_party_b@.len(), self.h2 as nat);
            assert(replies =~= firsts_b@);
        }
        pad(&mut messages_b, padding_b, size_b);
        let ghost padded_b = messages_b@;
        let encoding_b = match Encoding::encode(self.encoder, messages_b, size_b) {
            Ok(encoding) => encoding,
            Err(e) => {
                let failed: Result<Vec<u64>, Error> = Err(e);
                assert(self@.explains(
                    padding_a@,
                    padding_b@,
                    order_a,
                    order_b,
                    arbitrary(),
                    failed,
                ));
                return failed;
            },
        };
        proof {
            assert forall|j: int| 0 <= j < firsts_b@.len() implies #[trigger] encoding_b.decoded(
                firsts_b@[j].0,
            ) == firsts_b@[j].1 by {
                assert(padded_b[j] == replies[j]);
                assert(encoding_b.decoded(padded_b[j].0) == padded_b[j].1);
            }
            assert(states@.take(0) =~= Seq::<(u64, u64)>::empty());
        }
        // Step 3: the first party compares each reply with its state.
        let mut found: Vec<u64> = Vec::new();
        let mut t: usize = 0;
        while t < states.len()
            invariant
                t <= states@.len(),
                encoding_b.wf(),
                delta == self@.threshold,
                states@.len() == firsts_a@.len(),
                forall|j: int| 0 <= j < states@.len() ==> #[trigger] states@[j] == firsts_a@[j],
                forall|j: int|
                    0 <= j < firsts_a@.len() ==> first_in_bin(
                        self@.items_party_a,
                        (#[trigger] firsts_a@[j]).0 as int,
                        delta as int,
                    ) == Some(firsts_a@[j].1),
                0 < delta,
                found@.len() <= t,
                found@ == answers(states@.take(t as int), encoding_b, delta as int),
                forall|j: int| 0 <= j < found@.len() ==> self@.near_party_a(#[trigger] found@[j]),
                forall|s: int|
                    0 <= s < t && within(
                        states@[s].1 as int,
                        encoding_b.decoded(states@[s].0) as int,
                        delta as int,
                    ) ==> found@.contains(#[trigger] encoding_b.decoded(states@[s].0)),
            decreases states@.len() - t,
        {
            let (bin, state) = states[t];
            let message_from_b = encoding_b.decode(bin);
            let answer = match self.sub_protocol {
                SubProtocol::Insecure => sub_protocol_3(state, message_from_b, delta),
            };
            let ghost before = found@;
            proof {
                assert(states@.take(t + 1).drop_last() =~= states@.take(t as int));
                assert(states@.take(t + 1).last() == states@[t as int]);
            }
            if let Some(value) = answer {
                found.push(value);
                proof {
                    lemma_own_bin(self@.items_party_a, bin, delta as int);
                    let i = choose|i: int|
                        0 <= i < self@.items_party_a.len() && self@.items_party_a[i] == state;
                    assert(within(self@.items_party_a[i] as int, value as int, delta as int));
                    assert(found@[before.len() as int] == value);
                }
            }
            proof {
                assert forall|s: int|
                    0 <= s < t + 1 && within(
                        states@[s].1 as int,
                        encoding_b.decoded(states@[s].0) as int,
                        delta as int,
                    ) implies found@.contains(#[trigger] encoding_b.decoded(states@[s].0)) by {
                    if s < t {
                        let v = encoding_b.decoded(states@[s].0);
                        assert(before.contains(v));
                        let j = choose|j: int| 0 <= j < before.len() && before[j] == v;
                        assert(found@[j] == v);
                    }
                }
            }
            t += 1;
        }
        proof {
            assert forall|v: u64| #[trigger] self@.matched(v) implies found@.contains(v) by {
                let a = choose|a: u64|
                    {
                        let bin = bin_of(a as int, delta as int);
                        &&& first_in_bin(self@.items_party_a, bin, delta as int) == Some(a)
                        &&& first_in_bin(self@.items_party_b, bin, delta as int) == Some(v)
                        &&& #[trigger] within(a as int, v as int, delta as int)
                    };
                let bin = (a / ((2 * delta) as u64)) as u64;
                assert(bin as int == bin_of(a as int, delta as int));
                assert(first_in_bin(self@.items_party_a, bin as int, delta as int).unwrap() == a);
                assert(first_in_bin(self@.items_party_b, bin as int, delta as int).unwrap() == v);
                assert(firsts_a@.contains((bin, a)));
                assert(firsts_b@.contains((bin, v)));
                let s = choose|s: int| 0 <= s < firsts_a@.len() && firsts_a@[s] == (bin, a);
                let u = choose|u: int| 0 <= u < firsts_b@.len() && firsts_b@[u] == (bin, v);
                assert(encoding_b.decoded(firsts_b@[u].0) == firsts_b@[u].1);
                assert(states@[s] == (bin, a));
            }
            assert(states@.take(states@.len() as int) =~= states@);
        }
        let done: Result<Vec<u64>, Error> = Ok(found);
        assert(self@.explains(padding_a@, padding_b@, order_a, order_b, encoding_b, done));
        done
    }
}

/// With a factor of one or more the padded size is no less than the number
/// of points.
proof fn lemma_size_holds_all(items: nat, h: nat)
    ensures
        h >= 1 ==> items <= padded_len(items, h),
{
    if h >= 1 {
        assert(items <= items * h) by (nonlinear_arith)
            requires
                h >= 1,
        ;
    }
}

/// Whether the padded size for `items` points and the factor `h` fits the
/// machine.
fn size_fits(items: usize, h: u64) -> (r: bool)
    ensures
        r == (11 * padded_len(items as nat, h as nat) + 9 <= usize::MAX),
{
    let limit: u128 = (usize::MAX as u128 - 9) / 11;
    assert((items as nat) * (h as nat) <= 0xffff_ffff_ffff_ffff * 0xffff_ffff_ffff_ffff)
        by (nonlinear_arith)
        requires
            items <= 0xffff_ffff_ffff_ffff,
            h <= 0xffff_ffff_ffff_ffff,
    ;
    let wanted: u128 = (items as u128) * (h as u128) + 1;
    let size: u128 = if wanted < MIN_OKVS_LENGTH as u128 {
        MIN_OKVS_LENGTH as u128
    } else {
        wanted
    };
    size <= limit
}

} // verus!
