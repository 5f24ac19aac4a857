use super::super::error::Error;
use super::band::{band_bits, byte_bit, from_little_endian, lemma_lowest_set, PackedBand};
use super::elimination::{
    is_pivot_col, is_zero_band, pivot_row, row_fits, row_ok, rows_fit, sorted_starts, views,
};
use super::linear::{lemma_row_sum_tail, row_sum};
use super::sorting::{
    lemma_span_ascends, lemma_span_holds, lemma_span_len, stable_by_second, whole_key,
};
pub use super::value::{xor_bytes, zero_bytes, OkvsV, OkvsValue};
use vstd::bytes::{spec_u64_from_le_bytes, u64_from_le_bytes};
use vstd::prelude::*;
use vstd::slice::slice_subrange;

pub mod utils;

verus! {

/// A key that an oblivious store can hold: it names a start column and a
/// band of columns from there on.
pub trait OkvsK {
    /// The start column that the key names among `range` of them.
    spec fn index_of(&self, range: nat) -> nat;

    /// The band that the key names, as 256 bits of which the low
    /// `band_width` count.
    spec fn band_of(&self, band_width: nat) -> Seq<bool>;

    /// The bytes of the key.
    spec fn key_bytes(&self) -> Seq<u8>;

    proof fn lemma_index_in_range(&self, range: nat)
        requires
            range > 0,
        ensures
            self.index_of(range) < range,
    ;

    /// A band has its lowest bit set, so it is never zero, and no bit set
    /// from `band_width` on.
    proof fn lemma_band_shape(&self, band_width: nat)
        requires
            8 <= band_width <= 256,
        ensures
            self.band_of(band_width).len() == 256,
            self.band_of(band_width)[0],
            forall|j: int| band_width <= j < 256 ==> !self.band_of(band_width)[j],
    ;

    fn hash_to_index(&self, range: usize) -> (r: usize)
        requires
            range > 0,
        ensures
            r == self.index_of(range as nat),
    ;

    fn hash_to_band(&self, band_width: usize) -> (r: PackedBand)
        requires
            8 <= band_width <= 256,
        ensures
            r@ == self.band_of(band_width as nat),
    ;

    fn to_bytes(&self) -> (r: Vec<u8>)
        ensures
            r@ == self.key_bytes(),
    ;
}

/// A key of `N` bytes.
#[derive(Clone, Copy, Debug)]
pub struct OkvsKey<const N: usize>(pub [u8; N]);

/// The bytes with the lowest bit of the first byte set.
pub open spec fn force_low_bit(bytes: Seq<u8>) -> Seq<u8> {
    bytes.update(0, bytes[0] | 1u8)
}

impl<const N: usize> OkvsK for OkvsKey<N> {
    /// The 8-byte BLAKE2b digest of the key, read as a little-endian
    /// number, modulo `range`.
    open spec fn index_of(&self, range: nat) -> nat {
        (spec_u64_from_le_bytes(utils::blake2b_var_digest(self.0@, 8)) as nat) % range
    }

    /// The first `band_width / 8` bytes of the stretched BLAKE2b-512 digest
    /// of the key, lowest bit forced to one, read as a little-endian
    /// register.
    open spec fn band_of(&self, band_width: nat) -> Seq<bool> {
        band_bits(force_low_bit(utils::hash_bytes(self.0@, band_width / 8)))
    }

    open spec fn key_bytes(&self) -> Seq<u8> {
        self.0@
    }

    proof fn lemma_index_in_range(&self, range: nat) {
        vstd::arithmetic::div_mod::lemma_mod_bound(
            spec_u64_from_le_bytes(utils::blake2b_var_digest(self.0@, 8)) as int,
            range as int,
        );
    }

    proof fn lemma_band_shape(&self, band_width: nat) {
        let raw = utils::hash_bytes(self.0@, band_width / 8);
        utils::lemma_hash_bytes_len(self.0@, band_width / 8);
        let first = raw[0];
        assert(((first | 1u8) >> 0u8) & 1u8 == 1u8) by (bit_vector);
        assert(byte_bit(force_low_bit(raw)[0], 0));
    }

    fn hash_to_index(&self, range: usize) -> (r: usize) {
        let bytes = self.to_bytes();
        let digest = utils::blake2b::<8>(bytes.as_slice());
        let number = u64_from_le_bytes(digest.as_slice());
        (number % (range as u64)) as usize
    }

    fn hash_to_band(&self, band_width: usize) -> (r: PackedBand) {
        let mut v = utils::hash(self.0.as_slice(), band_width / 8);
        let low = v[0] | 1u8;
        v[0] = low;
        assert(v@ =~= force_low_bit(utils::hash_bytes(self.0@, (band_width / 8) as nat)));
        from_little_endian(v.as_slice())
    }

    fn to_bytes(&self) -> (r: Vec<u8>) {
        let mut out: Vec<u8> = Vec::new();
        let mut i: usize = 0;
        while i < N
            invariant
                i <= N,
                out@ == self.0@.take(i as int),
            decreases N - i,
        {
            out.push(self.0[i]);
            assert(self.0@.take(i + 1) =~= self.0@.take(i as int).push(self.0@[i as int]));
            i += 1;
        }
        assert(self.0@.take(N as int) =~= self.0@);
        out
    }
}

/// A store that packs key/value pairs into a sequence of values from which
/// the value of each key can be read back.
pub trait Okvs<K: OkvsK, V: OkvsV> {
    /// Whether the store is set up so that it can encode and decode.
    spec fn ready(&self) -> bool;

    /// The number of values in an encoding.
    spec fn encoding_len(&self) -> nat;

    /// What `decode` reads from an encoding for a key.
    spec fn decoded(&self, encoding: Seq<V>, key: K) -> Seq<u8>;

    fn encode(&self, input: Vec<(K, V)>) -> (r: Result<Vec<V>, Error>)
        requires
            self.ready(),
        ensures
            r matches Ok(encoding) ==> {
                &&& encoding@.len() == self.encoding_len()
                &&& forall|j: int|
                    0 <= j < input@.len() ==> self.decoded(encoding@, (#[trigger] input@[j]).0)
                        == input@[j].1.bytes()
            },
    ;

    fn decode(&self, encoding: &Vec<V>, key: &K) -> (r: V)
        requires
            self.ready(),
            encoding@.len() == self.encoding_len(),
        ensures
            r.bytes() == self.decoded(encoding@, *key),
    ;
}

/// The widest band. Two bands of this width fit into one register of 256
/// bits side by side.
pub const BAND_WIDTH: usize = 128;

/// The narrowest band: one byte of digest.
pub const MIN_BAND_WIDTH: usize = 8;

/// The number of columns for `kv_count` pairs: a tenth more, rounded up.
pub open spec fn columns_for(kv_count: nat) -> nat {
    (11 * kv_count + 9) / 10
}

/// The band width for a number of columns: four fifths of them, at least
/// `MIN_BAND_WIDTH` and at most `BAND_WIDTH`.
pub open spec fn band_width_for(columns: nat) -> nat {
    let wanted = columns * 8 / 10;
    if wanted < MIN_BAND_WIDTH {
        MIN_BAND_WIDTH as nat
    } else if wanted > BAND_WIDTH {
        BAND_WIDTH as nat
    } else {
        wanted
    }
}

/// For each pair its position in the input and the start column of its
/// key.
pub open spec fn indexed_starts<K: OkvsK, V>(input: Seq<(K, V)>, range: nat) -> Seq<(usize, usize)> {
    Seq::new(input.len(), |i: int| (i as usize, input[i].0.index_of(range) as usize))
}

/// The order in which the pairs become rows: by start column, pairs with
/// the same start in input order.
pub open spec fn row_order<K: OkvsK, V>(input: Seq<(K, V)>, range: nat) -> Seq<(usize, usize)> {
    stable_by_second(indexed_starts(input, range), range as int)
}

/// An oblivious key-value store over a random band matrix.
pub struct RbOkvs {
    columns: usize,
    band_width: usize,
    capacity: usize,
}

impl RbOkvs {
    /// The number of columns, which is the length of an encoding.
    pub closed spec fn columns(&self) -> nat {
        self.columns as nat
    }

    /// The number of bits of a band.
    pub closed spec fn band_width(&self) -> nat {
        self.band_width as nat
    }

    /// The number of pairs that the store was sized for.
    pub closed spec fn capacity(&self) -> nat {
        self.capacity as nat
    }

    /// A band is narrower than the matrix, so that there is a start column
    /// to choose, and two bands fit into one register side by side.
    pub open spec fn wf(&self) -> bool {
        MIN_BAND_WIDTH <= self.band_width() <= BAND_WIDTH && self.band_width() < self.columns()
    }

    /// The number of start columns.
    pub open spec fn range(&self) -> nat {
        (self.columns() - self.band_width()) as nat
    }

    /// The bands of the rows, in row order.
    pub open spec fn row_bands<K: OkvsK, V>(&self, input: Seq<(K, V)>) -> Seq<Seq<bool>> {
        let order = row_order(input, self.range());
        Seq::new(input.len(), |k: int| input[order[k].0 as int].0.band_of(self.band_width()))
    }

    /// The start columns of the rows, in row order.
    pub open spec fn row_starts<K: OkvsK, V>(&self, input: Seq<(K, V)>) -> Seq<usize> {
        let order = row_order(input, self.range());
        Seq::new(input.len(), |k: int| order[k].1)
    }

    /// The store that `new` makes for `kv_count` pairs.
    pub closed spec fn sized_for(kv_count: usize) -> RbOkvs {
        let columns = columns_for(kv_count as nat);
        RbOkvs {
            columns: columns as usize,
            band_width: band_width_for(columns) as usize,
            capacity: kv_count,
        }
    }

    /// Sizes a store for `kv_count` pairs. It can encode and decode from 8
    /// pairs on: below that a band would be as wide as the matrix.
    pub fn new(kv_count: usize) -> (r: RbOkvs)
        requires
            11 * kv_count + 9 <= usize::MAX,
        ensures
            r == Self::sized_for(kv_count),
            r.capacity() == kv_count,
            r.columns() == columns_for(kv_count as nat),
            r.band_width() == band_width_for(r.columns()),
            r.wf() <==> kv_count >= 8,
    {
        let columns = (11 * kv_count + 9) / 10;
        let wanted = columns * 8 / 10;
        let band_width = if wanted < MIN_BAND_WIDTH {
            MIN_BAND_WIDTH
        } else if wanted > BAND_WIDTH {
            BAND_WIDTH
        } else {
            wanted
        };
        RbOkvs { columns, band_width, capacity: kv_count }
    }

    /// The number of columns and the number of bits of a band.
    pub fn dimensions(&self) -> (r: (usize, usize))
        ensures
            r.0 == self.columns(),
            r.1 == self.band_width(),
    {
        (self.columns, self.band_width)
    }

    /// Derives a row from each pair and sorts the rows by start column.
    /// Returns the bands, the start columns and the values, row by row.
    pub fn create_sorted_matrix<K: OkvsK, V: OkvsV>(&self, input: Vec<(K, V)>) -> (r: Result<
        (Vec<PackedBand>, Vec<usize>, Vec<V>),
        Error,
    >)
        requires
            self.wf(),
        ensures
            match r {
                Ok((bands, starts, ys)) => {
                    let order = row_order(input@, self.range());
                    &&& input@.len() <= self.capacity()
                    &&& views(bands@) == self.row_bands(input@)
                    &&& starts@ == self.row_starts(input@)
                    &&& ys@.len() == input@.len()
                    &&& forall|k: int|
                        0 <= k < input@.len() ==> (#[trigger] ys@[k]).bytes() == input@[order[k].0 as int].1.bytes()
                },
                Err(e) => e == Error::InputTooLarge && input@.len() > self.capacity(),
            },
    {
        let n = input.len();
        if n > self.capacity {
            return Err(Error::InputTooLarge);
        }
        let range = self.columns - self.band_width;
        let ghost pairs = indexed_starts(input@, range as nat);
        let mut start_pos: Vec<(usize, usize)> = Vec::new();
        let mut i: usize = 0;
        while i < n
            invariant
                i <= n,
                n == input@.len(),
                range > 0,
                start_pos@ == pairs.take(i as int),
                pairs == indexed_starts(input@, range as nat),
            decreases n - i,
        {
            let start = input[i].0.hash_to_index(range);
            proof {
                input@[i as int].0.lemma_index_in_range(range as nat);
            }
            start_pos.push((i, start));
            assert(pairs.take(i + 1) =~= pairs.take(i as int).push(pairs[i as int]));
            i += 1;
        }
        assert(pairs.take(n as int) =~= pairs);
        proof {
            assert forall|i: int| 0 <= i < pairs.len() implies (#[trigger] pairs[i]).1 <= range
                - 1 by {
                input@[i].0.lemma_index_in_range(range as nat);
            }
        }
        utils::radix_sort(&mut start_pos, range - 1);
        let ghost order = row_order(input@, range as nat);
        proof {
            lemma_row_order(input@, range as nat);
        }
        let mut matrix: Vec<PackedBand> = Vec::new();
        let mut start_ids: Vec<usize> = Vec::new();
        let mut y: Vec<V> = Vec::new();
        let mut k: usize = 0;
        while k < n
            invariant
                k <= n,
                n == input@.len(),
                n == order.len(),
                start_pos@ == order,
                order == row_order(input@, self.range()),
                self.wf(),
                forall|j: int| 0 <= j < n ==> (#[trigger] order[j]).0 < n,
                matrix@.len() == k,
                start_ids@.len() == k,
                y@.len() == k,
                forall|j: int|
                    0 <= j < k ==> (#[trigger] matrix@[j])@ == input@[order[j].0 as int].0.band_of(
                        self.band_width(),
                    ),
                forall|j: int| 0 <= j < k ==> #[trigger] start_ids@[j] == order[j].1,
                forall|j: int|
                    0 <= j < k ==> (#[trigger] y@[j]).bytes() == input@[order[j].0 as int].1.bytes(),
            decreases n - k,
        {
            let (i, start) = start_pos[k];
            assert(order[k as int].0 < n);
            let band = input[i].0.hash_to_band(self.band_width);
            // A copy made with the trait's own operations, of which the
            // contracts say what it holds.
            let value = V::default().xor(&input[i].1);
            proof {
                input@[i as int].1.lemma_width();
                super::value::lemma_xor_zero(input@[i as int].1.bytes());
            }
            matrix.push(band);
            start_ids.push(start);
            y.push(value);
            k += 1;
        }
        assert(views(matrix@) =~= self.row_bands(input@));
        assert(start_ids@ =~= self.row_starts(input@));
        Ok((matrix, start_ids, y))
    }
}

/// The row that the pair at position `j` of the input becomes, if it
/// becomes one.
pub open spec fn row_of(order: Seq<(usize, usize)>, j: int) -> Option<int> {
    if exists|k: int| 0 <= k < order.len() && (#[trigger] order[k]).0 == j {
        Some(choose|k: int| 0 <= k < order.len() && (#[trigger] order[k]).0 == j)
    } else {
        None
    }
}

/// The row order holds every pair, names valid positions, and ascends by
/// start column.
pub proof fn lemma_row_order<K: OkvsK, V>(input: Seq<(K, V)>, range: nat)
    requires
        range > 0,
        input.len() <= usize::MAX,
        range <= usize::MAX,
    ensures
        ({
            let order = row_order(input, range);
            &&& order.len() == input.len()
            &&& forall|k: int|
                0 <= k < order.len() ==> (#[trigger] order[k]).0 < input.len() && order[k].1
                    == input[order[k].0 as int].0.index_of(range) && order[k].1 < range
            &&& forall|j: int| 0 <= j < input.len() ==> #[trigger] row_of(order, j) is Some
            &&& forall|a: int, b: int|
                0 <= a <= b < order.len() ==> (#[trigger] order[a]).1 <= (#[trigger] order[b]).1
        }),
{
    let pairs = indexed_starts(input, range);
    let order = row_order(input, range);
    assert forall|i: int| 0 <= i < pairs.len() implies 0 <= #[trigger] whole_key()(pairs[i].1)
        < range by {
        input[i].0.lemma_index_in_range(range);
    }
    lemma_span_len(pairs, whole_key(), 0, range as int);
    assert forall|k: int| 0 <= k < order.len() implies (#[trigger] order[k]).0 < input.len()
        && order[k].1 == input[order[k].0 as int].0.index_of(range) && order[k].1 < range by {
        assert(order.contains(order[k]));
        lemma_span_holds(pairs, whole_key(), 0, range as int, order[k]);
        let i = choose|i: int| 0 <= i < pairs.len() && pairs[i] == order[k];
        input[i].0.lemma_index_in_range(range);
    }
    assert forall|j: int| 0 <= j < input.len() implies #[trigger] row_of(order, j) is Some by {
        input[j].0.lemma_index_in_range(range);
        assert(pairs.contains(pairs[j]));
        lemma_span_holds(pairs, whole_key(), 0, range as int, pairs[j]);
        let k = choose|k: int| 0 <= k < order.len() && order[k] == pairs[j];
        assert(order[k].0 == j);
    }
    assert forall|a: int, b: int| 0 <= a <= b < order.len() implies (#[trigger] order[a]).1 <= (
    #[trigger] order[b]).1 by {
        lemma_span_ascends(pairs, whole_key(), 0, range as int, a, b);
    }
}

impl RbOkvs {
    /// Whether `encoding` meets the equation of every row that the pairs of
    /// `input` become: the values of the columns that a pair's band covers,
    /// from its start column on, add up to the pair's value.
    pub open spec fn encodes<K: OkvsK, V: OkvsV>(
        &self,
        input: Seq<(K, V)>,
        encoding: Seq<V>,
    ) -> bool {
        let order = row_order(input, self.range());
        &&& encoding.len() == self.columns()
        &&& forall|k: int|
            0 <= k < input.len() ==> #[trigger] row_sum(
                self.row_bands(input)[k],
                self.row_starts(input)[k] as int,
                encoding,
                self.columns() as int,
            ) == input[order[k].0 as int].1.bytes()
    }

    /// The rows that the pairs become fit the matrix and come sorted by
    /// start column.
    pub proof fn lemma_rows<K: OkvsK, V>(&self, input: Seq<(K, V)>)
        requires
            self.wf(),
            input.len() <= usize::MAX,
            self.columns() <= usize::MAX,
        ensures
            self.row_bands(input).len() == input.len(),
            self.row_starts(input).len() == input.len(),
            sorted_starts(self.row_starts(input)),
            rows_fit(self.row_bands(input), self.row_starts(input), self.columns() as int),
    {
        let order = row_order(input, self.range());
        lemma_row_order(input, self.range());
        let bands = self.row_bands(input);
        let starts = self.row_starts(input);
        assert forall|r: int| 0 <= r < bands.len() implies row_fits(
            #[trigger] bands[r],
            starts[r] as int,
            self.columns() as int,
        ) by {
            assert(order[r].0 < input.len());
            input[order[r].0 as int].0.lemma_band_shape(self.band_width());
        }
        assert forall|a: int, b: int| 0 <= a <= b < starts.len() implies starts[a] <= starts[b] by {
            assert(order[a].1 <= order[b].1);
        }
    }
}

/// Round trip: from an encoding that meets the equations of all rows,
/// decoding the key of any pair of the input gives the bytes of that pair's
/// value.
pub proof fn lemma_round_trip<K: OkvsK, V: OkvsV>(
    store: RbOkvs,
    input: Seq<(K, V)>,
    encoding: Seq<V>,
    j: int,
)
    requires
        store.wf(),
        input.len() <= usize::MAX,
        store.columns() <= usize::MAX,
        store.encodes(input, encoding),
        0 <= j < input.len(),
    ensures
        store.decoded(encoding, input[j].0) == input[j].1.bytes(),
{
    let order = row_order(input, store.range());
    lemma_row_order(input, store.range());
    assert(row_of(order, j) is Some);
    let k = row_of(order, j).unwrap();
    assert(order[k].0 == j);
    assert(row_sum(
        store.row_bands(input)[k],
        store.row_starts(input)[k] as int,
        encoding,
        store.columns() as int,
    ) == input[order[k].0 as int].1.bytes());
}

/// Decoding is a function of the encoding and the key: two values read for
/// the same key from the same encoding have the same bytes, whatever the
/// store.
pub proof fn lemma_decode_deterministic<S: Okvs<K, V>, K: OkvsK, V: OkvsV>(
    store: S,
    encoding: Seq<V>,
    key: K,
    first: V,
    second: V,
)
    requires
        first.bytes() == store.decoded(encoding, key),
        second.bytes() == store.decoded(encoding, key),
    ensures
        first.bytes() == second.bytes(),
{
}

/// The first row is never changed by elimination and holds the forced low
/// bit of its band, so elimination does not find it zero.
pub proof fn lemma_first_row_not_zero<K: OkvsK, V: OkvsV>(store: RbOkvs, input: Seq<(K, V)>)
    requires
        store.wf(),
        0 < input.len() <= usize::MAX,
        store.columns() <= usize::MAX,
    ensures
        !is_zero_band(pivot_row(store.row_bands(input), store.row_starts(input), 0)),
{
    let order = row_order(input, store.range());
    lemma_row_order(input, store.range());
    assert(order[0].0 < input.len());
    let band = input[order[0].0 as int].0.band_of(store.band_width());
    input[order[0].0 as int].0.lemma_band_shape(store.band_width());
    assert(store.row_bands(input)[0] == band);
    lemma_lowest_set(band);
}

impl<K: OkvsK, V: OkvsV> Okvs<K, V> for RbOkvs {
    open spec fn ready(&self) -> bool {
        self.wf()
    }

    open spec fn encoding_len(&self) -> nat {
        self.columns()
    }

    /// The exclusive or of the values in the columns that the key's band
    /// covers, from the key's start column on.
    open spec fn decoded(&self, encoding: Seq<V>, key: K) -> Seq<u8> {
        row_sum(
            key.band_of(self.band_width()),
            key.index_of(self.range()) as int,
            encoding,
            self.columns() as int,
        )
    }

    /// Packs the pairs into `columns` values. Succeeds unless there are
    /// more pairs than the store was sized for, or elimination finds a row
    /// without a set bit. The encoding meets the equation of every row and is
    /// zero in every column that is no row's pivot column.
    fn encode(&self, input: Vec<(K, V)>) -> (r: Result<Vec<V>, Error>)
        ensures
            match r {
                Ok(encoding) => {
                    &&& input@.len() <= self.capacity()
                    &&& self.encodes(input@, encoding@)
                    &&& forall|i: int|
                        0 <= i < input@.len() ==> !is_zero_band(
                            #[trigger] pivot_row(self.row_bands(input@), self.row_starts(input@), i),
                        )
                    &&& forall|c: int|
                        0 <= c < self.columns() && !is_pivot_col(
                            self.row_bands(input@),
                            self.row_starts(input@),
                            c,
                        ) ==> (#[trigger] encoding@[c]).bytes() == zero_bytes(V::width())
                },
                Err(Error::InputTooLarge) => input@.len() > self.capacity(),
                Err(Error::ZeroRow(i)) => {
                    &&& input@.len() <= self.capacity()
                    &&& i < input@.len()
                    &&& is_zero_band(
                        pivot_row(self.row_bands(input@), self.row_starts(input@), i as int),
                    )
                    &&& forall|m: int|
                        0 <= m < i ==> !is_zero_band(
                            #[trigger] pivot_row(self.row_bands(input@), self.row_starts(input@), m),
                        )
                },
                Err(Error::DuplicateKey) => false,
            },
    {
        let ghost order = row_order(input@, self.range());
        proof {
            assert(input@.len() == input.len());
            self.lemma_rows(input@);
            lemma_row_order(input@, self.range());
        }
        match self.create_sorted_matrix(input) {
            Err(e) => Err(e),
            Ok((matrix, start_pos, y)) => {
                let solved = utils::simple_gauss(y, matrix, start_pos, self.columns);
                proof {
                    if solved is Ok {
                        let x = solved->Ok_0;
                        let bands = self.row_bands(input@);
                        let starts = self.row_starts(input@);
                        assert forall|k: int| 0 <= k < input@.len() implies #[trigger] row_sum(
                            bands[k],
                            starts[k] as int,
                            x@,
                            self.columns() as int,
                        ) == input@[order[k].0 as int].1.bytes() by {
                            assert(row_ok(bands, starts, y@, x@, k));
                        }
                        assert forall|j: int| 0 <= j < input@.len() implies self.decoded(
                            x@,
                            (#[trigger] input@[j]).0,
                        ) == input@[j].1.bytes() by {
                            lemma_round_trip(*self, input@, x@, j);
                        }
                    }
                }
                solved
            },
        }
    }

    fn decode(&self, encoding: &Vec<V>, key: &K) -> (r: V) {
        let start = key.hash_to_index(self.columns - self.band_width);
        let band = key.hash_to_band(self.band_width);
        proof {
            key.lemma_index_in_range(self.range());
            key.lemma_band_shape(self.band_width());
            lemma_row_sum_tail(band@, encoding@, start as int, self.columns - start);
        }
        let tail = slice_subrange(encoding.as_slice(), start, self.columns);
        utils::inner_product(&band, tail)
    }
}

} // verus!
