use super::super::super::error::Error;
use super::super::band::{
    bit_xor, bits, lemma_lowest_set, lemma_used_bits, limb_bit, lowest_set, shift_left,
    shift_right, trailing_zeros, xor_aligned, PackedBand,
};
use super::super::elimination::{
    chosen_from, cleared, entails, is_pivot_col, is_zero_band, lemma_add_rows,
    lemma_reduced_len, lemma_step_keeps_solutions, pivot_col, pivot_row, pivots_set, reduce_by,
    reduce_upto, reduced, row_fits, row_ok, rows_fit, solves, sorted_starts, views,
};
use super::super::linear::{
    covers, lemma_row_sum_agrees, lemma_row_sum_stable, lemma_row_sum_tail,
    lemma_row_sum_update, lemma_row_sum_width, row_sum,
};
use super::super::sorting::{
    bucket, digit_key, lemma_bucket_len, lemma_bucket_place, lemma_radix_pass,
    lemma_span_grows, lemma_span_len, lemma_span_past_keys, lemma_span_place,
    lemma_span_same_keys, low_key, span, stable_by_second, whole_key,
};
use super::super::value::{
    lemma_xor_associates, lemma_xor_self, lemma_xor_zero, zero_bytes, OkvsV,
};
use blake2::digest::{Update, VariableOutput};
use blake2::{Blake2b512, Blake2bVar, Digest};
use vstd::prelude::*;
use vstd::slice::slice_subrange;

verus! {

/// Whether bit `index` of the register is set.
pub fn bit(u: &PackedBand, index: usize) -> (r: bool)
    requires
        index < 256,
    ensures
        r == u@[index as int],
{
    let (word, place): (u64, u64) = if index < 64 {
        (u.0[0], index as u64)
    } else if index < 128 {
        (u.0[1], (index - 64) as u64)
    } else if index < 192 {
        (u.0[2], (index - 128) as u64)
    } else {
        (u.0[3], (index - 192) as u64)
    };
    assert(word == u.0[index as int / 64] && place == index as int % 64);
    assert((word & (1u64 << place) != 0) == ((word >> place) & 1 == 1)) by (bit_vector)
        requires
            place < 64,
    ;
    word & (1u64 << place) != 0
}

/// Adds the band `a` to the band `b`, where bit `start_a` of `a` and bit
/// `start_b` of `b` stand for the same column.
pub fn xor(a: PackedBand, b: PackedBand, start_a: usize, start_b: usize) -> (r: PackedBand)
    ensures
        r@ == xor_aligned(a@, b@, start_a as int, start_b as int),
{
    if start_a == start_b {
        let r = bit_xor(&b, &a);
        assert(r@ =~= xor_aligned(a@, b@, start_a as int, start_b as int));
        r
    } else if start_a < start_b {
        let diff = start_b - start_a;
        let moved = shift_right(&b, diff);
        let sum = bit_xor(&moved, &a);
        let r = shift_left(&sum, diff);
        assert(r@ =~= xor_aligned(a@, b@, start_a as int, start_b as int));
        r
    } else {
        let diff = start_a - start_b;
        let moved = shift_left(&b, diff);
        let sum = bit_xor(&moved, &a);
        let r = shift_right(&sum, diff);
        assert(r@ =~= xor_aligned(a@, b@, start_a as int, start_b as int));
        r
    }
}

/// The exclusive or of the values `x[j]` over the set bits `j` of `m`.
pub fn inner_product<V: OkvsV>(m: &PackedBand, x: &[V]) -> (r: V)
    requires
        forall|j: int| 0 <= j < 256 && m@[j] ==> j < x@.len(),
    ensures
        r.bytes() == row_sum(m@, 0, x@, x@.len() as int),
{
    let mut result = V::default();
    let used = bits(m);
    proof {
        lemma_used_bits(m@);
    }
    let mut limb: usize = 0;
    while limb < 4 && 64 * limb < used
        invariant
            limb <= 4,
            used <= 256,
            used > 0 ==> m@[used - 1],
            forall|j: int| 0 <= j < 256 && m@[j] ==> j < x@.len(),
            forall|j: int| used <= j < 256 ==> !m@[j],
            64 * limb <= used ==> result.bytes() == row_sum(m@, 0, x@, 64 * limb as int),
            64 * limb > used ==> result.bytes() == row_sum(m@, 0, x@, used as int),
        decreases 4 - limb,
    {
        let word = m.0[limb];
        let base = 64 * limb;
        let top: usize = if used - base < 64 {
            used - base
        } else {
            64
        };
        let mut i: usize = 0;
        while i < top
            invariant
                limb < 4,
                base == 64 * limb,
                i <= top <= 64,
                base + top <= used <= 256,
                top == 64 || base + top == used,
                word == m.0[limb as int],
                forall|j: int| 0 <= j < 256 && m@[j] ==> j < x@.len(),
                used > 0 ==> m@[used - 1],
                result.bytes() == row_sum(m@, 0, x@, base + i),
            decreases top - i,
        {
            let place = i as u64;
            assert((word & (1u64 << place) != 0) == ((word >> place) & 1 == 1)) by (bit_vector)
                requires
                    place < 64,
            ;
            assert(m@[base + i] == limb_bit(m.0[(base + i) / 64], (base + i) % 64));
            assert(covers(m@, 0, base + i) == m@[base + i]);
            if word & (1u64 << place) != 0 {
                result.in_place_xor(&x[base + i]);
            }
            i += 1;
        }
        limb += 1;
    }
    proof {
        lemma_row_sum_stable(m@, 0, x@, used as int, x@.len() as int);
    }
    result
}

/// Solves a banded system over the exclusive or of values.
///
/// Row `r` says that the values of the columns `start_pos[r] + j`, over the
/// set bits `j` of `bands[r]`, add up to `y[r]`. The rows come sorted by
/// start. One forward pass picks for each row the column of its lowest set
/// bit as pivot and adds the row to the later rows that have that column
/// set; back substitution then fixes the pivot columns, last row first, and
/// leaves every other column zero.
///
/// Fails with `ZeroRow(i)` where row `i` is the first that elimination finds
/// without a set bit.
pub fn simple_gauss<V: OkvsV>(
    y: Vec<V>,
    bands: Vec<PackedBand>,
    start_pos: Vec<usize>,
    cols: usize,
) -> (r: Result<Vec<V>, Error>)
    requires
        bands.len() == start_pos.len(),
        bands.len() == y.len(),
        sorted_starts(start_pos@),
        rows_fit(views(bands@), start_pos@, cols as int),
    ensures
        match r {
            Ok(x) => {
                &&& x.len() == cols
                &&& forall|i: int|
                    0 <= i < bands.len() ==> !is_zero_band(
                        #[trigger] pivot_row(views(bands@), start_pos@, i),
                    )
                &&& solves(views(bands@), start_pos@, y@, x@)
                &&& forall|c: int|
                    0 <= c < cols && !is_pivot_col(views(bands@), start_pos@, c) ==> (
                    #[trigger] x[c]).bytes() == zero_bytes(V::width())
            },
            Err(e) => {
                &&& e matches Error::ZeroRow(i)
                &&& i < bands.len()
                &&& is_zero_band(pivot_row(views(bands@), start_pos@, i as int))
                &&& forall|m: int|
                    0 <= m < i ==> !is_zero_band(#[trigger] pivot_row(views(bands@), start_pos@, m))
            },
        },
{
    let mut ys = y;
    let mut rows_b = bands;
    let rows = rows_b.len();
    let ghost b0 = views(rows_b@);
    let ghost y0 = ys@;
    let ghost starts = start_pos@;
    let mut pivot: Vec<usize> = Vec::new();
    let mut i: usize = 0;
    while i < rows
        invariant
            rows == rows_b.len(),
            rows == start_pos.len(),
            rows == ys.len(),
            rows == b0.len(),
            rows == y0.len(),
            starts == start_pos@,
            b0 == views(bands@),
            y0 == y@,
            sorted_starts(starts),
            i <= rows,
            pivot.len() == i,
            views(rows_b@) == reduced(b0, starts, i as int),
            rows_fit(views(rows_b@), starts, cols as int),
            entails(views(rows_b@), ys@, b0, y0, starts, cols as nat),
            forall|m: int| 0 <= m < i ==> !is_zero_band(#[trigger] pivot_row(b0, starts, m)),
            forall|m: int| 0 <= m < i ==> #[trigger] pivot[m] == pivot_col(b0, starts, m),
            pivots_set(views(rows_b@), starts, pivot@, i as int),
            cleared(views(rows_b@), starts, pivot@, i as int),
        decreases rows - i,
    {
        let ghost prev = views(rows_b@);
        let lead = rows_b[i];
        assert(lead@ == prev[i as int]);
        assert(row_fits(prev[i as int], starts[i as int] as int, cols as int));
        let first_one = trailing_zeros(&lead);
        proof {
            lemma_lowest_set(lead@);
        }
        if first_one == 256 {
            proof {
                lemma_reduced_len(b0, starts, i as int);
                assert(pivot_row(b0, starts, i as int) == lead@);
                assert(is_zero_band(lead@));
            }
            return Err(Error::ZeroRow(i));
        }
        let p = first_one + start_pos[i];
        pivot.push(p);
        assert(covers(prev[i as int], starts[i as int] as int, p as int));
        let mut k: usize = i + 1;
        assert(views(rows_b@) =~= reduce_upto(prev, starts, i as int, k as int));
        while k < rows && start_pos[k] <= p
            invariant
                rows == rows_b.len(),
                rows == start_pos.len(),
                rows == ys.len(),
                rows == b0.len(),
                rows == y0.len(),
                rows == prev.len(),
                starts == start_pos@,
                sorted_starts(starts),
                i < k <= rows,
                pivot.len() == i + 1,
                pivot[i as int] == p,
                lead@ == prev[i as int],
                rows_b[i as int] == lead,
                first_one == lowest_set(lead@),
                first_one < 256,
                p == first_one + starts[i as int],
                rows_fit(prev, starts, cols as int),
                views(rows_b@) == reduce_upto(prev, starts, i as int, k as int),
                rows_fit(views(rows_b@), starts, cols as int),
                entails(views(rows_b@), ys@, b0, y0, starts, cols as nat),
                pivots_set(views(rows_b@), starts, pivot@, i + 1),
                cleared(views(rows_b@), starts, pivot@, i as int),
                forall|r: int|
                    i < r < k ==> !#[trigger] covers(views(rows_b@)[r], starts[r] as int, p as int),
            decreases rows - k,
        {
            let ghost cur_b = views(rows_b@);
            let ghost cur_y = ys@;
            let other = rows_b[k];
            assert(other@ == cur_b[k as int]);
            assert(other@ == prev[k as int]);
            assert(row_fits(cur_b[k as int], starts[k as int] as int, cols as int));
            assert(row_fits(cur_b[i as int], starts[i as int] as int, cols as int));
            if bit(&other, p - start_pos[k]) {
                let sum = xor(lead, other, first_one, p - start_pos[k]);
                let t = ys[k].xor(&ys[i]);
                proof {
                    lemma_add_rows(
                        lead@,
                        starts[i as int] as int,
                        other@,
                        starts[k as int] as int,
                        cols as int,
                    );
                }
                rows_b[k] = sum;
                ys[k] = t;
                proof {
                    let new_b = views(rows_b@);
                    let new_y = ys@;
                    assert(new_b =~= cur_b.update(k as int, sum@));
                    assert(new_b =~= reduce_upto(prev, starts, i as int, k + 1));
                    assert forall|r: int| 0 <= r < new_b.len() implies row_fits(
                        #[trigger] new_b[r],
                        starts[r] as int,
                        cols as int,
                    ) by {
                        if r != k {
                            assert(new_b[r] == cur_b[r]);
                        }
                    }
                    assert forall|xs: Seq<V>|
                        xs.len() == cols as nat && #[trigger] solves(
                            new_b,
                            starts,
                            new_y,
                            xs,
                        ) implies solves(b0, starts, y0, xs) by {
                        lemma_step_keeps_solutions(
                            cur_b,
                            cur_y,
                            new_b,
                            new_y,
                            starts,
                            i as int,
                            k as int,
                            xs,
                        );
                        assert(solves(cur_b, starts, cur_y, xs));
                    }
                    assert forall|m: int| 0 <= m < i + 1 implies #[trigger] covers(
                        new_b[m],
                        starts[m] as int,
                        pivot@[m] as int,
                    ) by {
                        assert(covers(cur_b[m], starts[m] as int, pivot@[m] as int));
                    }
                    assert forall|m: int, r: int| 0 <= m < i && m < r < new_b.len() implies !#[trigger] covers(
                        new_b[r],
                        starts[r] as int,
                        pivot@[m] as int,
                    ) by {
                        assert(!covers(cur_b[r], starts[r] as int, pivot@[m] as int));
                        assert(!covers(cur_b[i as int], starts[i as int] as int, pivot@[m] as int));
                    }
                    assert forall|r: int| i < r < k + 1 implies !#[trigger] covers(
                        new_b[r],
                        starts[r] as int,
                        p as int,
                    ) by {
                        if r < k {
                            assert(!covers(cur_b[r], starts[r] as int, p as int));
                        }
                    }
                }
            } else {
                proof {
                    assert(cur_b =~= reduce_upto(prev, starts, i as int, k + 1));
                }
            }
            k += 1;
        }
        proof {
            let cur_b = views(rows_b@);
            assert(cur_b =~= reduce_by(prev, starts, i as int)) by {
                assert forall|r: int| k <= r < rows implies reduce_by(prev, starts, i as int)[r]
                    == prev[r] by {
                    assert(starts[k as int] <= starts[r]);
                }
            }
            assert forall|m: int, r: int| 0 <= m < i + 1 && m < r < cur_b.len() implies !#[trigger] covers(
                cur_b[r],
                starts[r] as int,
                pivot@[m] as int,
            ) by {
                if m == i {
                    if r >= k {
                        assert(starts[k as int] <= starts[r]);
                    } else {
                        assert(!covers(views(rows_b@)[r], starts[r] as int, p as int));
                    }
                } else {
                    assert(!covers(cur_b[r], starts[r] as int, pivot@[m] as int));
                }
            }
        }
        i += 1;
    }
    let ghost cur = views(rows_b@);
    let mut x: Vec<V> = Vec::new();
    let mut c: usize = 0;
    while c < cols
        invariant
            c <= cols,
            x.len() == c,
            forall|j: int| 0 <= j < c ==> (#[trigger] x[j]).bytes() == zero_bytes(V::width()),
        decreases cols - c,
    {
        x.push(V::default());
        c += 1;
    }
    let mut i: usize = rows;
    while i > 0
        invariant
            rows == rows_b.len(),
            rows == start_pos.len(),
            rows == ys.len(),
            rows == pivot.len(),
            rows == cur.len(),
            starts == start_pos@,
            cur == views(rows_b@),
            i <= rows,
            x.len() == cols,
            rows_fit(cur, starts, cols as int),
            pivots_set(cur, starts, pivot@, rows as int),
            cleared(cur, starts, pivot@, rows as int),
            forall|r: int| i <= r < rows ==> #[trigger] row_ok(cur, starts, ys@, x@, r),
            forall|j: int|
                0 <= j < cols && !chosen_from(pivot@, i as int, j) ==> (#[trigger] x[j]).bytes()
                    == zero_bytes(V::width()),
        decreases i,
    {
        i -= 1;
        let s = start_pos[i];
        let p = pivot[i];
        let ghost band = cur[i as int];
        let ghost before = x@;
        assert(rows_b[i as int]@ == band);
        assert(row_fits(cur[i as int], starts[i as int] as int, cols as int));
        assert(covers(cur[i as int], starts[i as int] as int, pivot@[i as int] as int));
        let tail = slice_subrange(x.as_slice(), s, cols);
        let sum = inner_product(&rows_b[i], tail);
        let v = sum.xor(&ys[i]);
        proof {
            lemma_row_sum_tail(band, before, s as int, cols - s);
            assert(!chosen_from(pivot@, i + 1, p as int)) by {
                if chosen_from(pivot@, i + 1, p as int) {
                    let r = choose|r: int| i + 1 <= r < pivot@.len() && #[trigger] pivot@[r] == p as int;
                    assert(covers(cur[r], starts[r] as int, pivot@[r] as int));
                    assert(!covers(cur[r], starts[r] as int, pivot@[i as int] as int));
                }
            }
            assert(before[p as int].bytes() == zero_bytes(V::width()));
        }
        x[p] = v;
        proof {
            let after = x@;
            assert(after =~= before.update(p as int, v));
            let total = row_sum(band, s as int, before, cols as int);
            lemma_row_sum_update(band, s as int, before, p as int, v, cols as int);
            lemma_row_sum_width(band, s as int, before, cols as int);
            ys@[i as int].lemma_width();
            lemma_xor_associates(total, total, ys@[i as int].bytes());
            lemma_xor_self(total);
            lemma_xor_zero(ys@[i as int].bytes());
            assert(row_ok(cur, starts, ys@, after, i as int));
            assert forall|r: int| i < r < rows implies #[trigger] row_ok(cur, starts, ys@, after, r) by {
                assert(row_ok(cur, starts, ys@, before, r));
                assert(!covers(cur[r], starts[r] as int, pivot@[i as int] as int));
                lemma_row_sum_agrees(
                    cur[r],
                    starts[r] as int,
                    before,
                    cur[r],
                    starts[r] as int,
                    after,
                    cols as int,
                );
            }
            assert forall|j: int| 0 <= j < cols && !chosen_from(pivot@, i as int, j) implies (
            #[trigger] x[j]).bytes() == zero_bytes(V::width()) by {
                assert(j != p) by {
                    if j == p {
                        assert(pivot@[i as int] == j);
                    }
                }
                assert(!chosen_from(pivot@, i + 1, j)) by {
                    if chosen_from(pivot@, i + 1, j) {
                        let r = choose|r: int| i + 1 <= r < pivot@.len() && #[trigger] pivot@[r] == j;
                        assert(pivot@[r] == j);
                    }
                }
                assert(before[j].bytes() == zero_bytes(V::width()));
            }
        }
    }
    proof {
        assert(solves(cur, starts, ys@, x@));
        assert forall|j: int| 0 <= j < cols && !is_pivot_col(b0, starts, j) implies (#[trigger] x[j]).bytes()
            == zero_bytes(V::width()) by {
            if chosen_from(pivot@, 0, j) {
                let r = choose|r: int| 0 <= r < pivot@.len() && #[trigger] pivot@[r] == j;
                assert(pivot_col(b0, starts, r) == j);
            }
        }
    }
    Ok(x)
}

/// Sorts the pairs by their second component, ascending. Pairs with the
/// same second component keep their order. No second component may exceed
/// `max`.
pub fn radix_sort(arr: &mut Vec<(usize, usize)>, max: usize)
    requires
        forall|i: int| 0 <= i < old(arr)@.len() ==> (#[trigger] old(arr)@[i]).1 <= max,
    ensures
        final(arr)@ == stable_by_second(old(arr)@, max + 1),
{
    let ghost s0 = arr@;
    let mut exp: usize = 1;
    let mut more = max != 0;
    let ghost mut bound: int = 1;
    proof {
        assert forall|i: int| 0 <= i < s0.len() implies 0 <= #[trigger] low_key(1)(s0[i].1) < 1 by {}
        lemma_sorted_by_nothing(s0);
    }
    while more
        invariant
            1 <= exp,
            more ==> bound == exp && exp <= max,
            !more ==> bound > max,
            bound >= 1,
            arr@ == span(s0, low_key(bound), 0, bound),
        decreases
                (if more {
                    max - exp + 1
                } else {
                    0
                }),
    {
        let sorted = count_sort(arr, exp);
        *arr = sorted;
        proof {
            lemma_radix_pass(s0, exp as int, 10);
            assert(10 * exp == exp * 10) by (nonlinear_arith);
            bound = exp * 10;
            vstd::arithmetic::div_mod::lemma_fundamental_div_mod(max as int, exp as int);
            vstd::arithmetic::div_mod::lemma_mod_bound(max as int, exp as int);
        }
        let quotient = max / exp;
        let ghost rest = (max as int) % (exp as int);
        if quotient < 10 {
            assert(max < exp * 10) by (nonlinear_arith)
                requires
                    max == exp * quotient + rest,
                    0 <= rest < exp,
                    quotient < 10,
                    exp >= 1,
            ;
            more = false;
        } else {
            assert(exp * 10 <= max) by (nonlinear_arith)
                requires
                    max == exp * quotient + rest,
                    0 <= rest < exp,
                    quotient >= 10,
                    exp >= 1,
            ;
            exp = exp * 10;
        }
    }
    proof {
        assert forall|i: int| 0 <= i < s0.len() implies #[trigger] low_key(bound)(s0[i].1)
            == whole_key()(s0[i].1) by {
            vstd::arithmetic::div_mod::lemma_small_mod(s0[i].1 as nat, bound as nat);
        }
        lemma_span_same_keys(s0, low_key(bound), whole_key(), 0, bound);
        assert forall|i: int| 0 <= i < s0.len() implies #[trigger] whole_key()(s0[i].1) < max
            + 1 by {}
        lemma_span_past_keys(s0, whole_key(), 0, max + 1, bound);
    }
}

/// With every item under the one key 0, the only bucket is the sequence
/// itself.
proof fn lemma_sorted_by_nothing(s: Seq<(usize, usize)>)
    ensures
        span(s, low_key(1), 0, 1) == s,
    decreases s.len(),
{
    assert(span(s, low_key(1), 0, 0) =~= Seq::<(usize, usize)>::empty());
    assert(span(s, low_key(1), 0, 1) =~= bucket(s, low_key(1), 0));
    lemma_one_bucket(s);
}

proof fn lemma_one_bucket(s: Seq<(usize, usize)>)
    ensures
        bucket(s, low_key(1), 0) == s,
    decreases s.len(),
{
    if s.len() > 0 {
        lemma_one_bucket(s.drop_last());
        assert(s.drop_last().push(s.last()) =~= s);
    } else {
        assert(s =~= Seq::<(usize, usize)>::empty());
    }
}

/// The key whose bucket holds position `o` of a span.
proof fn block_of(s: Seq<(usize, usize)>, key: spec_fn(usize) -> int, hi: int, o: int) -> (d: int)
    requires
        0 <= o < span(s, key, 0, hi).len(),
    ensures
        0 <= d < hi,
        span(s, key, 0, d).len() <= o < span(s, key, 0, d + 1).len(),
    decreases hi,
{
    if o >= span(s, key, 0, hi - 1).len() {
        hi - 1
    } else {
        block_of(s, key, hi - 1, o)
    }
}

/// Sorts the pairs by the decimal digit of weight `exp` of their second
/// component, ascending. Pairs with the same digit keep their order.
pub fn count_sort(arr: &Vec<(usize, usize)>, exp: usize) -> (out: Vec<(usize, usize)>)
    requires
        exp > 0,
    ensures
        out@ == span(arr@, digit_key(exp as int), 0, 10),
{
    let n = arr.len();
    let ghost key = digit_key(exp as int);
    let ghost target = span(arr@, key, 0, 10);
    proof {
        assert forall|i: int| 0 <= i < arr@.len() implies 0 <= #[trigger] key(arr@[i].1) < 10 by {}
        lemma_span_len(arr@, key, 0, 10);
    }
    let mut count = [0usize;10];
    proof {
        vstd::array::axiom_spec_array_fill_for_copy_type::<usize, 10>(0usize);
    }
    let mut j: usize = 0;
    while j < n
        invariant
            j <= n,
            n == arr.len(),
            exp > 0,
            key == digit_key(exp as int),
            forall|d: int|
                0 <= d < 10 ==> #[trigger] count@[d] == bucket(arr@.take(j as int), key, d).len(),
        decreases n - j,
    {
        let d = (arr[j].1 / exp) % 10;
        proof {
            lemma_bucket_place(arr@, key, j as int);
            lemma_bucket_len(arr@.take(j + 1), key, d as int);
            assert(key(arr@[j as int].1) == d);
        }
        count[d] += 1;
        j += 1;
    }
    assert(arr@.take(n as int) =~= arr@);
    let mut i: usize = 1;
    assert(span(arr@, key, 0, 1) =~= bucket(arr@, key, 0)) by {
        assert(span(arr@, key, 0, 0) =~= Seq::<(usize, usize)>::empty());
    }
    while i < 10
        invariant
            1 <= i <= 10,
            target == span(arr@, key, 0, 10),
            target.len() == n,
            forall|d: int| 0 <= d < i ==> #[trigger] count@[d] == span(arr@, key, 0, d + 1).len(),
            forall|d: int| i <= d < 10 ==> #[trigger] count@[d] == bucket(arr@, key, d).len(),
        decreases 10 - i,
    {
        proof {
            lemma_span_grows(arr@, key, 0, i + 1, 10);
        }
        count[i] += count[i - 1];
        i += 1;
    }
    let mut output: Vec<(usize, usize)> = Vec::new();
    let mut c: usize = 0;
    while c < n
        invariant
            c <= n,
            output.len() == c,
        decreases n - c,
    {
        output.push((0usize, 0usize));
        c += 1;
    }
    let mut j: usize = n;
    while j > 0
        invariant
            j <= n,
            n == arr.len(),
            exp > 0,
            key == digit_key(exp as int),
            output.len() == n,
            target == span(arr@, key, 0, 10),
            target.len() == n,
            forall|d: int|
                0 <= d < 10 ==> #[trigger] count@[d] == span(arr@, key, 0, d).len() + bucket(
                    arr@.take(j as int),
                    key,
                    d,
                ).len(),
            forall|d: int, o: int|
                #![trigger count@[d], output@[o]]
                0 <= d < 10 && count@[d] <= o < span(arr@, key, 0, d + 1).len() ==> output@[o]
                    == target[o],
        decreases j,
    {
        j -= 1;
        let e = arr[j];
        let d = (e.1 / exp) % 10;
        let ghost before = bucket(arr@.take(j as int), key, d as int).len();
        let ghost old_count = count@;
        let ghost old_output = output@;
        proof {
            assert(key(arr@[j as int].1) == d);
            lemma_bucket_place(arr@, key, j as int);
            lemma_span_place(arr@, key, 0, 10, d as int, before as int);
        }
        count[d] -= 1;
        let pos = count[d];
        output[pos] = e;
        proof {
            assert(output@ =~= old_output.update(pos as int, e));
            assert(target[pos as int] == e);
            assert forall|d2: int, o: int|
                #![trigger count@[d2], output@[o]]
                0 <= d2 < 10 && count@[d2] <= o < span(arr@, key, 0, d2 + 1).len() implies output@[o]
                    == target[o] by {
                lemma_span_grows(arr@, key, 0, d2 + 1, 10);
                if o != pos {
                    assert(old_count[d2] <= o);
                    assert(old_output[o] == target[o]);
                }
            }
        }
    }
    proof {
        assert(arr@.take(0) =~= Seq::<(usize, usize)>::empty());
        assert forall|o: int| 0 <= o < n implies output@[o] == target[o] by {
            let d = block_of(arr@, key, 10, o);
            assert(count@[d] == span(arr@, key, 0, d).len());
        }
        assert(output@ =~= target);
    }
    output
}

/// The BLAKE2b digest of `data` for an output of `size` bytes, as
/// `Blake2bVar` computes it.
pub uninterp spec fn blake2b_var_digest(data: Seq<u8>, size: nat) -> Seq<u8>;

/// The BLAKE2b-512 digest of `data`, as `Blake2b512` computes it.
pub uninterp spec fn blake2b512_digest(data: Seq<u8>) -> Seq<u8>;

/// Hashes `data` with `Blake2bVar` to `N` bytes: `new(N)`, `update(data)`,
/// `finalize_variable`. `Blake2bVar::new` refuses more than 64 bytes.
#[verifier::external_body]
pub fn blake2b<const N: usize>(data: &[u8]) -> (out: [u8; N])
    requires
        N <= 64,
    ensures
        out@ == blake2b_var_digest(data@, N as nat),
{
    let mut hasher = Blake2bVar::new(N).unwrap();
    hasher.update(data);
    let mut buf = [0u8;N];
    hasher.finalize_variable(&mut buf).unwrap();
    buf
}

/// Hashes `data` with `Blake2b512`: `new`, `update(data)`, `finalize`. The
/// digest has 64 bytes.
#[verifier::external_body]
fn blake2b512(data: &[u8]) -> (out: Vec<u8>)
    ensures
        out@ == blake2b512_digest(data@),
        out@.len() == 64,
{
    let mut hasher = Blake2b512::new();
    Digest::update(&mut hasher, data);
    hasher.finalize().to_vec()
}

/// The 64 bytes of the BLAKE2b-512 digest of `data`.
pub open spec fn digest_block(data: Seq<u8>) -> Seq<u8> {
    Seq::new(64, |i: int| blake2b512_digest(data)[i])
}

/// What `hash` returns: the digest of `data` over and over until `size`
/// bytes are reached, the last copy cut short.
pub open spec fn hash_bytes(data: Seq<u8>, size: nat) -> Seq<u8>
    decreases size,
{
    if size <= 64 {
        digest_block(data).take(size as int)
    } else {
        digest_block(data) + hash_bytes(data, (size - 64) as nat)
    }
}

pub proof fn lemma_hash_bytes_len(data: Seq<u8>, size: nat)
    ensures
        hash_bytes(data, size).len() == size,
    decreases size,
{
    if size > 64 {
        lemma_hash_bytes_len(data, (size - 64) as nat);
    }
}

/// Stretches the BLAKE2b-512 digest of `data` to `to_bytes_size` bytes.
pub fn hash(data: &[u8], to_bytes_size: usize) -> (out: Vec<u8>)
    ensures
        out@ == hash_bytes(data@, to_bytes_size as nat),
        out@.len() == to_bytes_size,
{
    let digest = blake2b512(data);
    assert(digest@ =~= digest_block(data@));
    let mut result: Vec<u8> = Vec::new();
    let mut left = to_bytes_size;
    while left > 64
        invariant
            digest@ == digest_block(data@),
            left <= to_bytes_size,
            result@.len() + left == to_bytes_size,
            result@ + hash_bytes(data@, left as nat) == hash_bytes(data@, to_bytes_size as nat),
        decreases left,
    {
        let ghost before = result@;
        let mut i: usize = 0;
        while i < 64
            invariant
                i <= 64,
                digest@.len() == 64,
                result@ == before + digest@.take(i as int),
            decreases 64 - i,
        {
            result.push(digest[i]);
            assert(digest@.take(i + 1) =~= digest@.take(i as int).push(digest@[i as int]));
            i += 1;
        }
        assert(digest@.take(64) =~= digest@);
        assert((before + digest@) + hash_bytes(data@, (left - 64) as nat) =~= before + hash_bytes(
            data@,
            left as nat,
        ));
        left -= 64;
    }
    let ghost before = result@;
    let mut i: usize = 0;
    while i < left
        invariant
            i <= left <= 64,
            digest@.len() == 64,
            result@ == before + digest@.take(i as int),
        decreases left - i,
    {
        result.push(digest[i]);
        assert(digest@.take(i + 1) =~= digest@.take(i as int).push(digest@[i as int]));
        i += 1;
    }
    proof {
        lemma_hash_bytes_len(data@, to_bytes_size as nat);
    }
    result
}

} // verus!
