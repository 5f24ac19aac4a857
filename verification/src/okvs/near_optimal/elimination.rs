use super::band::{lemma_lowest_set, lowest_set, xor_aligned, PackedBand};
use super::linear::{covers, lemma_row_sum_xor, lemma_xor_undo, lemma_row_sum_width, row_sum};
use super::value::{xor_bytes, OkvsV};
use vstd::prelude::*;

verus! {

/// The bits of each register, row by row.
pub open spec fn views(bands: Seq<PackedBand>) -> Seq<Seq<bool>> {
    Seq::new(bands.len(), |r: int| bands[r]@)
}

/// The band is 256 bits long, all its set bits lie among the low 128, and
/// each stands for a column below `cols`. Two bands of that shape can be
/// laid over one another inside one register without losing a bit.
pub open spec fn row_fits(band: Seq<bool>, start: int, cols: int) -> bool {
    &&& band.len() == 256
    &&& forall|j: int| 0 <= j < 256 && band[j] ==> j < 128 && start + j < cols
}

pub open spec fn rows_fit(bands: Seq<Seq<bool>>, starts: Seq<usize>, cols: int) -> bool {
    forall|r: int| 0 <= r < bands.len() ==> row_fits(#[trigger] bands[r], starts[r] as int, cols)
}

pub open spec fn sorted_starts(starts: Seq<usize>) -> bool {
    forall|a: int, b: int| 0 <= a <= b < starts.len() ==> starts[a] <= starts[b]
}

/// Whether the band has no set bit.
pub open spec fn is_zero_band(band: Seq<bool>) -> bool {
    lowest_set(band) == band.len()
}

/// The rows after row `i` has served as pivot row: its lowest set bit names
/// the pivot column, and row `i` is added to every later row that has that
/// column set.
pub open spec fn reduce_by(bands: Seq<Seq<bool>>, starts: Seq<usize>, i: int) -> Seq<Seq<bool>> {
    let first = lowest_set(bands[i]);
    let p = starts[i] + first;
    Seq::new(
        bands.len(),
        |k: int|
            if k > i && starts[k] <= p && bands[k][p - starts[k]] {
                xor_aligned(bands[i], bands[k], first, p - starts[k])
            } else {
                bands[k]
            },
    )
}

/// The rows after the first `n` of them have served as pivot rows, in
/// order.
pub open spec fn reduced(bands: Seq<Seq<bool>>, starts: Seq<usize>, n: int) -> Seq<Seq<bool>>
    decreases n,
{
    if n <= 0 {
        bands
    } else {
        reduce_by(reduced(bands, starts, n - 1), starts, n - 1)
    }
}

/// Row `i` as elimination finds it when its turn as pivot row comes.
pub open spec fn pivot_row(bands: Seq<Seq<bool>>, starts: Seq<usize>, i: int) -> Seq<bool> {
    reduced(bands, starts, i)[i]
}

/// The column that row `i` is solved for.
pub open spec fn pivot_col(bands: Seq<Seq<bool>>, starts: Seq<usize>, i: int) -> int {
    starts[i] + lowest_set(pivot_row(bands, starts, i))
}

/// The first of the rows below `upto` that elimination finds without a
/// set bit when its turn as pivot row comes, if there is one.
pub open spec fn first_zero_row(bands: Seq<Seq<bool>>, starts: Seq<usize>, upto: int) -> Option<
    int,
>
    decreases upto,
{
    if upto <= 0 {
        None
    } else {
        match first_zero_row(bands, starts, upto - 1) {
            Some(i) => Some(i),
            None => if is_zero_band(pivot_row(bands, starts, upto - 1)) {
                Some(upto - 1)
            } else {
                None
            },
        }
    }
}

/// `first_zero_row` names a zero row before which no row is zero, or says
/// that no row is.
pub proof fn lemma_first_zero_row(bands: Seq<Seq<bool>>, starts: Seq<usize>, upto: int)
    ensures
        match first_zero_row(bands, starts, upto) {
            Some(i) => {
                &&& 0 <= i < upto
                &&& is_zero_band(pivot_row(bands, starts, i))
                &&& forall|m: int| 0 <= m < i ==> !is_zero_band(#[trigger] pivot_row(bands, starts, m))
            },
            None => forall|m: int|
                0 <= m < upto ==> !is_zero_band(#[trigger] pivot_row(bands, starts, m)),
        },
    decreases upto,
{
    if upto > 0 {
        lemma_first_zero_row(bands, starts, upto - 1);
    }
}

/// A zero row before which no row is zero is the one that `first_zero_row`
/// names.
pub proof fn lemma_first_zero_row_is(
    bands: Seq<Seq<bool>>,
    starts: Seq<usize>,
    upto: int,
    i: int,
)
    requires
        0 <= i < upto,
        is_zero_band(pivot_row(bands, starts, i)),
        forall|m: int| 0 <= m < i ==> !is_zero_band(#[trigger] pivot_row(bands, starts, m)),
    ensures
        first_zero_row(bands, starts, upto) == Some(i),
{
    lemma_first_zero_row(bands, starts, upto);
    match first_zero_row(bands, starts, upto) {
        Some(j) => {
            if j < i {
                assert(!is_zero_band(pivot_row(bands, starts, j)));
            } else if i < j {
                assert(!is_zero_band(pivot_row(bands, starts, i)));
            }
        },
        None => {
            assert(!is_zero_band(pivot_row(bands, starts, i)));
        },
    }
}

pub open spec fn is_pivot_col(bands: Seq<Seq<bool>>, starts: Seq<usize>, c: int) -> bool {
    exists|i: int| 0 <= i < bands.len() && #[trigger] pivot_col(bands, starts, i) == c
}

/// Whether the values `xs` meet the equation of row `r`.
pub open spec fn row_ok<V: OkvsV>(
    bands: Seq<Seq<bool>>,
    starts: Seq<usize>,
    ys: Seq<V>,
    xs: Seq<V>,
    r: int,
) -> bool {
    row_sum(bands[r], starts[r] as int, xs, xs.len() as int) == ys[r].bytes()
}

/// Whether the values `xs` meet the equation of every row.
pub open spec fn solves<V: OkvsV>(
    bands: Seq<Seq<bool>>,
    starts: Seq<usize>,
    ys: Seq<V>,
    xs: Seq<V>,
) -> bool {
    forall|r: int| 0 <= r < bands.len() ==> #[trigger] row_ok(bands, starts, ys, xs, r)
}

/// Every solution of the first system over `cols` columns solves the
/// second.
pub open spec fn entails<V: OkvsV>(
    b1: Seq<Seq<bool>>,
    y1: Seq<V>,
    b0: Seq<Seq<bool>>,
    y0: Seq<V>,
    starts: Seq<usize>,
    cols: nat,
) -> bool {
    forall|xs: Seq<V>|
        xs.len() == cols && #[trigger] solves(b1, starts, y1, xs) ==> solves(b0, starts, y0, xs)
}

/// The rows below `k` as `reduce_by` leaves them, the others untouched.
pub open spec fn reduce_upto(bands: Seq<Seq<bool>>, starts: Seq<usize>, i: int, k: int) -> Seq<
    Seq<bool>,
> {
    Seq::new(
        bands.len(),
        |r: int|
            if r < k {
                reduce_by(bands, starts, i)[r]
            } else {
                bands[r]
            },
    )
}

/// No row after row `m` covers the pivot column of row `m`, for the first
/// `n` rows.
pub open spec fn cleared(bands: Seq<Seq<bool>>, starts: Seq<usize>, pivots: Seq<usize>, n: int) -> bool {
    forall|m: int, r: int|
        0 <= m < n && m < r < bands.len() ==> !#[trigger] covers(
            bands[r],
            starts[r] as int,
            pivots[m] as int,
        )
}

/// Each of the first `n` rows covers its own pivot column.
pub open spec fn pivots_set(bands: Seq<Seq<bool>>, starts: Seq<usize>, pivots: Seq<usize>, n: int) -> bool {
    forall|m: int| 0 <= m < n ==> #[trigger] covers(bands[m], starts[m] as int, pivots[m] as int)
}

/// Whether `c` is the pivot column of one of the rows from `lo` on.
pub open spec fn chosen_from(pivots: Seq<usize>, lo: int, c: int) -> bool {
    exists|r: int| lo <= r < pivots.len() && #[trigger] pivots[r] == c
}

/// Adding the pivot row `a`, which starts at `s_a`, to a row `b` that starts
/// at `s_b`, not before `s_a` and not past `a`'s pivot column, gives a row
/// that covers a column exactly where one of the two does, and that fits.
pub proof fn lemma_add_rows(a: Seq<bool>, s_a: int, b: Seq<bool>, s_b: int, cols: int)
    requires
        row_fits(a, s_a, cols),
        row_fits(b, s_b, cols),
        !is_zero_band(a),
        0 <= s_a <= s_b <= s_a + lowest_set(a),
    ensures
        ({
            let first = lowest_set(a);
            let sum = xor_aligned(a, b, first, s_a + first - s_b);
            &&& row_fits(sum, s_b, cols)
            &&& forall|col: int| #[trigger]
                covers(sum, s_b, col) == (covers(b, s_b, col) != covers(a, s_a, col))
        }),
{
    lemma_lowest_set(a);
    let first = lowest_set(a);
    let d = s_b - s_a;
    let sum = xor_aligned(a, b, first, s_a + first - s_b);
    assert(a[first]);
    assert(first < 128);
    assert forall|j: int| 0 <= j < 256 && sum[j] implies j < 128 && s_b + j < cols by {
        if d == 0 {
            assert(a[j] || b[j]);
        } else {
            assert(b[j] || a[j + d]);
        }
    }
    assert forall|col: int| #[trigger]
        covers(sum, s_b, col) == (covers(b, s_b, col) != covers(a, s_a, col)) by {
        let j = col - s_b;
        if 0 <= j < 256 {
            if j + d >= 256 {
                assert(!b[j]);
            }
        } else if j < 0 {
            if 0 <= j + d {
                assert(j + d < first);
                assert(!a[j + d]);
            }
        }
    }
}

/// One elimination step loses no solution of the system before it: where
/// row `k` has become the sum of rows `k` and `i`, on both sides of its
/// equation, whatever solves the new rows solves the old.
pub proof fn lemma_step_keeps_solutions<V: OkvsV>(
    old_b: Seq<Seq<bool>>,
    old_y: Seq<V>,
    new_b: Seq<Seq<bool>>,
    new_y: Seq<V>,
    starts: Seq<usize>,
    i: int,
    k: int,
    xs: Seq<V>,
)
    requires
        0 <= i < old_b.len(),
        0 <= k < old_b.len(),
        i != k,
        old_y.len() == old_b.len(),
        starts.len() == old_b.len(),
        new_b.len() == old_b.len(),
        new_y.len() == old_b.len(),
        forall|r: int| 0 <= r < old_b.len() && r != k ==> new_b[r] == old_b[r] && new_y[r] == old_y[r],
        new_y[k].bytes() == xor_bytes(old_y[k].bytes(), old_y[i].bytes()),
        forall|col: int| #[trigger]
            covers(new_b[k], starts[k] as int, col) == (covers(old_b[k], starts[k] as int, col)
                != covers(old_b[i], starts[i] as int, col)),
        solves(new_b, starts, new_y, xs),
    ensures
        solves(old_b, starts, old_y, xs),
{
    let n = xs.len() as int;
    assert forall|r: int| 0 <= r < old_b.len() implies #[trigger] row_ok(
        old_b,
        starts,
        old_y,
        xs,
        r,
    ) by {
        assert(row_ok(new_b, starts, new_y, xs, r));
        if r == k {
            assert(row_ok(new_b, starts, new_y, xs, i));
            let sk = row_sum(old_b[k], starts[k] as int, xs, n);
            let si = row_sum(old_b[i], starts[i] as int, xs, n);
            lemma_row_sum_xor(
                old_b[k],
                starts[k] as int,
                old_b[i],
                starts[i] as int,
                new_b[k],
                starts[k] as int,
                xs,
                n,
            );
            lemma_row_sum_width(old_b[k], starts[k] as int, xs, n);
            lemma_row_sum_width(old_b[i], starts[i] as int, xs, n);
            old_y[k].lemma_width();
            old_y[i].lemma_width();
            // sk ^ si == yk ^ yi and si == yi
            lemma_xor_undo(sk, si);
            lemma_xor_undo(old_y[k].bytes(), old_y[i].bytes());
        }
    }
}

pub proof fn lemma_reduced_len(bands: Seq<Seq<bool>>, starts: Seq<usize>, n: int)
    ensures
        reduced(bands, starts, n).len() == bands.len(),
    decreases n,
{
    if n > 0 {
        lemma_reduced_len(bands, starts, n - 1);
    }
}

} // verus!
