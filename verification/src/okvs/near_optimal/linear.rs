use super::value::{lemma_xor_associates, lemma_xor_commutes, lemma_xor_zero, xor_bytes, zero_bytes, OkvsV};
use vstd::prelude::*;

verus! {

/// Whether a band that starts at column `start` has a set bit at the
/// absolute column `col`.
pub open spec fn covers(band: Seq<bool>, start: int, col: int) -> bool {
    0 <= col - start < band.len() && band[col - start]
}

/// The exclusive or of the values `xs[col]` over the columns `col < c` that
/// the band covers: the left side of a row's equation, cut off at column
/// `c`.
pub open spec fn row_sum<V: OkvsV>(band: Seq<bool>, start: int, xs: Seq<V>, c: int) -> Seq<u8>
    decreases c,
{
    if c <= 0 {
        zero_bytes(V::width())
    } else {
        let rest = row_sum(band, start, xs, c - 1);
        if covers(band, start, c - 1) {
            xor_bytes(rest, xs[c - 1].bytes())
        } else {
            rest
        }
    }
}

pub proof fn lemma_row_sum_width<V: OkvsV>(band: Seq<bool>, start: int, xs: Seq<V>, c: int)
    ensures
        row_sum(band, start, xs, c).len() == V::width(),
    decreases c,
{
    if c > 0 {
        lemma_row_sum_width(band, start, xs, c - 1);
    }
}

/// Two rows that cover the same columns below `c`, over values that agree
/// on those columns, have the same sum.
pub proof fn lemma_row_sum_agrees<V: OkvsV>(
    b1: Seq<bool>,
    s1: int,
    xs1: Seq<V>,
    b2: Seq<bool>,
    s2: int,
    xs2: Seq<V>,
    c: int,
)
    requires
        forall|col: int| 0 <= col < c ==> covers(b1, s1, col) == covers(b2, s2, col),
        forall|col: int| 0 <= col < c && covers(b1, s1, col) ==> xs1[col].bytes() == xs2[col].bytes(),
    ensures
        row_sum(b1, s1, xs1, c) == row_sum(b2, s2, xs2, c),
    decreases c,
{
    if c > 0 {
        lemma_row_sum_agrees(b1, s1, xs1, b2, s2, xs2, c - 1);
    }
}

/// Columns that the band does not cover add nothing to the sum.
pub proof fn lemma_row_sum_stable<V: OkvsV>(band: Seq<bool>, start: int, xs: Seq<V>, c1: int, c2: int)
    requires
        c1 <= c2,
        forall|col: int| c1 <= col < c2 ==> !covers(band, start, col),
    ensures
        row_sum(band, start, xs, c1) == row_sum(band, start, xs, c2),
    decreases c2 - c1,
{
    if c1 < c2 {
        lemma_row_sum_stable(band, start, xs, c1, c2 - 1);
    }
}

/// The sum is linear in the band: where a third row covers exactly the
/// columns that one of two rows covers and the other does not, its sum is the
/// exclusive or of their sums.
pub proof fn lemma_row_sum_xor<V: OkvsV>(
    b1: Seq<bool>,
    s1: int,
    b2: Seq<bool>,
    s2: int,
    b3: Seq<bool>,
    s3: int,
    xs: Seq<V>,
    c: int,
)
    requires
        forall|col: int|
            0 <= col < c ==> covers(b3, s3, col) == (covers(b1, s1, col) != covers(b2, s2, col)),
    ensures
        row_sum(b3, s3, xs, c) == xor_bytes(row_sum(b1, s1, xs, c), row_sum(b2, s2, xs, c)),
    decreases c,
{
    let w = V::width();
    if c <= 0 {
        lemma_xor_zero(zero_bytes(w));
    } else {
        lemma_row_sum_xor(b1, s1, b2, s2, b3, s3, xs, c - 1);
        let r1 = row_sum(b1, s1, xs, c - 1);
        let r2 = row_sum(b2, s2, xs, c - 1);
        let v = xs[c - 1].bytes();
        lemma_row_sum_width(b1, s1, xs, c - 1);
        lemma_row_sum_width(b2, s2, xs, c - 1);
        xs[c - 1].lemma_width();
        let in1 = covers(b1, s1, c - 1);
        let in2 = covers(b2, s2, c - 1);
        if in1 && in2 {
            // (r1 ^ v) ^ (r2 ^ v) == r1 ^ r2
            lemma_xor_swap_cancel(r1, r2, v);
        } else if in1 {
            // (r1 ^ r2) ^ v == (r1 ^ v) ^ r2
            lemma_xor_associates(r1, r2, v);
            lemma_xor_commutes(r2, v);
            lemma_xor_associates(r1, v, r2);
        } else if in2 {
            lemma_xor_associates(r1, r2, v);
        }
    }
}

/// `(a ^ v) ^ (b ^ v) == a ^ b`.
pub proof fn lemma_xor_swap_cancel(a: Seq<u8>, b: Seq<u8>, v: Seq<u8>)
    requires
        a.len() == b.len(),
        b.len() == v.len(),
    ensures
        xor_bytes(xor_bytes(a, v), xor_bytes(b, v)) == xor_bytes(a, b),
{
    assert forall|i: int| 0 <= i < a.len() implies ((a[i] ^ v[i]) ^ (b[i] ^ v[i])) == (a[i] ^ b[i]) by {
        let x = a[i];
        let y = b[i];
        let z = v[i];
        assert(((x ^ z) ^ (y ^ z)) == (x ^ y)) by (bit_vector);
    }
    assert(xor_bytes(xor_bytes(a, v), xor_bytes(b, v)) =~= xor_bytes(a, b));
}

/// `(a ^ b) ^ b == a`.
pub proof fn lemma_xor_undo(a: Seq<u8>, b: Seq<u8>)
    requires
        a.len() == b.len(),
    ensures
        xor_bytes(xor_bytes(a, b), b) == a,
{
    assert forall|i: int| 0 <= i < a.len() implies ((a[i] ^ b[i]) ^ b[i]) == a[i] by {
        let x = a[i];
        let y = b[i];
        assert(((x ^ y) ^ y) == x) by (bit_vector);
    }
    assert(xor_bytes(xor_bytes(a, b), b) =~= a);
}

/// Writing `v` into a covered column that held zero adds `v` to the sum.
pub proof fn lemma_row_sum_update<V: OkvsV>(
    band: Seq<bool>,
    start: int,
    xs: Seq<V>,
    p: int,
    v: V,
    c: int,
)
    requires
        0 <= p < c <= xs.len(),
        covers(band, start, p),
        xs[p].bytes() == zero_bytes(V::width()),
    ensures
        row_sum(band, start, xs.update(p, v), c) == xor_bytes(
            row_sum(band, start, xs, c),
            v.bytes(),
        ),
    decreases c,
{
    let ys = xs.update(p, v);
    let w = V::width();
    v.lemma_width();
    if c - 1 == p {
        lemma_row_sum_agrees(band, start, xs, band, start, ys, p);
        let rest = row_sum(band, start, xs, p);
        lemma_row_sum_width(band, start, xs, p);
        lemma_xor_zero(rest);
    } else {
        lemma_row_sum_update(band, start, xs, p, v, c - 1);
        let rest = row_sum(band, start, xs, c - 1);
        lemma_row_sum_width(band, start, xs, c - 1);
        if covers(band, start, c - 1) {
            let u = xs[c - 1].bytes();
            xs[c - 1].lemma_width();
            // (rest ^ v) ^ u == (rest ^ u) ^ v
            lemma_xor_associates(rest, v.bytes(), u);
            lemma_xor_commutes(v.bytes(), u);
            lemma_xor_associates(rest, u, v.bytes());
        }
    }
}

/// A band laid over the tail of the values from `s` on sums what the band
/// started at column `s` sums over all of them.
pub proof fn lemma_row_sum_tail<V: OkvsV>(band: Seq<bool>, xs: Seq<V>, s: int, c: int)
    requires
        0 <= s,
        0 <= c,
        s + c <= xs.len(),
    ensures
        row_sum(band, 0, xs.subrange(s, xs.len() as int), c) == row_sum(band, s, xs, s + c),
    decreases c,
{
    let tail = xs.subrange(s, xs.len() as int);
    if c == 0 {
        lemma_row_sum_stable(band, s, xs, 0, s);
    } else {
        lemma_row_sum_tail(band, xs, s, c - 1);
        assert(tail[c - 1] == xs[s + c - 1]);
    }
}

} // verus!
