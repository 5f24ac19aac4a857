use vstd::arithmetic::div_mod::{lemma_breakdown, lemma_fundamental_div_mod};
use vstd::prelude::*;

verus! {

/// The items of `s` whose second component has the key `v`, in the order in
/// which they stand in `s`.
pub open spec fn bucket(s: Seq<(usize, usize)>, key: spec_fn(usize) -> int, v: int) -> Seq<
    (usize, usize),
>
    decreases s.len(),
{
    if s.len() == 0 {
        Seq::empty()
    } else {
        let rest = bucket(s.drop_last(), key, v);
        if key(s.last().1) == v {
            rest.push(s.last())
        } else {
            rest
        }
    }
}

/// The buckets of the keys from `lo` up to, not including, `hi`, one after
/// the other.
pub open spec fn span(s: Seq<(usize, usize)>, key: spec_fn(usize) -> int, lo: int, hi: int) -> Seq<
    (usize, usize),
>
    decreases hi - lo,
{
    if hi <= lo {
        Seq::empty()
    } else {
        span(s, key, lo, hi - 1) + bucket(s, key, hi - 1)
    }
}

/// The key that is the number itself.
pub open spec fn whole_key() -> spec_fn(usize) -> int {
    |x: usize| x as int
}

/// The key that is the decimal digit of weight `exp`.
pub open spec fn digit_key(exp: int) -> spec_fn(usize) -> int {
    |x: usize| (x as int / exp) % 10
}

/// The key that is the value of the decimal digits below weight `exp`.
pub open spec fn low_key(exp: int) -> spec_fn(usize) -> int {
    |x: usize| x as int % exp
}

/// `s` sorted by second component, ascending, where no second component
/// reaches `bound`; items with the same second component keep the order
/// they have in `s`.
pub open spec fn stable_by_second(s: Seq<(usize, usize)>, bound: int) -> Seq<(usize, usize)> {
    span(s, whole_key(), 0, bound)
}

pub proof fn lemma_bucket_len(s: Seq<(usize, usize)>, key: spec_fn(usize) -> int, v: int)
    ensures
        bucket(s, key, v).len() <= s.len(),
    decreases s.len(),
{
    if s.len() > 0 {
        lemma_bucket_len(s.drop_last(), key, v);
    }
}

pub proof fn lemma_bucket_add(
    a: Seq<(usize, usize)>,
    b: Seq<(usize, usize)>,
    key: spec_fn(usize) -> int,
    v: int,
)
    ensures
        bucket(a + b, key, v) == bucket(a, key, v) + bucket(b, key, v),
    decreases b.len(),
{
    if b.len() == 0 {
        assert(a + b =~= a);
        assert(bucket(a, key, v) + bucket(b, key, v) =~= bucket(a, key, v));
    } else {
        lemma_bucket_add(a, b.drop_last(), key, v);
        assert((a + b).drop_last() =~= a + b.drop_last());
        assert((a + b).last() == b.last());
        if key(b.last().1) == v {
            assert((bucket(a, key, v) + bucket(b.drop_last(), key, v)).push(b.last()) =~= bucket(
                a,
                key,
                v,
            ) + bucket(b, key, v));
        }
    }
}

/// A bucket holds exactly the items of `s` with its key.
pub proof fn lemma_bucket_holds(
    s: Seq<(usize, usize)>,
    key: spec_fn(usize) -> int,
    v: int,
    e: (usize, usize),
)
    ensures
        bucket(s, key, v).contains(e) <==> s.contains(e) && key(e.1) == v,
    decreases s.len(),
{
    if s.len() > 0 {
        let rest = s.drop_last();
        lemma_bucket_holds(rest, key, v, e);
        if s.contains(e) {
            let j = choose|j: int| 0 <= j < s.len() && s[j] == e;
            if j < s.len() - 1 {
                assert(rest[j] == e);
            }
        }
        if rest.contains(e) {
            let j = choose|j: int| 0 <= j < rest.len() && rest[j] == e;
            assert(s[j] == e);
        }
        let b = bucket(rest, key, v);
        if key(s.last().1) == v {
            let full = b.push(s.last());
            if full.contains(e) {
                let j = choose|j: int| 0 <= j < full.len() && full[j] == e;
                if j < b.len() {
                    assert(b[j] == e);
                } else {
                    assert(s[s.len() - 1] == e);
                }
            }
            if b.contains(e) {
                let j = choose|j: int| 0 <= j < b.len() && b[j] == e;
                assert(full[j] == e);
            }
            if s.last() == e {
                assert(full[b.len() as int] == e);
                assert(s[s.len() - 1] == e);
            }
        }
    }
}

/// Item `j` of `s` stands in the bucket of its key behind the items of that
/// bucket that come before it in `s`.
pub proof fn lemma_bucket_place(s: Seq<(usize, usize)>, key: spec_fn(usize) -> int, j: int)
    requires
        0 <= j < s.len(),
    ensures
        ({
            let v = key(s[j].1);
            let before = bucket(s.take(j), key, v).len();
            &&& before < bucket(s, key, v).len()
            &&& bucket(s, key, v)[before as int] == s[j]
            &&& bucket(s.take(j + 1), key, v).len() == before + 1
            &&& forall|u: int| u != v ==> bucket(s.take(j + 1), key, u) == bucket(s.take(j), key, u)
        }),
{
    let v = key(s[j].1);
    let head = s.take(j + 1);
    let tail = s.skip(j + 1);
    assert(s =~= head + tail);
    assert(head.drop_last() =~= s.take(j));
    assert(head.last() == s[j]);
    lemma_bucket_add(head, tail, key, v);
}

pub proof fn lemma_span_split(
    s: Seq<(usize, usize)>,
    key: spec_fn(usize) -> int,
    lo: int,
    mid: int,
    hi: int,
)
    requires
        lo <= mid <= hi,
    ensures
        span(s, key, lo, hi) == span(s, key, lo, mid) + span(s, key, mid, hi),
    decreases hi - mid,
{
    if hi == mid {
        assert(span(s, key, lo, mid) + span(s, key, mid, hi) =~= span(s, key, lo, mid));
    } else {
        lemma_span_split(s, key, lo, mid, hi - 1);
        assert((span(s, key, lo, mid) + span(s, key, mid, hi - 1)) + bucket(s, key, hi - 1) =~= span(
            s,
            key,
            lo,
            mid,
        ) + (span(s, key, mid, hi - 1) + bucket(s, key, hi - 1)));
    }
}

/// Bucket `d` lies in the span from `lo` to `hi` behind the buckets of the
/// keys from `lo` to `d`.
pub proof fn lemma_span_place(
    s: Seq<(usize, usize)>,
    key: spec_fn(usize) -> int,
    lo: int,
    hi: int,
    d: int,
    t: int,
)
    requires
        lo <= d < hi,
        0 <= t < bucket(s, key, d).len(),
    ensures
        span(s, key, lo, d).len() + bucket(s, key, d).len() == span(s, key, lo, d + 1).len(),
        span(s, key, lo, d + 1).len() <= span(s, key, lo, hi).len(),
        span(s, key, lo, hi)[span(s, key, lo, d).len() + t] == bucket(s, key, d)[t],
{
    lemma_span_split(s, key, lo, d + 1, hi);
}

pub proof fn lemma_span_grows(
    s: Seq<(usize, usize)>,
    key: spec_fn(usize) -> int,
    lo: int,
    d1: int,
    d2: int,
)
    requires
        lo <= d1 <= d2,
    ensures
        span(s, key, lo, d1).len() <= span(s, key, lo, d2).len(),
{
    lemma_span_split(s, key, lo, d1, d2);
}

/// Appending one item to `s` adds it to the span where its key lies in the
/// span's range, and leaves the span as it is where not.
pub proof fn lemma_span_push_len(
    s: Seq<(usize, usize)>,
    key: spec_fn(usize) -> int,
    lo: int,
    hi: int,
    e: (usize, usize),
)
    ensures
        span(s.push(e), key, lo, hi).len() == span(s, key, lo, hi).len() + (if lo <= key(e.1) < hi {
            1int
        } else {
            0int
        }),
    decreases hi - lo,
{
    if hi > lo {
        lemma_span_push_len(s, key, lo, hi - 1, e);
        assert(s.push(e).drop_last() =~= s);
    }
}

/// A span whose range holds the key of every item is as long as `s`.
pub proof fn lemma_span_len(s: Seq<(usize, usize)>, key: spec_fn(usize) -> int, lo: int, hi: int)
    requires
        forall|i: int| 0 <= i < s.len() ==> lo <= #[trigger] key(s[i].1) < hi,
    ensures
        span(s, key, lo, hi).len() == s.len(),
    decreases s.len(),
{
    if s.len() == 0 {
        assert(s =~= Seq::<(usize, usize)>::empty());
        lemma_span_of_empty(key, lo, hi);
    } else {
        let rest = s.drop_last();
        assert forall|i: int| 0 <= i < rest.len() implies lo <= #[trigger] key(rest[i].1) < hi by {
            assert(rest[i] == s[i]);
        }
        lemma_span_len(rest, key, lo, hi);
        assert(rest.push(s.last()) =~= s);
        lemma_span_push_len(rest, key, lo, hi, s.last());
        assert(lo <= key(s[s.len() - 1].1) < hi);
    }
}

pub proof fn lemma_span_of_empty(key: spec_fn(usize) -> int, lo: int, hi: int)
    ensures
        span(Seq::<(usize, usize)>::empty(), key, lo, hi).len() == 0,
    decreases hi - lo,
{
    if hi > lo {
        lemma_span_of_empty(key, lo, hi - 1);
    }
}

/// A span holds exactly the items of `s` whose key lies in its range.
pub proof fn lemma_span_holds(
    s: Seq<(usize, usize)>,
    key: spec_fn(usize) -> int,
    lo: int,
    hi: int,
    e: (usize, usize),
)
    ensures
        span(s, key, lo, hi).contains(e) <==> s.contains(e) && lo <= key(e.1) < hi,
    decreases hi - lo,
{
    if hi > lo {
        lemma_span_holds(s, key, lo, hi - 1, e);
        lemma_bucket_holds(s, key, hi - 1, e);
        let a = span(s, key, lo, hi - 1);
        let b = bucket(s, key, hi - 1);
        if (a + b).contains(e) {
            let j = choose|j: int| 0 <= j < (a + b).len() && (a + b)[j] == e;
            if j < a.len() {
                assert(a[j] == e);
            } else {
                assert(b[j - a.len()] == e);
            }
        }
        if a.contains(e) {
            let j = choose|j: int| 0 <= j < a.len() && a[j] == e;
            assert((a + b)[j] == e);
        }
        if b.contains(e) {
            let j = choose|j: int| 0 <= j < b.len() && b[j] == e;
            assert((a + b)[a.len() + j] == e);
        }
    }
}

/// The keys along a span never fall.
pub proof fn lemma_span_ascends(
    s: Seq<(usize, usize)>,
    key: spec_fn(usize) -> int,
    lo: int,
    hi: int,
    i: int,
    j: int,
)
    requires
        0 <= i <= j < span(s, key, lo, hi).len(),
    ensures
        lo <= key(span(s, key, lo, hi)[i].1) <= key(span(s, key, lo, hi)[j].1) < hi,
    decreases hi - lo,
{
    if hi > lo {
        let a = span(s, key, lo, hi - 1);
        let b = bucket(s, key, hi - 1);
        if j < a.len() {
            lemma_span_ascends(s, key, lo, hi - 1, i, j);
        } else {
            assert(b.contains(b[j - a.len()]));
            lemma_bucket_holds(s, key, hi - 1, b[j - a.len()]);
            if i < a.len() {
                lemma_span_ascends(s, key, lo, hi - 1, i, i);
            } else {
                assert(b.contains(b[i - a.len()]));
                lemma_bucket_holds(s, key, hi - 1, b[i - a.len()]);
            }
        }
    }
}

/// Buckets and spans depend on the key only through the items of `s`.
pub proof fn lemma_bucket_same_keys(
    s: Seq<(usize, usize)>,
    k1: spec_fn(usize) -> int,
    k2: spec_fn(usize) -> int,
    v: int,
)
    requires
        forall|i: int| 0 <= i < s.len() ==> #[trigger] k1(s[i].1) == k2(s[i].1),
    ensures
        bucket(s, k1, v) == bucket(s, k2, v),
    decreases s.len(),
{
    if s.len() > 0 {
        let rest = s.drop_last();
        assert forall|i: int| 0 <= i < rest.len() implies #[trigger] k1(rest[i].1) == k2(
            rest[i].1,
        ) by {
            assert(rest[i] == s[i]);
        }
        lemma_bucket_same_keys(rest, k1, k2, v);
        assert(k1(s[s.len() - 1].1) == k2(s[s.len() - 1].1));
    }
}

pub proof fn lemma_span_same_keys(
    s: Seq<(usize, usize)>,
    k1: spec_fn(usize) -> int,
    k2: spec_fn(usize) -> int,
    lo: int,
    hi: int,
)
    requires
        forall|i: int| 0 <= i < s.len() ==> #[trigger] k1(s[i].1) == k2(s[i].1),
    ensures
        span(s, k1, lo, hi) == span(s, k2, lo, hi),
    decreases hi - lo,
{
    if hi > lo {
        lemma_span_same_keys(s, k1, k2, lo, hi - 1);
        lemma_bucket_same_keys(s, k1, k2, hi - 1);
    }
}

/// Buckets of keys that no item has are empty, so a span may end anywhere
/// past the largest key.
pub proof fn lemma_span_past_keys(
    s: Seq<(usize, usize)>,
    key: spec_fn(usize) -> int,
    lo: int,
    mid: int,
    hi: int,
)
    requires
        lo <= mid <= hi,
        forall|i: int| 0 <= i < s.len() ==> #[trigger] key(s[i].1) < mid,
    ensures
        span(s, key, lo, hi) == span(s, key, lo, mid),
    decreases hi - mid,
{
    if hi > mid {
        lemma_span_past_keys(s, key, lo, mid, hi - 1);
        let b = bucket(s, key, hi - 1);
        if b.len() > 0 {
            assert(b.contains(b[0]));
            lemma_bucket_holds(s, key, hi - 1, b[0]);
            let j = choose|j: int| 0 <= j < s.len() && s[j] == b[0];
            assert(key(s[j].1) < mid);
        }
        assert(span(s, key, lo, hi - 1) + b =~= span(s, key, lo, hi - 1));
    }
}

/// A number has the low part `d * exp + u` below weight `10 * exp` exactly
/// if its digit of weight `exp` is `d` and its low part below `exp` is `u`.
pub proof fn lemma_digit_splits(x: int, exp: int, d: int, u: int)
    requires
        0 <= x,
        0 < exp,
        0 <= d < 10,
        0 <= u < exp,
    ensures
        (x % (exp * 10) == d * exp + u) <==> ((x / exp) % 10 == d && x % exp == u),
{
    lemma_breakdown(x, exp, 10);
    let q = (x / exp) % 10;
    let r = x % exp;
    assert(0 <= r < exp) by {
        lemma_fundamental_div_mod(x, exp);
        vstd::arithmetic::div_mod::lemma_mod_bound(x, exp);
    }
    assert(x % (exp * 10) == exp * q + r);
    if exp * q + r == d * exp + u {
        assert(q == d && r == u) by (nonlinear_arith)
            requires
                exp * q + r == d * exp + u,
                0 <= r < exp,
                0 <= u < exp,
        ;
    }
    if q == d && r == u {
        assert(exp * q + r == d * exp + u) by (nonlinear_arith)
            requires
                q == d,
                r == u,
        ;
    }
}

/// Picking digit `d` out of the bucket of low part `u` gives the bucket of
/// low part `d * exp + u` one digit further up.
pub proof fn lemma_bucket_of_bucket(s: Seq<(usize, usize)>, exp: int, d: int, u: int)
    requires
        0 < exp,
        0 <= d < 10,
        0 <= u < exp,
    ensures
        bucket(bucket(s, low_key(exp), u), digit_key(exp), d) == bucket(
            s,
            low_key(exp * 10),
            d * exp + u,
        ),
    decreases s.len(),
{
    if s.len() > 0 {
        let rest = s.drop_last();
        lemma_bucket_of_bucket(rest, exp, d, u);
        let x = s.last().1;
        lemma_digit_splits(x as int, exp, d, u);
        let inner = bucket(rest, low_key(exp), u);
        if low_key(exp)(x) == u {
            assert(inner.push(s.last()).drop_last() =~= inner);
        }
    }
}

/// Picking digit `d` out of the items sorted by their low part below `exp`
/// gives the items sorted by their low part below `10 * exp` that have digit
/// `d`.
pub proof fn lemma_digit_of_span(s: Seq<(usize, usize)>, exp: int, d: int, n: int)
    requires
        0 < exp,
        0 <= d < 10,
        0 <= n <= exp,
    ensures
        bucket(span(s, low_key(exp), 0, n), digit_key(exp), d) == span(
            s,
            low_key(exp * 10),
            d * exp,
            d * exp + n,
        ),
    decreases n,
{
    if n > 0 {
        lemma_digit_of_span(s, exp, d, n - 1);
        lemma_bucket_add(
            span(s, low_key(exp), 0, n - 1),
            bucket(s, low_key(exp), n - 1),
            digit_key(exp),
            d,
        );
        lemma_bucket_of_bucket(s, exp, d, n - 1);
    }
}

/// One pass of a stable sort by the digit of weight `exp`, over items
/// sorted by their low part below `exp`, leaves them sorted by their low
/// part below `10 * exp`.
pub proof fn lemma_radix_pass(s: Seq<(usize, usize)>, exp: int, n: int)
    requires
        0 < exp,
        0 <= n <= 10,
    ensures
        span(span(s, low_key(exp), 0, exp), digit_key(exp), 0, n) == span(
            s,
            low_key(exp * 10),
            0,
            n * exp,
        ),
    decreases n,
{
    if n > 0 {
        lemma_radix_pass(s, exp, n - 1);
        lemma_digit_of_span(s, exp, n - 1, exp);
        assert((n - 1) * exp + exp == n * exp) by (nonlinear_arith);
        assert(0 <= (n - 1) * exp) by (nonlinear_arith)
            requires
                0 < exp,
                n >= 1,
        ;
        lemma_span_split(s, low_key(exp * 10), 0, (n - 1) * exp, n * exp);
    } else {
        assert(0 * exp == 0);
    }
}

} // verus!
