use std::collections::HashSet;
use vstd::prelude::*;

verus! {

broadcast use vstd::std_specs::hash::group_hash_axioms;

/// The bin of a value: bins are `2 * delta` wide and numbered from 0.
pub open spec fn bin_of(val: int, delta: int) -> int {
    val / (2 * delta)
}

/// The least value within `delta` of `v`, not below 0.
pub open spec fn window_low(v: int, delta: int) -> int {
    if delta >= v {
        0
    } else {
        v - delta
    }
}

/// Whether `bin` is the bin of a value within `delta` of `v`.
pub open spec fn near_bin(v: int, delta: int, bin: int) -> bool {
    exists|w: int| window_low(v, delta) <= w <= v + delta && #[trigger] bin_of(w, delta) == bin
}

/// The bins that hold a value within `delta` of one of the points.
pub open spec fn bins_of(points: Seq<u64>, delta: int) -> Set<u64> {
    Set::new(
        |b: u64|
            exists|i: int|
                0 <= i < points.len() && near_bin(#[trigger] points[i] as int, delta, b as int),
    )
}

/// The points whose own bin is `bin`, each once, in the order in which they
/// first occur.
pub open spec fn points_in_bin(points: Seq<u64>, bin: int, delta: int) -> Seq<u64>
    decreases points.len(),
{
    if points.len() == 0 {
        Seq::empty()
    } else {
        let before = points_in_bin(points.drop_last(), bin, delta);
        let v = points.last();
        if bin_of(v as int, delta) == bin && !before.contains(v) {
            before.push(v)
        } else {
            before
        }
    }
}

/// `points_in_bin` holds no point twice, and holds exactly the points whose
/// bin is `bin`.
pub proof fn lemma_points_in_bin(points: Seq<u64>, bin: int, delta: int)
    ensures
        points_in_bin(points, bin, delta).no_duplicates(),
        forall|v: u64|
            points_in_bin(points, bin, delta).contains(v) <==> points.contains(v) && bin_of(
                v as int,
                delta,
            ) == bin,
    decreases points.len(),
{
    let found = points_in_bin(points, bin, delta);
    if points.len() > 0 {
        let rest = points.drop_last();
        let before = points_in_bin(rest, bin, delta);
        let last = points.last();
        lemma_points_in_bin(rest, bin, delta);
        assert forall|v: u64| found.contains(v) <==> points.contains(v) && bin_of(v as int, delta)
            == bin by {
            if points.contains(v) {
                let j = choose|j: int| 0 <= j < points.len() && points[j] == v;
                if j < rest.len() {
                    assert(rest[j] == v);
                }
            }
            if rest.contains(v) {
                let j = choose|j: int| 0 <= j < rest.len() && rest[j] == v;
                assert(points[j] == v);
            }
            if found.contains(v) {
                let j = choose|j: int| 0 <= j < found.len() && found[j] == v;
                if j < before.len() {
                    assert(before[j] == v);
                } else {
                    assert(points[points.len() - 1] == v);
                }
            }
            if before.contains(v) {
                let j = choose|j: int| 0 <= j < before.len() && before[j] == v;
                assert(found[j] == v);
            }
            if v == last && bin_of(v as int, delta) == bin && !before.contains(v) {
                assert(found[before.len() as int] == v);
            }
            assert(points[points.len() - 1] == last);
        }
    }
}

fn save_sub(bin: u64, delta: u64) -> (r: u64)
    ensures
        r == window_low(bin as int, delta as int),
{
    if delta >= bin {
        return 0;
    }
    bin - delta
}

/// The bins reached so far: those of the points before `idx`, and those of
/// the values from `low` up to, not including, `next`.
spec fn bins_so_far(points: Seq<u64>, delta: int, idx: int, low: int, next: int) -> Set<u64> {
    Set::new(
        |b: u64|
            (exists|i: int| 0 <= i < idx && near_bin(#[trigger] points[i] as int, delta, b as int))
                || (exists|w: int| low <= w < next && #[trigger] bin_of(w, delta) == b as int),
    )
}

/// Computes all bins for a set of points: for each point the bins of all
/// values within `delta` of it.
pub fn create_bins(points: &[u64], delta: u64) -> (bins: HashSet<u64>)
    requires
        0 < delta,
        2 * delta <= u64::MAX,
        forall|i: int| 0 <= i < points@.len() ==> points@[i] + delta <= u64::MAX,
    ensures
        bins@ == bins_of(points@, delta as int),
{
    let mut bins: HashSet<u64> = HashSet::new();
    let mut idx: usize = 0;
    assert(bins@ =~= bins_so_far(points@, delta as int, 0, 0, 0));
    while idx < points.len()
        invariant
            0 < delta,
            2 * delta <= u64::MAX,
            forall|i: int| 0 <= i < points@.len() ==> points@[i] + delta <= u64::MAX,
            idx <= points@.len(),
            bins@ == bins_so_far(points@, delta as int, idx as int, 0, 0),
        decreases points@.len() - idx,
    {
        let v = points[idx];
        let low = save_sub(v, delta);
        let high = v + delta;
        let mut val = low;
        let mut going = true;
        assert(bins@ =~= bins_so_far(points@, delta as int, idx as int, low as int, low as int));
        while going
            invariant
                0 < delta,
                2 * delta <= u64::MAX,
                idx < points@.len(),
                v == points@[idx as int],
                low == window_low(v as int, delta as int),
                high == v + delta,
                low <= val <= high,
                going ==> bins@ == bins_so_far(
                    points@,
                    delta as int,
                    idx as int,
                    low as int,
                    val as int,
                ),
                !going ==> bins@ == bins_so_far(points@, delta as int, idx + 1, 0, 0),
            decreases high - val + (if going { 1int } else { 0int }),
        {
            let bin = create_bin(val, delta);
            let ghost before = bins@;
            bins.insert(bin);
            proof {
                assert(bins@ =~= bins_so_far(
                    points@,
                    delta as int,
                    idx as int,
                    low as int,
                    val + 1,
                )) by {
                    assert forall|b: u64|
                        bins_so_far(points@, delta as int, idx as int, low as int, val + 1).contains(
                            b,
                        ) implies before.insert(bin).contains(b) by {
                        if exists|w: int| low <= w < val + 1 && #[trigger] bin_of(w, delta as int) == b as int {
                            let w = choose|w: int| low <= w < val + 1 && #[trigger] bin_of(w, delta as int) == b as int;
                            if w < val {
                                assert(bin_of(w, delta as int) == b as int);
                            }
                        }
                    }
                    assert(bin_of(val as int, delta as int) == bin as int);
                }
            }
            if val < high {
                val += 1;
            } else {
                going = false;
                proof {
                    assert(bins@ =~= bins_so_far(points@, delta as int, idx + 1, 0, 0)) by {
                        assert forall|b: u64|
                            bins_so_far(points@, delta as int, idx + 1, 0, 0).contains(
                                b,
                            ) implies bins@.contains(b) by {
                            let i = choose|i: int|
                                0 <= i < idx + 1 && near_bin(
                                    #[trigger] points@[i] as int,
                                    delta as int,
                                    b as int,
                                );
                            if i == idx {
                                let w = choose|w: int|
                                    window_low(v as int, delta as int) <= w <= v + delta
                                        && #[trigger] bin_of(w, delta as int) == b as int;
                                assert(bin_of(w, delta as int) == b as int);
                            } else {
                                assert(near_bin(points@[i] as int, delta as int, b as int));
                            }
                        }
                        assert forall|b: u64| bins@.contains(b) implies bins_so_far(
                            points@,
                            delta as int,
                            idx + 1,
                            0,
                            0,
                        ).contains(b) by {
                            if exists|w: int| low <= w < val + 1 && #[trigger] bin_of(w, delta as int) == b as int {
                                let w = choose|w: int| low <= w < val + 1 && #[trigger] bin_of(w, delta as int) == b as int;
                                assert(near_bin(points@[idx as int] as int, delta as int, b as int));
                            } else {
                                let i = choose|i: int|
                                    0 <= i < idx && near_bin(
                                        #[trigger] points@[i] as int,
                                        delta as int,
                                        b as int,
                                    );
                                assert(near_bin(points@[i] as int, delta as int, b as int));
                            }
                        }
                    }
                }
            }
        }
        idx += 1;
    }
    assert(bins@ =~= bins_of(points@, delta as int));
    bins
}

/// Computes the bin of a value: the value divided by `2 * delta`, rounded
/// down.
pub fn create_bin(val: u64, delta: u64) -> (bin: u64)
    requires
        0 < delta,
        2 * delta <= u64::MAX,
    ensures
        bin == bin_of(val as int, delta as int),
{
    val / (2 * delta)
}

/// Returns the points whose bin is `bin`, each once, in the order in which
/// they first occur among `points`.
pub fn invert_bin(bin: u64, points: &[u64], delta: u64) -> (items: Vec<u64>)
    requires
        0 < delta,
        2 * delta <= u64::MAX,
    ensures
        items@ == points_in_bin(points@, bin as int, delta as int),
{
    let mut seen: HashSet<u64> = HashSet::new();
    let mut items: Vec<u64> = Vec::new();
    let mut idx: usize = 0;
    assert(points@.take(0) =~= Seq::<u64>::empty());
    while idx < points.len()
        invariant
            0 < delta,
            2 * delta <= u64::MAX,
            idx <= points@.len(),
            items@ == points_in_bin(points@.take(idx as int), bin as int, delta as int),
            forall|v: u64| seen@.contains(v) <==> items@.contains(v),
        decreases points@.len() - idx,
    {
        let v = points[idx];
        let bin_v = create_bin(v, delta);
        let ghost before = items@;
        proof {
            assert(points@.take(idx + 1).drop_last() =~= points@.take(idx as int));
            assert(points@.take(idx + 1).last() == v);
        }
        if bin_v == bin {
            let fresh = seen.insert(v);
            if fresh {
                items.push(v);
                proof {
                    assert forall|u: u64| seen@.contains(u) <==> items@.contains(u) by {
                        if before.contains(u) {
                            let j = choose|j: int| 0 <= j < before.len() && before[j] == u;
                            assert(items@[j] == u);
                        }
                        if items@.contains(u) {
                            let j = choose|j: int| 0 <= j < items@.len() && items@[j] == u;
                            if j < before.len() {
                                assert(before[j] == u);
                            }
                        }
                        assert(items@[before.len() as int] == v);
                    }
                }
            }
        }
        idx += 1;
    }
    assert(points@.take(points@.len() as int) =~= points@);
    items
}

} // verus!
