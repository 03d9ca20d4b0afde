//! The row clusterer: groups scattered one-dimensional coordinates into bins
//! of a configurable size and reports each occupied bin's center (the rounded
//! mean of its readings), ascending and deduplicated.

use vstd::prelude::*;

use crate::coord::{Coord, DEFAULT_BIN_SIZE, SUBUNITS_PER_UNIT};
use crate::nums::{lemma_round_div_hull, round_div, round_div_i128};
use crate::order::{
    lemma_sort_lex_sorted, lex_leq, sort_lex, sorted_pairs,
};

verus! {

/// Effective bin size in sub-units: a non-positive bin falls back to one unit.
pub open spec fn eff_bin(bin_px: int) -> int {
    if bin_px <= 0 {
        DEFAULT_BIN_SIZE as int
    } else {
        bin_px * (SUBUNITS_PER_UNIT as int)
    }
}

/// The finite readings of `points`, in order.
pub open spec fn finite_vals(points: Seq<Coord>) -> Seq<i64>
    decreases points.len(),
{
    if points.len() == 0 {
        Seq::empty()
    } else {
        let rest = finite_vals(points.drop_last());
        match points.last() {
            Coord::Finite(v) => rest.push(v),
            Coord::NonFinite => rest,
        }
    }
}

/// Bin key of a reading: the nearest multiple of the bin size, ties away
/// from zero.
pub open spec fn bin_key(v: int, bin: int) -> int {
    round_div(v, bin)
}

/// Sum of the readings whose bin key is `k`.
pub open spec fn key_sum(vals: Seq<i64>, k: int, bin: int) -> int
    decreases vals.len(),
{
    if vals.len() == 0 {
        0
    } else {
        key_sum(vals.drop_last(), k, bin) + if bin_key(vals.last() as int, bin) == k {
            vals.last() as int
        } else {
            0
        }
    }
}

/// Number of readings whose bin key is `k`.
pub open spec fn key_cnt(vals: Seq<i64>, k: int, bin: int) -> int
    decreases vals.len(),
{
    if vals.len() == 0 {
        0
    } else {
        key_cnt(vals.drop_last(), k, bin) + if bin_key(vals.last() as int, bin) == k {
            1int
        } else {
            0int
        }
    }
}

/// Center of bin `k`: the rounded mean of its readings.
pub open spec fn key_mean(vals: Seq<i64>, k: int, bin: int) -> int {
    round_div(key_sum(vals, k, bin), key_cnt(vals, k, bin))
}

/// The distinct occupied bin keys of `vals`, in first-appearance order.
pub open spec fn keys_of(vals: Seq<i64>, bin: int) -> Seq<int>
    decreases vals.len(),
{
    if vals.len() == 0 {
        Seq::empty()
    } else {
        let rest = keys_of(vals.drop_last(), bin);
        let k = bin_key(vals.last() as int, bin);
        if rest.contains(k) {
            rest
        } else {
            rest.push(k)
        }
    }
}

/// Occupied bin keys paired with their centers, in first-appearance order.
pub open spec fn cluster_pairs(vals: Seq<i64>, bin: int) -> Seq<(i64, i64)> {
    keys_of(vals, bin).map(|i: int, k: int| (k as i64, key_mean(vals, k, bin) as i64))
}

/// The values of a pair sequence, in order.
pub open spec fn values_of(s: Seq<(i64, i64)>) -> Seq<i64> {
    s.map(|i: int, p: (i64, i64)| p.1)
}

/// Adjacent equal entries collapsed to one.
pub open spec fn dedup_adjacent(s: Seq<i64>) -> Seq<i64>
    decreases s.len(),
{
    if s.len() <= 1 {
        s
    } else if s.last() == s[s.len() - 2] {
        dedup_adjacent(s.drop_last())
    } else {
        dedup_adjacent(s.drop_last()).push(s.last())
    }
}

/// What the row clusterer returns: the centers of the occupied bins of the
/// finite readings, sorted ascending (ties in first-appearance key order)
/// with equal neighbours collapsed.
pub open spec fn spec_y_cluster(points: Seq<Coord>, bin_px: int) -> Seq<i64> {
    let vals = finite_vals(points);
    let bin = eff_bin(bin_px);
    dedup_adjacent(values_of(sort_lex(cluster_pairs(vals, bin))))
}

/// No bin key appears twice in `keys_of`.
proof fn lemma_keys_distinct(vals: Seq<i64>, bin: int)
    ensures
        forall|i: int, j: int|
            0 <= i < j < keys_of(vals, bin).len() ==> keys_of(vals, bin)[i] != keys_of(
                vals,
                bin,
            )[j],
    decreases vals.len(),
{
    if vals.len() > 0 {
        lemma_keys_distinct(vals.drop_last(), bin);
        let rest = keys_of(vals.drop_last(), bin);
        let k = bin_key(vals.last() as int, bin);
        let keys = keys_of(vals, bin);
        if !rest.contains(k) {
            assert(keys == rest.push(k));
            assert forall|i: int, j: int| 0 <= i < j < keys.len() implies keys[i] != keys[j] by {
                if j == keys.len() - 1 {
                    assert(keys[i] == rest[i]);
                    if rest[i] == k {
                        assert(rest.contains(k));
                    }
                } else {
                    assert(keys[i] == rest[i] && keys[j] == rest[j]);
                }
            }
        }
    }
}

/// A key that never appears has an empty bin.
proof fn lemma_key_absent(vals: Seq<i64>, k: int, bin: int)
    requires
        !keys_of(vals, bin).contains(k),
    ensures
        key_sum(vals, k, bin) == 0,
        key_cnt(vals, k, bin) == 0,
    decreases vals.len(),
{
    if vals.len() > 0 {
        let rest = keys_of(vals.drop_last(), bin);
        let lk = bin_key(vals.last() as int, bin);
        if rest.contains(lk) {
            assert(!rest.contains(k));
        } else {
            assert(forall|i: int| 0 <= i < rest.len() ==> rest.push(lk)[i] == rest[i]);
            assert(!rest.contains(k));
            assert(rest.push(lk).last() == lk);
            assert(rest.push(lk).contains(lk));
        }
        lemma_key_absent(vals.drop_last(), k, bin);
    }
}

/// A bin's sum is bounded by its count times the extreme readings.
proof fn lemma_key_sum_hull(vals: Seq<i64>, k: int, bin: int)
    ensures
        key_cnt(vals, k, bin) >= 0,
        key_cnt(vals, k, bin) * (i64::MIN as int) <= key_sum(vals, k, bin),
        key_sum(vals, k, bin) <= key_cnt(vals, k, bin) * (i64::MAX as int),
    decreases vals.len(),
{
    if vals.len() > 0 {
        lemma_key_sum_hull(vals.drop_last(), k, bin);
        let c = key_cnt(vals.drop_last(), k, bin);
        assert((c + 1) * (i64::MIN as int) == c * (i64::MIN as int) + (i64::MIN as int))
            by (nonlinear_arith);
        assert((c + 1) * (i64::MAX as int) == c * (i64::MAX as int) + (i64::MAX as int))
            by (nonlinear_arith);
    }
}

/// A deduplicated sequence is empty only with its input, and ends where its
/// input ends.
proof fn lemma_dedup_last(s: Seq<i64>)
    requires
        s.len() >= 1,
    ensures
        dedup_adjacent(s).len() >= 1,
        dedup_adjacent(s).last() == s.last(),
    decreases s.len(),
{
    if s.len() > 1 && s.last() == s[s.len() - 2] {
        lemma_dedup_last(s.drop_last());
        assert(s.drop_last().last() == s[s.len() - 2]);
    }
}

/// Finds the entry of `groups` carrying key `k`, if any.
pub(crate) fn find_key(groups: &Vec<(i64, i128, usize)>, k: i64) -> (r: usize)
    ensures
        r <= groups@.len(),
        forall|j: int| 0 <= j < r ==> (#[trigger] groups@[j]).0 != k,
        r < groups@.len() ==> groups@[r as int].0 == k,
{
    let mut j: usize = 0;
    while j < groups.len() && groups[j].0 != k
        invariant
            j <= groups@.len(),
            forall|t: int| 0 <= t < j ==> (#[trigger] groups@[t]).0 != k,
        decreases groups@.len() - j,
    {
        j += 1;
    }
    j
}

/// Groups the raw positions `points` into bins of `bin_px` units (one unit
/// when `bin_px` is not positive), discarding non-finite readings, and
/// returns the rounded mean of each occupied bin, ascending and with equal
/// neighbours collapsed.
pub fn y_cluster(points: &Vec<Coord>, bin_px: i32) -> (r: Vec<i64>)
    ensures
        r@ == spec_y_cluster(points@, bin_px as int),
{
    let bin: i64 = if bin_px <= 0 {
        DEFAULT_BIN_SIZE
    } else {
        (bin_px as i64) * SUBUNITS_PER_UNIT
    };
    proof {
        assert(bin as int == eff_bin(bin_px as int));
        assert(1 <= bin as int <= 0x1_0000_0000_0000_0000);
    }

    // First pass: per-bin sums and counts, bins in first-appearance order.
    let mut groups: Vec<(i64, i128, usize)> = Vec::new();
    let mut i: usize = 0;
    while i < points.len()
        invariant
            i <= points@.len(),
            bin as int == eff_bin(bin_px as int),
            1 <= bin as int <= 0x1_0000_0000_0000_0000,
            groups@.len() == keys_of(finite_vals(points@.take(i as int)), bin as int).len(),
            forall|j: int|
                0 <= j < groups@.len() ==> {
                    let vals = finite_vals(points@.take(i as int));
                    let keys = keys_of(vals, bin as int);
                    &&& (#[trigger] groups@[j]).0 as int == keys[j]
                    &&& groups@[j].1 as int == key_sum(vals, keys[j], bin as int)
                    &&& groups@[j].2 as int == key_cnt(vals, keys[j], bin as int)
                    &&& 1 <= groups@[j].2 <= i
                },
        decreases points@.len() - i,
    {
        let ghost vals = finite_vals(points@.take(i as int));
        let ghost keys = keys_of(vals, bin as int);
        proof {
            assert(points@.take(i as int + 1).drop_last() =~= points@.take(i as int));
            assert(points@.take(i as int + 1).last() == points@[i as int]);
        }
        let c = points[i];
        match c {
            Coord::NonFinite => {
                proof {
                    assert(finite_vals(points@.take(i as int + 1)) == vals);
                }
            },
            Coord::Finite(v) => {
                let ghost vals1 = finite_vals(points@.take(i as int + 1));
                proof {
                    assert(vals1 == vals.push(v));
                    assert(vals1.drop_last() =~= vals);
                    assert(vals1.last() == v);
                    assert((bin as int) * (i64::MIN as int) <= v as int <= (bin as int) * (
                    i64::MAX as int)) by (nonlinear_arith)
                        requires
                            1 <= bin as int,
                            i64::MIN as int <= v as int <= i64::MAX as int,
                    ;
                    lemma_round_div_hull(v as int, bin as int, i64::MIN as int, i64::MAX as int);
                }
                let k128 = round_div_i128(v as i128, bin as i128);
                let k = k128 as i64;
                let ghost ki = bin_key(v as int, bin as int);
                proof {
                    assert(k as int == ki);
                    lemma_keys_distinct(vals, bin as int);
                }
                let j = find_key(&groups, k);
                if j < groups.len() {
                    let entry = groups[j];
                    proof {
                        assert(keys[j as int] == ki);
                        assert(keys.contains(ki));
                        assert(keys_of(vals1, bin as int) == keys);
                        lemma_key_sum_hull(vals, ki, bin as int);
                        let cc = key_cnt(vals, ki, bin as int);
                        assert(cc * (i64::MIN as int) >= (0x1_0000_0000_0000_0000int) * (
                        i64::MIN as int)) by (nonlinear_arith)
                            requires
                                0 <= cc <= 0x1_0000_0000_0000_0000,
                        ;
                        assert(cc * (i64::MAX as int) <= (0x1_0000_0000_0000_0000int) * (
                        i64::MAX as int)) by (nonlinear_arith)
                            requires
                                0 <= cc <= 0x1_0000_0000_0000_0000,
                        ;
                    }
                    groups.set(j, (entry.0, entry.1 + v as i128, entry.2 + 1));
                    proof {
                        assert forall|t: int| 0 <= t < groups@.len() implies {
                            let keys1 = keys_of(vals1, bin as int);
                            &&& (#[trigger] groups@[t]).0 as int == keys1[t]
                            &&& groups@[t].1 as int == key_sum(vals1, keys1[t], bin as int)
                            &&& groups@[t].2 as int == key_cnt(vals1, keys1[t], bin as int)
                            &&& 1 <= groups@[t].2 <= i + 1
                        } by {
                            if t != j {
                                assert(keys[t] != ki);
                            }
                        }
                    }
                } else {
                    proof {
                        assert forall|t: int| 0 <= t < keys.len() implies keys[t] != ki by {
                            assert((groups@[t]).0 as int == keys[t]);
                            assert((groups@[t]).0 != k);
                        }
                        assert(!keys.contains(ki));
                        lemma_key_absent(vals, ki, bin as int);
                        assert(keys_of(vals1, bin as int) == keys.push(ki));
                    }
                    groups.push((k, v as i128, 1));
                    proof {
                        let keys1 = keys_of(vals1, bin as int);
                        assert forall|t: int| 0 <= t < groups@.len() implies {
                            &&& (#[trigger] groups@[t]).0 as int == keys1[t]
                            &&& groups@[t].1 as int == key_sum(vals1, keys1[t], bin as int)
                            &&& groups@[t].2 as int == key_cnt(vals1, keys1[t], bin as int)
                            &&& 1 <= groups@[t].2 <= i + 1
                        } by {
                            if t < keys.len() {
                                assert(keys1[t] == keys[t]);
                                assert(keys[t] != ki);
                            } else {
                                assert(keys1[t] == ki);
                            }
                        }
                    }
                }
            },
        }
        i += 1;
    }
    proof {
        assert(points@.take(points@.len() as int) =~= points@);
    }
    let ghost vals = finite_vals(points@);
    let ghost keys = keys_of(vals, bin as int);

    // Second pass: rounded mean of each bin.
    let mut pairs: Vec<(i64, i64)> = Vec::new();
    let mut g: usize = 0;
    while g < groups.len()
        invariant
            g <= groups@.len(),
            pairs@.len() == g,
            groups@.len() == keys.len(),
            vals == finite_vals(points@),
            keys == keys_of(vals, bin as int),
            forall|j: int|
                0 <= j < groups@.len() ==> {
                    &&& (#[trigger] groups@[j]).0 as int == keys[j]
                    &&& groups@[j].1 as int == key_sum(vals, keys[j], bin as int)
                    &&& groups@[j].2 as int == key_cnt(vals, keys[j], bin as int)
                    &&& 1 <= groups@[j].2
                },
            forall|t: int| 0 <= t < g ==> pairs@[t] == cluster_pairs(vals, bin as int)[t],
        decreases groups@.len() - g,
    {
        let entry = groups[g];
        proof {
            let ki = keys[g as int];
            lemma_key_sum_hull(vals, ki, bin as int);
            let cc = key_cnt(vals, ki, bin as int);
            assert(cc * (i64::MIN as int) >= (0x1_0000_0000_0000_0000int) * (i64::MIN as int))
                by (nonlinear_arith)
                requires
                    0 <= cc <= 0x1_0000_0000_0000_0000,
            ;
            lemma_round_div_hull(
                key_sum(vals, ki, bin as int),
                cc,
                i64::MIN as int,
                i64::MAX as int,
            );
        }
        let mean = round_div_i128(entry.1, entry.2 as i128);
        pairs.push((entry.0, mean as i64));
        g += 1;
    }
    proof {
        assert(pairs@ =~= cluster_pairs(vals, bin as int));
    }

    // Sort by center, ties by key; then collapse equal neighbours.
    let sorted = sorted_pairs(&pairs);
    let ghost means = values_of(sort_lex(cluster_pairs(vals, bin as int)));
    let mut r: Vec<i64> = Vec::new();
    let mut t: usize = 0;
    while t < sorted.len()
        invariant
            t <= sorted@.len(),
            sorted@ == sort_lex(cluster_pairs(vals, bin as int)),
            means == values_of(sorted@),
            r@ == dedup_adjacent(means.take(t as int)),
        decreases sorted@.len() - t,
    {
        let x = sorted[t].1;
        proof {
            assert(means.take(t as int + 1).drop_last() =~= means.take(t as int));
            assert(means.take(t as int + 1).last() == means[t as int]);
            assert(means[t as int] == x);
            if t >= 1 {
                lemma_dedup_last(means.take(t as int));
                assert(means.take(t as int).last() == means[t as int - 1]);
                assert(means.take(t as int + 1)[t as int - 1] == means[t as int - 1]);
            }
        }
        if r.len() == 0 {
            r.push(x);
        } else {
            let last = r[r.len() - 1];
            if last != x {
                r.push(x);
            }
        }
        t += 1;
    }
    proof {
        assert(means.take(means.len() as int) =~= means);
    }
    r
}

/// The output of the row clusterer is strictly ascending: no two centers
/// coincide and they appear in increasing order.
pub proof fn lemma_row_clusterer_sorted(points: Seq<Coord>, bin_px: int)
    ensures
        forall|i: int, j: int|
            0 <= i < j < spec_y_cluster(points, bin_px).len() ==> spec_y_cluster(points, bin_px)[i]
                < spec_y_cluster(points, bin_px)[j],
{
    let sorted = sort_lex(cluster_pairs(finite_vals(points), eff_bin(bin_px)));
    lemma_sort_lex_sorted(cluster_pairs(finite_vals(points), eff_bin(bin_px)));
    let means = values_of(sorted);
    assert(forall|i: int, j: int|
        0 <= i < j < means.len() ==> means[i] <= means[j]) by {
        assert(forall|i: int, j: int|
            0 <= i < j < sorted.len() ==> lex_leq(#[trigger] sorted[i], #[trigger] sorted[j]));
    }
    lemma_dedup_strict(means);
}

/// Collapsing equal neighbours of a nondecreasing sequence leaves a strictly
/// increasing one.
proof fn lemma_dedup_strict(s: Seq<i64>)
    requires
        forall|i: int, j: int| 0 <= i < j < s.len() ==> s[i] <= s[j],
    ensures
        forall|i: int, j: int|
            0 <= i < j < dedup_adjacent(s).len() ==> dedup_adjacent(s)[i] < dedup_adjacent(s)[j],
    decreases s.len(),
{
    if s.len() > 1 {
        let d = s.drop_last();
        assert(forall|i: int, j: int| 0 <= i < j < d.len() ==> d[i] <= d[j]);
        lemma_dedup_strict(d);
        lemma_dedup_last(d);
        if s.last() == s[s.len() - 2] {
        } else {
            let prev = dedup_adjacent(d);
            assert(d.last() == s[s.len() - 2]);
            assert(s[s.len() - 2] <= s.last());
            let r = prev.push(s.last());
            assert forall|i: int, j: int| 0 <= i < j < r.len() implies r[i] < r[j] by {
                if j < r.len() - 1 {
                    assert(prev[i] < prev[j]);
                } else {
                    // every entry of prev is at most its last, which is below s.last()
                    if i < prev.len() - 1 {
                        assert(prev[i] < prev[prev.len() - 1]);
                    }
                    assert(prev[prev.len() - 1] == s[s.len() - 2]);
                }
            }
        }
    }
}

/// Empty input, or input with only non-finite readings, clusters to nothing.
pub proof fn lemma_row_clusterer_empty(points: Seq<Coord>, bin_px: int)
    requires
        forall|i: int| 0 <= i < points.len() ==> points[i] is NonFinite,
    ensures
        spec_y_cluster(points, bin_px) == Seq::<i64>::empty(),
{
    lemma_finite_vals_empty(points);
    assert(keys_of(Seq::<i64>::empty(), eff_bin(bin_px)) =~= Seq::<int>::empty());
    assert(cluster_pairs(Seq::<i64>::empty(), eff_bin(bin_px)) =~= Seq::<(i64, i64)>::empty());
    assert(values_of(sort_lex(Seq::<(i64, i64)>::empty())) =~= Seq::<i64>::empty());
}

proof fn lemma_finite_vals_empty(points: Seq<Coord>)
    requires
        forall|i: int| 0 <= i < points.len() ==> points[i] is NonFinite,
    ensures
        finite_vals(points) == Seq::<i64>::empty(),
    decreases points.len(),
{
    if points.len() > 0 {
        let d = points.drop_last();
        assert(forall|i: int| 0 <= i < d.len() ==> d[i] is NonFinite);
        lemma_finite_vals_empty(d);
    }
}

/// A bin size of zero or below behaves exactly like a bin size of one unit.
pub proof fn lemma_row_clusterer_default_bin(points: Seq<Coord>, bin_px: int)
    requires
        bin_px <= 0,
    ensures
        spec_y_cluster(points, bin_px) == spec_y_cluster(points, 1),
{
    assert(eff_bin(bin_px) == eff_bin(1));
}

/// The row clusterer is a pure function: equal inputs give equal outputs.
pub proof fn lemma_row_clusterer_deterministic(
    points: Seq<Coord>,
    bin_px: int,
    r1: Seq<i64>,
    r2: Seq<i64>,
)
    requires
        r1 == spec_y_cluster(points, bin_px),
        r2 == spec_y_cluster(points, bin_px),
    ensures
        r1 == r2,
{
}

} // verus!
