//! The band selector: averages per-day column centers, merges chains of
//! near-duplicate centers, and attributes to each surviving entry a
//! horizontal band reaching halfway to its sorted neighbours, clamped to the
//! page and filtered by a minimum width.
//!
//! Band bounds are kept in half sub-units (two bound steps per sub-unit), so
//! every midpoint split is exact; a band therefore covers `[lo, hi]` with
//! `0 <= lo <= hi <= 2 * page_w`.

use vstd::prelude::*;

use crate::coord::{coord_in, Coord, CENTER_LIMIT, CENTER_MERGE_EPSILON, MIN_BAND_WIDTH};
use crate::nums::{lemma_round_div_hull, round_div, round_div_i128};
use crate::order::{
    insert_lex, lemma_sort_lex_all, lemma_sort_lex_sorted, lex_leq, sort_lex, sorted_pairs,
};

verus! {

/// A horizontal band attributed to one day index; bounds in half sub-units.
#[derive(Clone, Copy, PartialEq, Eq, Structural, Debug)]
pub struct Band {
    pub day: i32,
    pub lo: i64,
    pub hi: i64,
}

/// View of an emitted band sequence as plain triples.
pub open spec fn bands_view(s: Seq<Band>) -> Seq<(i64, int, int)> {
    s.map(|i: int, b: Band| (b.day as i64, b.lo as int, b.hi as int))
}

/// Sum of the finite centers observed for day `d`.
pub open spec fn day_sum(obs: Seq<(i32, Coord)>, d: int) -> int
    decreases obs.len(),
{
    if obs.len() == 0 {
        0
    } else {
        day_sum(obs.drop_last(), d) + match obs.last().1 {
            Coord::Finite(v) => if obs.last().0 as int == d {
                v as int
            } else {
                0
            },
            Coord::NonFinite => 0,
        }
    }
}

/// Number of finite centers observed for day `d`.
pub open spec fn day_cnt(obs: Seq<(i32, Coord)>, d: int) -> int
    decreases obs.len(),
{
    if obs.len() == 0 {
        0
    } else {
        day_cnt(obs.drop_last(), d) + match obs.last().1 {
            Coord::Finite(v) => if obs.last().0 as int == d {
                1int
            } else {
                0int
            },
            Coord::NonFinite => 0int,
        }
    }
}

/// Averaged center of day `d`: the rounded mean of its finite readings.
pub open spec fn day_mean(obs: Seq<(i32, Coord)>, d: int) -> int {
    round_div(day_sum(obs, d), day_cnt(obs, d))
}

/// The distinct days with at least one finite reading, in first-appearance
/// order.
pub open spec fn days_of(obs: Seq<(i32, Coord)>) -> Seq<int>
    decreases obs.len(),
{
    if obs.len() == 0 {
        Seq::empty()
    } else {
        let rest = days_of(obs.drop_last());
        match obs.last().1 {
            Coord::Finite(v) => if rest.contains(obs.last().0 as int) {
                rest
            } else {
                rest.push(obs.last().0 as int)
            },
            Coord::NonFinite => rest,
        }
    }
}

/// One (day, averaged center) pair per observed day, in first-appearance
/// order.
pub open spec fn averaged_pairs(obs: Seq<(i32, Coord)>) -> Seq<(i64, i64)> {
    days_of(obs).map(|i: int, d: int| (d as i64, day_mean(obs, d) as i64))
}

/// Sum of the centers of a group of pairs.
pub open spec fn centers_sum(g: Seq<(i64, i64)>) -> int
    decreases g.len(),
{
    if g.len() == 0 {
        0
    } else {
        centers_sum(g.drop_last()) + g.last().1 as int
    }
}

/// All members of the group carry the same day.
pub open spec fn one_day(g: Seq<(i64, i64)>) -> bool {
    forall|i: int| 0 <= i < g.len() ==> (#[trigger] g[i]).0 == g[0].0
}

/// A closed group collapses to a single entry at the rounded mean of its
/// centers when every member shares one day; an ambiguous multi-day group is
/// kept unchanged.
pub open spec fn group_collapse(g: Seq<(i64, i64)>) -> Seq<(i64, i64)> {
    if g.len() <= 1 {
        g
    } else if one_day(g) {
        seq![(g[0].0, round_div(centers_sum(g), g.len() as int) as i64)]
    } else {
        g
    }
}

pub open spec fn abs_diff(a: i64, b: i64) -> int {
    if a >= b {
        a - b
    } else {
        b - a
    }
}

/// The chained-epsilon walk over the sorted entries: `group` is the open
/// group, `rest` what remains. Each incoming entry is compared to the *last*
/// member added to the group, so a chain of near neighbours can span more
/// than the epsilon overall.
pub open spec fn merge_rest(rest: Seq<(i64, i64)>, group: Seq<(i64, i64)>) -> Seq<(i64, i64)>
    recommends
        group.len() >= 1,
    decreases rest.len(),
{
    if rest.len() == 0 {
        group_collapse(group)
    } else if abs_diff(rest.first().1, group.last().1) <= CENTER_MERGE_EPSILON as int {
        merge_rest(rest.drop_first(), group.push(rest.first()))
    } else {
        group_collapse(group) + merge_rest(rest.drop_first(), seq![rest.first()])
    }
}

/// The merge pass over a center-sorted sequence.
pub open spec fn spec_merge(s: Seq<(i64, i64)>) -> Seq<(i64, i64)> {
    if s.len() == 0 {
        Seq::empty()
    } else {
        merge_rest(s.drop_first(), seq![s.first()])
    }
}

/// Clamps `x0` up to 0 and `x1` down to `hi`, swapping if that inverted the
/// pair.
pub open spec fn clamp_swap(x0: int, x1: int, hi: int) -> (int, int) {
    let a = if x0 < 0 {
        0
    } else {
        x0
    };
    let b = if x1 > hi {
        hi
    } else {
        x1
    };
    if b < a {
        (b, a)
    } else {
        (a, b)
    }
}

/// The band of entry `i` of the merged sequence, in half sub-units: halfway
/// to each sorted neighbour, clamped to the page, dropped when thinner than
/// the minimum width.
pub open spec fn band_at(m: Seq<(i64, i64)>, pw: int, i: int) -> Option<(i64, int, int)>
    recommends
        0 <= i < m.len(),
{
    let c = m[i].1 as int;
    let raw: (int, int) = if m.len() == 1 {
        (0, 2 * pw)
    } else if i == 0 {
        (3 * c - m[1].1 as int, c + m[1].1 as int)
    } else if i == m.len() - 1 {
        (c + m[i - 1].1 as int, 3 * c - m[i - 1].1 as int)
    } else {
        (m[i - 1].1 as int + c, c + m[i + 1].1 as int)
    };
    let cs = clamp_swap(raw.0, raw.1, 2 * pw);
    if cs.1 - cs.0 >= 2 * MIN_BAND_WIDTH as int && cs.0 < cs.1 {
        Some((m[i].0, cs.0, cs.1))
    } else {
        None
    }
}

/// The bands of the first `n` entries of the merged sequence, in order.
pub open spec fn bands_prefix(m: Seq<(i64, i64)>, pw: int, n: int) -> Seq<(i64, int, int)>
    decreases n,
{
    if n <= 0 {
        Seq::empty()
    } else {
        let rest = bands_prefix(m, pw, n - 1);
        match band_at(m, pw, n - 1) {
            Some(b) => rest.push(b),
            None => rest,
        }
    }
}

/// What the band selector returns: day-averaged centers, sorted, chained
/// near-duplicates merged, and one midpoint-split band per surviving entry.
/// A page width of zero or below yields nothing.
pub open spec fn spec_select_bands(obs: Seq<(i32, Coord)>, pw: int) -> Seq<(i64, int, int)> {
    if pw <= 0 {
        Seq::empty()
    } else {
        let merged = spec_merge(sort_lex(averaged_pairs(obs)));
        bands_prefix(merged, pw, merged.len() as int)
    }
}

/// No day appears twice in `days_of`.
proof fn lemma_days_distinct(obs: Seq<(i32, Coord)>)
    ensures
        forall|i: int, j: int|
            0 <= i < j < days_of(obs).len() ==> days_of(obs)[i] != days_of(obs)[j],
    decreases obs.len(),
{
    if obs.len() > 0 {
        lemma_days_distinct(obs.drop_last());
        let rest = days_of(obs.drop_last());
        let days = days_of(obs);
        if obs.last().1 is Finite && !rest.contains(obs.last().0 as int) {
            let d = obs.last().0 as int;
            assert(days == rest.push(d));
            assert forall|i: int, j: int| 0 <= i < j < days.len() implies days[i] != days[j] by {
                if j == days.len() - 1 {
                    assert(days[i] == rest[i]);
                    if rest[i] == d {
                        assert(rest.contains(d));
                    }
                } else {
                    assert(days[i] == rest[i] && days[j] == rest[j]);
                }
            }
        }
    }
}

/// A day that never appears finitely has an empty record.
proof fn lemma_day_absent(obs: Seq<(i32, Coord)>, d: int)
    requires
        !days_of(obs).contains(d),
    ensures
        day_sum(obs, d) == 0,
        day_cnt(obs, d) == 0,
    decreases obs.len(),
{
    if obs.len() > 0 {
        let rest = days_of(obs.drop_last());
        match obs.last().1 {
            Coord::Finite(v) => {
                let ld = obs.last().0 as int;
                if rest.contains(ld) {
                    assert(!rest.contains(d));
                } else {
                    assert(forall|i: int| 0 <= i < rest.len() ==> rest.push(ld)[i] == rest[i]);
                    assert(!rest.contains(d));
                    assert(rest.push(ld).last() == ld);
                    assert(rest.push(ld).contains(ld));
                }
            },
            Coord::NonFinite => {
                assert(!rest.contains(d));
            },
        }
        lemma_day_absent(obs.drop_last(), d);
    }
}

/// A day's sum is bounded by its count times the extreme finite readings.
proof fn lemma_day_sum_hull(obs: Seq<(i32, Coord)>, d: int, lo: int, hi: int)
    requires
        forall|i: int| 0 <= i < obs.len() ==> coord_in((#[trigger] obs[i]).1, lo, hi),
    ensures
        day_cnt(obs, d) >= 0,
        day_cnt(obs, d) * lo <= day_sum(obs, d),
        day_sum(obs, d) <= day_cnt(obs, d) * hi,
    decreases obs.len(),
{
    if obs.len() > 0 {
        assert(forall|i: int|
            0 <= i < obs.drop_last().len() ==> coord_in((#[trigger] obs.drop_last()[i]).1, lo, hi));
        lemma_day_sum_hull(obs.drop_last(), d, lo, hi);
        let c = day_cnt(obs.drop_last(), d);
        assert(coord_in(obs[obs.len() - 1].1, lo, hi));
        assert((c + 1) * lo == c * lo + lo) by (nonlinear_arith);
        assert((c + 1) * hi == c * hi + hi) by (nonlinear_arith);
    }
}

/// Pointwise bounds on a pair sequence: days in `[dlo, dhi]`, centers in
/// `[clo, chi]`.
pub open spec fn pairs_in(s: Seq<(i64, i64)>, dlo: int, dhi: int, clo: int, chi: int) -> bool {
    forall|i: int|
        0 <= i < s.len() ==> dlo <= (#[trigger] s[i]).0 as int <= dhi && clo <= s[i].1 as int
            <= chi
}

/// Centers weakly ascending.
pub open spec fn csorted(s: Seq<(i64, i64)>) -> bool {
    forall|i: int, j: int| 0 <= i < j < s.len() ==> (#[trigger] s[i]).1 <= (#[trigger] s[j]).1
}

/// Sum of a group's centers bounded by its length times the extremes.
proof fn lemma_centers_sum_hull(g: Seq<(i64, i64)>, clo: int, chi: int)
    requires
        forall|i: int| 0 <= i < g.len() ==> clo <= (#[trigger] g[i]).1 as int <= chi,
    ensures
        g.len() * clo <= centers_sum(g),
        centers_sum(g) <= g.len() * chi,
    decreases g.len(),
{
    if g.len() > 0 {
        let d = g.drop_last();
        assert(forall|i: int| 0 <= i < d.len() ==> clo <= (#[trigger] d[i]).1 as int <= chi);
        lemma_centers_sum_hull(d, clo, chi);
        let n = d.len() as int;
        assert(clo <= (#[trigger] g[g.len() - 1]).1 as int <= chi);
        assert(g.last() == g[g.len() - 1]);
        assert(g.len() as int == n + 1);
        assert((n + 1) * clo == n * clo + clo) by (nonlinear_arith);
        assert((n + 1) * chi == n * chi + chi) by (nonlinear_arith);
    } else {
        assert(centers_sum(g) == 0);
        assert(g.len() * clo == 0) by (nonlinear_arith)
            requires g.len() == 0;
        assert(g.len() * chi == 0) by (nonlinear_arith)
            requires g.len() == 0;
    }
}

/// Collapsing a sorted, bounded group keeps it sorted and bounded, and its
/// centers stay within the group's own hull.
proof fn lemma_group_collapse_props(g: Seq<(i64, i64)>, dlo: int, dhi: int, clo: int, chi: int)
    requires
        g.len() >= 1,
        pairs_in(g, dlo, dhi, clo, chi),
        csorted(g),
    ensures
        group_collapse(g).len() >= 1,
        pairs_in(group_collapse(g), dlo, dhi, clo, chi),
        csorted(group_collapse(g)),
        group_collapse(g).first().1 >= g.first().1,
        group_collapse(g).last().1 <= g.last().1,
{
    if g.len() > 1 && one_day(g) {
        assert(forall|i: int|
            0 <= i < g.len() ==> g.first().1 as int <= (#[trigger] g[i]).1 as int <= g.last().1 as int);
        lemma_centers_sum_hull(g, g.first().1 as int, g.last().1 as int);
        lemma_round_div_hull(
            centers_sum(g),
            g.len() as int,
            g.first().1 as int,
            g.last().1 as int,
        );
        let mean = round_div(centers_sum(g), g.len() as int);
        assert(g.first().1 as int <= mean <= g.last().1 as int);
        assert(mean as i64 as int == mean);
        assert(pairs_in(group_collapse(g), dlo, dhi, clo, chi)) by {
            assert(group_collapse(g)[0] == (g[0].0, mean as i64));
            assert(dlo <= g[0].0 as int <= dhi);
        }
    }
}

/// The merge pass keeps entries sorted and bounded, never empties a group's
/// worth of output, and never moves the front below the open group's front.
proof fn lemma_merge_rest_props(
    rest: Seq<(i64, i64)>,
    group: Seq<(i64, i64)>,
    dlo: int,
    dhi: int,
    clo: int,
    chi: int,
)
    requires
        group.len() >= 1,
        pairs_in(group, dlo, dhi, clo, chi),
        pairs_in(rest, dlo, dhi, clo, chi),
        csorted(group),
        csorted(rest),
        rest.len() > 0 ==> group.last().1 <= rest.first().1,
    ensures
        merge_rest(rest, group).len() >= 1,
        pairs_in(merge_rest(rest, group), dlo, dhi, clo, chi),
        csorted(merge_rest(rest, group)),
        merge_rest(rest, group).first().1 >= group.first().1,
    decreases rest.len(),
{
    lemma_group_collapse_props(group, dlo, dhi, clo, chi);
    if rest.len() == 0 {
    } else {
        let e = rest.first();
        let rest1 = rest.drop_first();
        assert(forall|i: int| 0 <= i < rest1.len() ==> rest1[i] == rest[i + 1]);
        assert(pairs_in(rest1, dlo, dhi, clo, chi));
        assert(csorted(rest1));
        if abs_diff(e.1, group.last().1) <= CENTER_MERGE_EPSILON as int {
            let g1 = group.push(e);
            assert(pairs_in(g1, dlo, dhi, clo, chi)) by {
                assert(forall|i: int| 0 <= i < group.len() ==> g1[i] == group[i]);
                assert(g1[g1.len() - 1] == e);
            }
            assert(csorted(g1)) by {
                assert forall|i: int, j: int| 0 <= i < j < g1.len() implies (#[trigger] g1[i]).1
                    <= (#[trigger] g1[j]).1 by {
                    if j < g1.len() - 1 {
                        assert(group[i].1 <= group[j].1);
                    } else {
                        assert(g1[j] == e);
                        if i < group.len() - 1 {
                            assert(group[i].1 <= group[group.len() - 1].1);
                        }
                    }
                }
            }
            assert(rest1.len() > 0 ==> g1.last().1 <= rest1.first().1) by {
                if rest1.len() > 0 {
                    assert(rest1[0] == rest[1]);
                    assert(rest[0].1 <= rest[1].1);
                }
            }
            lemma_merge_rest_props(rest1, g1, dlo, dhi, clo, chi);
            assert(g1.first() == group.first());
        } else {
            let g1 = seq![e];
            assert(rest1.len() > 0 ==> g1.last().1 <= rest1.first().1) by {
                if rest1.len() > 0 {
                    assert(rest1[0] == rest[1]);
                    assert(rest[0].1 <= rest[1].1);
                }
            }
            lemma_merge_rest_props(rest1, g1, dlo, dhi, clo, chi);
            let left = group_collapse(group);
            let right = merge_rest(rest1, g1);
            let r = left + right;
            assert(merge_rest(rest, group) == r);
            assert(forall|i: int| 0 <= i < left.len() ==> r[i] == left[i]);
            assert(forall|i: int| left.len() <= i < r.len() ==> r[i] == right[i - left.len()]);
            assert(pairs_in(r, dlo, dhi, clo, chi));
            assert(csorted(r)) by {
                assert forall|i: int, j: int| 0 <= i < j < r.len() implies (#[trigger] r[i]).1
                    <= (#[trigger] r[j]).1 by {
                    if j < left.len() {
                        assert(left[i].1 <= left[j].1);
                    } else if i >= left.len() {
                        assert(right[i - left.len()].1 <= right[j - left.len()].1);
                    } else {
                        // across the seam: left stays below the closed group's
                        // last center, right starts at or above the new entry
                        if i < left.len() - 1 {
                            assert(left[i].1 <= left[left.len() - 1].1);
                        }
                        assert(left[left.len() - 1].1 == left.last().1);
                        assert(left.last().1 <= group.last().1);
                        assert(group.last().1 <= e.1);
                        assert(right.first().1 >= e.1);
                        if j - left.len() > 0 {
                            assert(right[0].1 <= right[j - left.len()].1);
                        }
                    }
                }
            }
            assert(r.first().1 >= group.first().1) by {
                assert(r[0] == left[0]);
            }
        }
    }
}

/// Every observed day is a day index cast from the input, hence in range.
proof fn lemma_days_range(obs: Seq<(i32, Coord)>)
    ensures
        forall|t: int|
            0 <= t < days_of(obs).len() ==> i32::MIN as int <= #[trigger] days_of(obs)[t]
                <= i32::MAX as int,
    decreases obs.len(),
{
    if obs.len() > 0 {
        lemma_days_range(obs.drop_last());
        let rest = days_of(obs.drop_last());
        let days = days_of(obs);
        if obs.last().1 is Finite && !rest.contains(obs.last().0 as int) {
            assert(forall|t: int| 0 <= t < rest.len() ==> days[t] == rest[t]);
            assert(days.last() == obs.last().0 as int);
        }
    }
}

/// Copies a pair vector.
fn copy_pairs(v: &Vec<(i64, i64)>) -> (r: Vec<(i64, i64)>)
    ensures
        r@ == v@,
{
    let mut r: Vec<(i64, i64)> = Vec::new();
    let mut i: usize = 0;
    while i < v.len()
        invariant
            i <= v@.len(),
            r@ == v@.take(i as int),
        decreases v@.len() - i,
    {
        r.push(v[i]);
        proof {
            assert(r@ =~= v@.take(i as int + 1));
        }
        i += 1;
    }
    proof {
        assert(v@.take(v@.len() as int) =~= v@);
    }
    r
}

/// Collapses a closed merge group: when every member carries one day index,
/// the group becomes a single entry at the rounded mean of its centers;
/// otherwise (an ambiguous multi-day cluster) it is returned unchanged.
pub fn collapse_center_group(group: &Vec<(i64, i64)>) -> (r: Vec<(i64, i64)>)
    ensures
        r@ == group_collapse(group@),
{
    if group.len() <= 1 {
        return copy_pairs(group);
    }
    let first_day = group[0].0;
    let mut same = true;
    let mut i: usize = 1;
    while i < group.len()
        invariant
            1 <= i <= group@.len(),
            group@.len() >= 2,
            first_day == group@[0].0,
            same <==> (forall|t: int| 0 <= t < i ==> (#[trigger] group@[t]).0 == group@[0].0),
        decreases group@.len() - i,
    {
        if group[i].0 != first_day {
            same = false;
        }
        i += 1;
    }
    if same {
        proof {
            assert(one_day(group@));
        }
        let mut sum: i128 = 0;
        let mut j: usize = 0;
        while j < group.len()
            invariant
                j <= group@.len(),
                sum as int == centers_sum(group@.take(j as int)),
            decreases group@.len() - j,
        {
            proof {
                assert(group@.take(j as int + 1).drop_last() =~= group@.take(j as int));
                assert(group@.take(j as int + 1).last() == group@[j as int]);
                let pre = group@.take(j as int);
                assert(forall|t: int|
                    0 <= t < pre.len() ==> i64::MIN as int <= (#[trigger] pre[t]).1 as int
                        <= i64::MAX as int);
                lemma_centers_sum_hull(pre, i64::MIN as int, i64::MAX as int);
                let n = pre.len() as int;
                assert(n * (i64::MIN as int) >= (0xffff_ffff_ffff_ffffint) * (i64::MIN as int))
                    by (nonlinear_arith)
                    requires
                        0 <= n <= 0xffff_ffff_ffff_ffff,
                ;
                assert(n * (i64::MAX as int) <= (0xffff_ffff_ffff_ffffint) * (i64::MAX as int))
                    by (nonlinear_arith)
                    requires
                        0 <= n <= 0xffff_ffff_ffff_ffff,
                ;
            }
            sum = sum + group[j].1 as i128;
            j += 1;
        }
        proof {
            assert(group@.take(group@.len() as int) =~= group@);
            assert(forall|t: int|
                0 <= t < group@.len() ==> i64::MIN as int <= (#[trigger] group@[t]).1 as int
                    <= i64::MAX as int);
            lemma_centers_sum_hull(group@, i64::MIN as int, i64::MAX as int);
            let n = group@.len() as int;
            assert(n * (i64::MIN as int) >= (0xffff_ffff_ffff_ffffint) * (i64::MIN as int))
                by (nonlinear_arith)
                requires
                    0 <= n <= 0xffff_ffff_ffff_ffff,
            ;
            lemma_round_div_hull(centers_sum(group@), n, i64::MIN as int, i64::MAX as int);
        }
        let mean = round_div_i128(sum, group.len() as i128);
        let mut r: Vec<(i64, i64)> = Vec::new();
        r.push((first_day, mean as i64));
        proof {
            assert(r@ =~= group_collapse(group@));
        }
        r
    } else {
        proof {
            assert(!one_day(group@));
        }
        copy_pairs(group)
    }
}

/// Selects one horizontal band per surviving column center: the finite
/// centers of `centers` are averaged per day, sorted, chained near-duplicate
/// runs are merged, and each surviving entry receives the page interval
/// reaching halfway to its neighbours, clamped to `[0, page_w]` and dropped
/// when thinner than the minimum band width. Bounds are in half sub-units,
/// so a band `(day, lo, hi)` covers `[lo / 2, hi / 2]` sub-units. A page
/// width of zero or below yields no bands.
pub fn select_bands(centers: &Vec<(i32, Coord)>, page_w: i64) -> (r: Vec<Band>)
    requires
        page_w as int <= CENTER_LIMIT as int,
        forall|i: int|
            0 <= i < centers@.len() ==> coord_in(
                (#[trigger] centers@[i]).1,
                -(CENTER_LIMIT as int),
                CENTER_LIMIT as int,
            ),
    ensures
        bands_view(r@) == spec_select_bands(centers@, page_w as int),
{
    if page_w <= 0 {
        let r: Vec<Band> = Vec::new();
        proof {
            assert(bands_view(r@) =~= spec_select_bands(centers@, page_w as int));
        }
        return r;
    }

    // First pass: per-day sums and counts, days in first-appearance order.
    let mut groups: Vec<(i64, i128, usize)> = Vec::new();
    let mut i: usize = 0;
    while i < centers.len()
        invariant
            i <= centers@.len(),
            forall|t: int|
                0 <= t < centers@.len() ==> coord_in(
                    (#[trigger] centers@[t]).1,
                    -(CENTER_LIMIT as int),
                    CENTER_LIMIT as int,
                ),
            groups@.len() == days_of(centers@.take(i as int)).len(),
            forall|j: int|
                0 <= j < groups@.len() ==> {
                    let obs = centers@.take(i as int);
                    let days = days_of(obs);
                    &&& (#[trigger] groups@[j]).0 as int == days[j]
                    &&& groups@[j].1 as int == day_sum(obs, days[j])
                    &&& groups@[j].2 as int == day_cnt(obs, days[j])
                    &&& 1 <= groups@[j].2 <= i
                },
        decreases centers@.len() - i,
    {
        let ghost obs = centers@.take(i as int);
        let ghost days = days_of(obs);
        proof {
            assert(centers@.take(i as int + 1).drop_last() =~= centers@.take(i as int));
            assert(centers@.take(i as int + 1).last() == centers@[i as int]);
        }
        let entry = centers[i];
        match entry.1 {
            Coord::NonFinite => {
                proof {
                    assert(days_of(centers@.take(i as int + 1)) == days);
                }
            },
            Coord::Finite(v) => {
                let ghost obs1 = centers@.take(i as int + 1);
                let k = entry.0 as i64;
                let ghost ki = entry.0 as int;
                proof {
                    assert(k as int == ki);
                    lemma_days_distinct(obs);
                    assert(forall|t: int|
                        0 <= t < obs.len() ==> coord_in(
                            (#[trigger] obs[t]).1,
                            -(CENTER_LIMIT as int),
                            CENTER_LIMIT as int,
                        ));
                    assert(coord_in(centers@[i as int].1, -(CENTER_LIMIT as int), CENTER_LIMIT as int));
                }
                let j = crate::cluster::find_key(&groups, k);
                if j < groups.len() {
                    let g = groups[j];
                    proof {
                        assert(days[j as int] == ki);
                        assert(days.contains(ki));
                        assert(days_of(obs1) == days);
                        lemma_day_sum_hull(obs, ki, -(CENTER_LIMIT as int), CENTER_LIMIT as int);
                        let cc = day_cnt(obs, ki);
                        assert(cc * (-(CENTER_LIMIT as int)) >= (0xffff_ffff_ffff_ffffint) * (-(
                        CENTER_LIMIT as int))) by (nonlinear_arith)
                            requires
                                0 <= cc <= 0xffff_ffff_ffff_ffff,
                        ;
                        assert(cc * (CENTER_LIMIT as int) <= (0xffff_ffff_ffff_ffffint) * (
                        CENTER_LIMIT as int)) by (nonlinear_arith)
                            requires
                                0 <= cc <= 0xffff_ffff_ffff_ffff,
                        ;
                    }
                    groups.set(j, (g.0, g.1 + v as i128, g.2 + 1));
                    proof {
                        assert forall|t: int| 0 <= t < groups@.len() implies {
                            let days1 = days_of(obs1);
                            &&& (#[trigger] groups@[t]).0 as int == days1[t]
                            &&& groups@[t].1 as int == day_sum(obs1, days1[t])
                            &&& groups@[t].2 as int == day_cnt(obs1, days1[t])
                            &&& 1 <= groups@[t].2 <= i + 1
                        } by {
                            if t != j {
                                assert(days[t] != ki);
                            }
                        }
                    }
                } else {
                    proof {
                        assert forall|t: int| 0 <= t < days.len() implies days[t] != ki by {
                            assert((groups@[t]).0 as int == days[t]);
                            assert((groups@[t]).0 != k);
                        }
                        assert(!days.contains(ki));
                        lemma_day_absent(obs, ki);
                        assert(days_of(obs1) == days.push(ki));
                    }
                    groups.push((k, v as i128, 1));
                    proof {
                        let days1 = days_of(obs1);
                        assert forall|t: int| 0 <= t < groups@.len() implies {
                            &&& (#[trigger] groups@[t]).0 as int == days1[t]
                            &&& groups@[t].1 as int == day_sum(obs1, days1[t])
                            &&& groups@[t].2 as int == day_cnt(obs1, days1[t])
                            &&& 1 <= groups@[t].2 <= i + 1
                        } by {
                            if t < days.len() {
                                assert(days1[t] == days[t]);
                                assert(days[t] != ki);
                            } else {
                                assert(days1[t] == ki);
                            }
                        }
                    }
                }
            },
        }
        i += 1;
    }
    proof {
        assert(centers@.take(centers@.len() as int) =~= centers@);
    }
    let ghost days = days_of(centers@);

    // Second pass: rounded mean per day.
    let mut averaged: Vec<(i64, i64)> = Vec::new();
    let mut g: usize = 0;
    while g < groups.len()
        invariant
            g <= groups@.len(),
            averaged@.len() == g,
            groups@.len() == days.len(),
            days == days_of(centers@),
            forall|t: int|
                0 <= t < centers@.len() ==> coord_in(
                    (#[trigger] centers@[t]).1,
                    -(CENTER_LIMIT as int),
                    CENTER_LIMIT as int,
                ),
            forall|j: int|
                0 <= j < groups@.len() ==> {
                    &&& (#[trigger] groups@[j]).0 as int == days[j]
                    &&& groups@[j].1 as int == day_sum(centers@, days[j])
                    &&& groups@[j].2 as int == day_cnt(centers@, days[j])
                    &&& 1 <= groups@[j].2
                },
            forall|t: int| 0 <= t < g ==> averaged@[t] == averaged_pairs(centers@)[t],
            pairs_in(
                averaged@,
                i32::MIN as int,
                i32::MAX as int,
                -(CENTER_LIMIT as int),
                CENTER_LIMIT as int,
            ),
        decreases groups@.len() - g,
    {
        let entry = groups[g];
        proof {
            let di = days[g as int];
            lemma_day_sum_hull(centers@, di, -(CENTER_LIMIT as int), CENTER_LIMIT as int);
            let cc = day_cnt(centers@, di);
            assert(cc * (-(CENTER_LIMIT as int)) >= (0xffff_ffff_ffff_ffffint) * (-(
            CENTER_LIMIT as int))) by (nonlinear_arith)
                requires
                    0 <= cc <= 0xffff_ffff_ffff_ffff,
            ;
            lemma_round_div_hull(
                day_sum(centers@, di),
                cc,
                -(CENTER_LIMIT as int),
                CENTER_LIMIT as int,
            );
            lemma_days_range(centers@);
        }
        let mean = round_div_i128(entry.1, entry.2 as i128);
        averaged.push((entry.0, mean as i64));
        proof {
            assert(averaged@[g as int] == averaged_pairs(centers@)[g as int]);
        }
        g += 1;
    }
    proof {
        assert(averaged@ =~= averaged_pairs(centers@));
    }

    // Third pass: sort by center, ties by day.
    let sorted = sorted_pairs(&averaged);
    let ghost sseq = sort_lex(averaged_pairs(centers@));
    proof {
        lemma_sort_lex_all(
            averaged_pairs(centers@),
            |e: (i64, i64)|
                i32::MIN as int <= e.0 as int <= i32::MAX as int && -(CENTER_LIMIT as int)
                    <= e.1 as int <= CENTER_LIMIT as int,
        );
        assert(pairs_in(
            sseq,
            i32::MIN as int,
            i32::MAX as int,
            -(CENTER_LIMIT as int),
            CENTER_LIMIT as int,
        ));
        lemma_sort_lex_sorted(averaged_pairs(centers@));
        assert(csorted(sseq)) by {
            assert(forall|a: int, b: int|
                0 <= a < b < sseq.len() ==> lex_leq(#[trigger] sseq[a], #[trigger] sseq[b]));
        }
    }

    // Fourth pass: chained-epsilon merge.
    let mut merged: Vec<(i64, i64)> = Vec::new();
    if sorted.len() > 0 {
        let mut group: Vec<(i64, i64)> = Vec::new();
        group.push(sorted[0]);
        proof {
            assert(sseq.drop_first() =~= sseq.skip(1));
            assert(group@ =~= seq![sseq.first()]);
        }
        let mut t: usize = 1;
        while t < sorted.len()
            invariant
                1 <= t <= sorted@.len(),
                sorted@ == sseq,
                group@.len() >= 1,
                pairs_in(
                    sseq,
                    i32::MIN as int,
                    i32::MAX as int,
                    -(CENTER_LIMIT as int),
                    CENTER_LIMIT as int,
                ),
                pairs_in(
                    group@,
                    i32::MIN as int,
                    i32::MAX as int,
                    -(CENTER_LIMIT as int),
                    CENTER_LIMIT as int,
                ),
                merged@ + merge_rest(sseq.skip(t as int), group@) == spec_merge(sseq),
            decreases sorted@.len() - t,
        {
            let e = sorted[t];
            let last = group[group.len() - 1];
            proof {
                assert(sseq.skip(t as int)[0] == sseq[t as int]);
                assert(sseq.skip(t as int).first() == e);
                assert(sseq.skip(t as int).drop_first() =~= sseq.skip(t as int + 1));
                assert(group@.last() == last);
            }
            let d = if e.1 >= last.1 {
                e.1 - last.1
            } else {
                last.1 - e.1
            };
            proof {
                assert(d as int == abs_diff(e.1, last.1));
            }
            if d <= CENTER_MERGE_EPSILON {
                let ghost gold = group@;
                group.push(e);
                proof {
                    assert(group@ == gold.push(e));
                    assert(gold.last() == last);
                    assert(abs_diff(sseq.skip(t as int).first().1, gold.last().1)
                        <= CENTER_MERGE_EPSILON as int);
                    assert(merge_rest(sseq.skip(t as int), gold) == merge_rest(
                        sseq.skip(t as int).drop_first(),
                        gold.push(e),
                    ));
                    assert(merged@ + merge_rest(sseq.skip(t as int + 1), group@) == spec_merge(
                    sseq));
                }
            } else {
                let collapsed = collapse_center_group(&group);
                let mut collapsed_mut = collapsed;
                proof {
                    assert(merge_rest(sseq.skip(t as int), group@) == group_collapse(group@)
                        + merge_rest(sseq.skip(t as int + 1), seq![e]));
                }
                merged.append(&mut collapsed_mut);
                group = Vec::new();
                group.push(e);
                proof {
                    assert(group@ =~= seq![e]);
                    assert((merged@ + merge_rest(sseq.skip(t as int + 1), group@)) =~= spec_merge(
                    sseq));
                }
            }
            t += 1;
        }
        let collapsed = collapse_center_group(&group);
        let mut collapsed_mut = collapsed;
        proof {
            assert(sseq.skip(sorted@.len() as int) =~= Seq::<(i64, i64)>::empty());
            assert(merge_rest(sseq.skip(sorted@.len() as int), group@) == group_collapse(group@));
        }
        merged.append(&mut collapsed_mut);
        proof {
            assert(merged@ == spec_merge(sseq));
        }
    } else {
        proof {
            assert(sseq.len() == 0);
            assert(merged@ =~= spec_merge(sseq));
        }
    }
    let ghost ms = spec_merge(sseq);
    proof {
        if sseq.len() > 0 {
            assert(forall|a: int|
                0 <= a < sseq.drop_first().len() ==> sseq.drop_first()[a] == sseq[a + 1]);
            lemma_merge_rest_props(
                sseq.drop_first(),
                seq![sseq.first()],
                i32::MIN as int,
                i32::MAX as int,
                -(CENTER_LIMIT as int),
                CENTER_LIMIT as int,
            );
        }
        assert(pairs_in(
            ms,
            i32::MIN as int,
            i32::MAX as int,
            -(CENTER_LIMIT as int),
            CENTER_LIMIT as int,
        ));
        assert(csorted(ms));
    }

    // Fifth pass: one midpoint-split band per surviving entry.
    let mut bands: Vec<Band> = Vec::new();
    let count = merged.len();
    let mut b: usize = 0;
    while b < count
        invariant
            b <= count,
            count == merged@.len(),
            merged@ == ms,
            csorted(ms),
            pairs_in(
                ms,
                i32::MIN as int,
                i32::MAX as int,
                -(CENTER_LIMIT as int),
                CENTER_LIMIT as int,
            ),
            0 < page_w as int <= CENTER_LIMIT as int,
            bands_view(bands@) == bands_prefix(ms, page_w as int, b as int),
        decreases count - b,
    {
        let e = merged[b];
        let c = e.1;
        proof {
            assert(pairs_in_at(ms, b as int));
            if count > 1 {
                if b == 0 {
                    assert(pairs_in_at(ms, 1));
                    assert(ms[0].1 <= ms[1].1);
                } else if b == count - 1 {
                    assert(pairs_in_at(ms, b as int - 1));
                    assert(ms[b as int - 1].1 <= ms[b as int].1);
                } else {
                    assert(pairs_in_at(ms, b as int - 1));
                    assert(pairs_in_at(ms, b as int + 1));
                    assert(ms[b as int - 1].1 <= ms[b as int].1);
                    assert(ms[b as int].1 <= ms[b as int + 1].1);
                }
            }
        }
        let (x0r, x1r): (i64, i64) = if count == 1 {
            (0, 2 * page_w)
        } else if b == 0 {
            let nx = merged[1].1;
            (3 * c - nx, c + nx)
        } else if b == count - 1 {
            let pv = merged[b - 1].1;
            (c + pv, 3 * c - pv)
        } else {
            let pv = merged[b - 1].1;
            let nx = merged[b + 1].1;
            (pv + c, c + nx)
        };
        proof {
            assert(x0r as int <= x1r as int);
        }
        let a0 = if x0r < 0 {
            0
        } else {
            x0r
        };
        let b0 = if x1r > 2 * page_w {
            2 * page_w
        } else {
            x1r
        };
        let (lo, hi) = if b0 < a0 {
            (b0, a0)
        } else {
            (a0, b0)
        };
        proof {
            assert((lo as int, hi as int) == clamp_swap(x0r as int, x1r as int, 2 * page_w as int));
        }
        let width = hi - lo;
        if width >= 2 * MIN_BAND_WIDTH && lo < hi {
            proof {
                assert(band_at(ms, page_w as int, b as int) == Some(
                    (e.0, lo as int, hi as int),
                ));
            }
            bands.push(
                Band { day: e.0 as i32, lo, hi },
            );
            proof {
                assert(bands_view(bands@) =~= bands_prefix(ms, page_w as int, b as int + 1));
            }
        } else {
            proof {
                assert(band_at(ms, page_w as int, b as int) is None);
                assert(bands_view(bands@) =~= bands_prefix(ms, page_w as int, b as int + 1));
            }
        }
        b += 1;
    }
    proof {
        assert(bands_view(bands@) == spec_select_bands(centers@, page_w as int));
    }
    bands
}

/// A day with at least one finite reading has a positive count.
proof fn lemma_day_present(obs: Seq<(i32, Coord)>, d: int)
    requires
        days_of(obs).contains(d),
    ensures
        day_cnt(obs, d) >= 1,
    decreases obs.len(),
{
    lemma_day_cnt_nonneg(obs.drop_last(), d);
    if obs.len() > 0 {
        let rest = days_of(obs.drop_last());
        match obs.last().1 {
            Coord::Finite(v) => {
                let ld = obs.last().0 as int;
                if d == ld {
                } else {
                    if !rest.contains(ld) {
                        let days = rest.push(ld);
                        let w = choose|w: int| 0 <= w < days.len() && days[w] == d;
                        assert(w < rest.len());
                        assert(rest[w] == d);
                        assert(rest.contains(d));
                    }
                    lemma_day_present(obs.drop_last(), d);
                }
            },
            Coord::NonFinite => {
                lemma_day_present(obs.drop_last(), d);
            },
        }
    }
}

proof fn lemma_day_cnt_nonneg(obs: Seq<(i32, Coord)>, d: int)
    ensures
        day_cnt(obs, d) >= 0,
    decreases obs.len(),
{
    if obs.len() > 0 {
        lemma_day_cnt_nonneg(obs.drop_last(), d);
    }
}

/// Every band of the prefix meets the minimum width and is nondegenerate.
proof fn lemma_bands_prefix_width(m: Seq<(i64, i64)>, pw: int, n: int)
    ensures
        forall|t: int|
            0 <= t < bands_prefix(m, pw, n).len() ==> {
                let band = #[trigger] bands_prefix(m, pw, n)[t];
                band.1 < band.2 && band.2 - band.1 >= 2 * MIN_BAND_WIDTH as int
            },
    decreases n,
{
    if n > 0 {
        lemma_bands_prefix_width(m, pw, n - 1);
        let rest = bands_prefix(m, pw, n - 1);
        match band_at(m, pw, n - 1) {
            Some(band) => {
                assert(forall|t: int| 0 <= t < rest.len() ==> rest.push(band)[t] == rest[t]);
                assert(rest.push(band).last() == band);
            },
            None => {},
        }
    }
}

/// Every returned band is nondegenerate and at least the minimum band width
/// wide (widths are in half sub-units: twice `MIN_BAND_WIDTH`).
pub proof fn lemma_band_selector_min_width(obs: Seq<(i32, Coord)>, pw: int)
    ensures
        forall|t: int|
            0 <= t < spec_select_bands(obs, pw).len() ==> {
                let band = #[trigger] spec_select_bands(obs, pw)[t];
                band.1 < band.2 && band.2 - band.1 >= 2 * MIN_BAND_WIDTH as int
            },
{
    if pw > 0 {
        let m = spec_merge(sort_lex(averaged_pairs(obs)));
        lemma_bands_prefix_width(m, pw, m.len() as int);
    }
}

/// With sorted in-page centers, a band never leaves the page.
proof fn lemma_band_at_in_page(m: Seq<(i64, i64)>, pw: int, i: int)
    requires
        pw >= 1,
        0 <= i < m.len(),
        csorted(m),
        forall|t: int| 0 <= t < m.len() ==> 0 <= (#[trigger] m[t]).1 as int <= pw,
    ensures
        match band_at(m, pw, i) {
            Some(band) => 0 <= band.1 && band.2 <= 2 * pw,
            None => true,
        },
{
    assert(0 <= m[i].1 as int <= pw);
    if m.len() > 1 {
        if i == 0 {
            assert(0 <= m[1].1 as int <= pw);
            assert(m[0].1 <= m[1].1);
        } else if i == m.len() - 1 {
            assert(0 <= m[i - 1].1 as int <= pw);
            assert(m[i - 1].1 <= m[i].1);
        } else {
            assert(0 <= m[i - 1].1 as int <= pw);
            assert(0 <= m[i + 1].1 as int <= pw);
            assert(m[i - 1].1 <= m[i].1);
            assert(m[i].1 <= m[i + 1].1);
        }
    }
}

proof fn lemma_bands_prefix_in_page(m: Seq<(i64, i64)>, pw: int, n: int)
    requires
        pw >= 1,
        n <= m.len(),
        csorted(m),
        forall|t: int| 0 <= t < m.len() ==> 0 <= (#[trigger] m[t]).1 as int <= pw,
    ensures
        forall|t: int|
            0 <= t < bands_prefix(m, pw, n).len() ==> {
                let band = #[trigger] bands_prefix(m, pw, n)[t];
                0 <= band.1 && band.2 <= 2 * pw
            },
    decreases n,
{
    if n > 0 {
        lemma_bands_prefix_in_page(m, pw, n - 1);
        let rest = bands_prefix(m, pw, n - 1);
        match band_at(m, pw, n - 1) {
            Some(band) => {
                lemma_band_at_in_page(m, pw, n - 1);
                assert(forall|t: int| 0 <= t < rest.len() ==> rest.push(band)[t] == rest[t]);
                assert(rest.push(band).last() == band);
            },
            None => {},
        }
    }
}

/// When every finite center lies on the page, every returned band lies
/// within `[0, page width]` (doubled bounds: `[0, 2 * pw]`) and has at least
/// the minimum width. Off-page centers can drag a clamped band outside.
pub proof fn lemma_band_selector_in_page(obs: Seq<(i32, Coord)>, pw: int)
    requires
        1 <= pw <= i64::MAX as int,
        forall|i: int| 0 <= i < obs.len() ==> coord_in((#[trigger] obs[i]).1, 0, pw),
    ensures
        forall|t: int|
            0 <= t < spec_select_bands(obs, pw).len() ==> {
                let band = #[trigger] spec_select_bands(obs, pw)[t];
                0 <= band.1 && band.1 < band.2 && band.2 <= 2 * pw && band.2 - band.1 >= 2 * (
                MIN_BAND_WIDTH as int)
            },
{
    let ap = averaged_pairs(obs);
    assert forall|t: int| 0 <= t < ap.len() implies 0 <= (#[trigger] ap[t]).1 as int <= pw by {
        let d = days_of(obs)[t];
        assert(days_of(obs).contains(d));
        lemma_day_present(obs, d);
        lemma_day_sum_hull(obs, d, 0, pw);
        lemma_round_div_hull(day_sum(obs, d), day_cnt(obs, d), 0, pw);
        assert(ap[t] == (d as i64, day_mean(obs, d) as i64));
    }
    let ss = sort_lex(ap);
    lemma_sort_lex_all(ap, |e: (i64, i64)| 0 <= e.1 as int <= pw);
    lemma_sort_lex_sorted(ap);
    assert(csorted(ss)) by {
        assert(forall|a: int, b: int|
            0 <= a < b < ss.len() ==> lex_leq(#[trigger] ss[a], #[trigger] ss[b]));
    }
    let m = spec_merge(ss);
    if ss.len() > 0 {
        assert(forall|a: int|
            0 <= a < ss.drop_first().len() ==> ss.drop_first()[a] == ss[a + 1]);
        lemma_merge_rest_props(
            ss.drop_first(),
            seq![ss.first()],
            i64::MIN as int,
            i64::MAX as int,
            0,
            pw,
        );
    }
    assert(forall|t: int| 0 <= t < m.len() ==> 0 <= (#[trigger] m[t]).1 as int <= pw);
    lemma_bands_prefix_in_page(m, pw, m.len() as int);
    lemma_bands_prefix_width(m, pw, m.len() as int);
}

/// Exactly one averaged observation claims the whole page, whatever its
/// center: the single band is `[0, page width]` (doubled bounds).
pub proof fn lemma_band_selector_single(obs: Seq<(i32, Coord)>, pw: int)
    requires
        MIN_BAND_WIDTH as int <= pw,
        days_of(obs).len() == 1,
    ensures
        spec_select_bands(obs, pw) == seq![(days_of(obs)[0] as i64, 0int, 2 * pw)],
{
    let ap = averaged_pairs(obs);
    assert(ap.len() == 1);
    let x = ap[0];
    assert(ap.last() == x);
    assert(ap.drop_last() =~= Seq::<(i64, i64)>::empty());
    assert(sort_lex(Seq::<(i64, i64)>::empty()) == Seq::<(i64, i64)>::empty());
    assert(insert_lex(Seq::<(i64, i64)>::empty(), x) == seq![x]);
    assert(sort_lex(ap) == seq![x]);
    let s = seq![x];
    assert(s.first() == x);
    assert(s.drop_first() =~= Seq::<(i64, i64)>::empty());
    assert(seq![s.first()] =~= s);
    assert(merge_rest(Seq::<(i64, i64)>::empty(), s) == group_collapse(s));
    assert(group_collapse(s) == s);
    assert(spec_merge(s) == s);
    assert(band_at(s, pw, 0) == Some((x.0, 0int, 2 * pw))) by {
        assert(clamp_swap(0, 2 * pw, 2 * pw) == (0int, 2 * pw));
    }
    assert(bands_prefix(s, pw, 0) == Seq::<(i64, int, int)>::empty());
    assert(bands_prefix(s, pw, 1) =~= seq![(x.0, 0int, 2 * pw)]);
    assert(x.0 == days_of(obs)[0] as i64);
    assert(spec_select_bands(obs, pw) == seq![(days_of(obs)[0] as i64, 0int, 2 * pw)]);
}

/// Three pairwise well-separated centers on the page split it at the exact
/// midpoints: the middle day's band runs from `(c1+c2)/2` to `(c2+c3)/2`
/// (in half sub-units: from `c1+c2` to `c2+c3`).
pub proof fn lemma_band_selector_split(
    d1: i32,
    d2: i32,
    d3: i32,
    c1: i64,
    c2: i64,
    c3: i64,
    pw: int,
)
    requires
        d1 != d2,
        d1 != d3,
        d2 != d3,
        0 <= c1 as int,
        c3 as int <= pw,
        pw <= CENTER_LIMIT as int,
        (c1 as int) + (CENTER_MERGE_EPSILON as int) < (c2 as int),
        (c2 as int) + (CENTER_MERGE_EPSILON as int) < (c3 as int),
        c3 as int - c1 as int >= 2 * MIN_BAND_WIDTH as int,
    ensures
        spec_select_bands(
            seq![(d1, Coord::Finite(c1)), (d2, Coord::Finite(c2)), (d3, Coord::Finite(c3))],
            pw,
        ).contains((d2 as i64, c1 as int + c2 as int, c2 as int + c3 as int)),
{
    let o1 = (d1, Coord::Finite(c1));
    let o2 = (d2, Coord::Finite(c2));
    let o3 = (d3, Coord::Finite(c3));
    let obs = seq![o1, o2, o3];
    let obs2 = seq![o1, o2];
    let obs1 = seq![o1];
    let obs0 = Seq::<(i32, Coord)>::empty();
    assert(obs.drop_last() =~= obs2);
    assert(obs2.drop_last() =~= obs1);
    assert(obs1.drop_last() =~= obs0);

    // days, sums, counts
    assert(days_of(obs0) =~= Seq::<int>::empty());
    assert(days_of(obs1) =~= seq![d1 as int]);
    assert(!days_of(obs1).contains(d2 as int)) by {
        assert(days_of(obs1)[0] == d1 as int);
    }
    assert(days_of(obs2) =~= seq![d1 as int, d2 as int]);
    assert(!days_of(obs2).contains(d3 as int)) by {
        assert(days_of(obs2)[0] == d1 as int);
        assert(days_of(obs2)[1] == d2 as int);
    }
    let days = days_of(obs);
    assert(days =~= seq![d1 as int, d2 as int, d3 as int]);

    assert(day_sum(obs0, d1 as int) == 0 && day_cnt(obs0, d1 as int) == 0);
    assert(day_sum(obs1, d1 as int) == c1 as int && day_cnt(obs1, d1 as int) == 1);
    assert(day_sum(obs2, d1 as int) == c1 as int && day_cnt(obs2, d1 as int) == 1);
    assert(day_sum(obs, d1 as int) == c1 as int && day_cnt(obs, d1 as int) == 1);
    assert(day_sum(obs0, d2 as int) == 0 && day_cnt(obs0, d2 as int) == 0);
    assert(day_sum(obs1, d2 as int) == 0 && day_cnt(obs1, d2 as int) == 0);
    assert(day_sum(obs2, d2 as int) == c2 as int && day_cnt(obs2, d2 as int) == 1);
    assert(day_sum(obs, d2 as int) == c2 as int && day_cnt(obs, d2 as int) == 1);
    assert(day_sum(obs0, d3 as int) == 0 && day_cnt(obs0, d3 as int) == 0);
    assert(day_sum(obs1, d3 as int) == 0 && day_cnt(obs1, d3 as int) == 0);
    assert(day_sum(obs2, d3 as int) == 0 && day_cnt(obs2, d3 as int) == 0);
    assert(day_sum(obs, d3 as int) == c3 as int && day_cnt(obs, d3 as int) == 1);
    lemma_round_div_hull(c1 as int, 1, c1 as int, c1 as int);
    lemma_round_div_hull(c2 as int, 1, c2 as int, c2 as int);
    lemma_round_div_hull(c3 as int, 1, c3 as int, c3 as int);
    let p1 = (d1 as i64, c1);
    let p2 = (d2 as i64, c2);
    let p3 = (d3 as i64, c3);
    let ap = averaged_pairs(obs);
    assert(ap =~= seq![p1, p2, p3]) by {
        assert(ap[0] == (days[0] as i64, day_mean(obs, days[0]) as i64));
        assert(ap[1] == (days[1] as i64, day_mean(obs, days[1]) as i64));
        assert(ap[2] == (days[2] as i64, day_mean(obs, days[2]) as i64));
    }

    // sorting leaves the already-ascending centers in place
    let a2 = seq![p1, p2];
    let a1 = seq![p1];
    assert(ap.drop_last() =~= a2);
    assert(a2.drop_last() =~= a1);
    assert(a1.drop_last() =~= Seq::<(i64, i64)>::empty());
    assert(sort_lex(Seq::<(i64, i64)>::empty()) == Seq::<(i64, i64)>::empty());
    assert(a1.last() == p1);
    assert(sort_lex(a1) == insert_lex(Seq::<(i64, i64)>::empty(), p1));
    assert(sort_lex(a1) == seq![p1]);
    assert(lex_leq(p1, p2));
    assert(sort_lex(a2) == insert_lex(seq![p1], p2));
    assert(seq![p1].last() == p1);
    assert(insert_lex(seq![p1], p2) == seq![p1].push(p2));
    assert(seq![p1].push(p2) =~= a2);
    assert(lex_leq(p2, p3));
    assert(sort_lex(ap) == insert_lex(a2, p3));
    assert(a2.last() == p2);
    assert(insert_lex(a2, p3) == a2.push(p3));
    assert(a2.push(p3) =~= ap);
    assert(sort_lex(ap) == ap);

    // merging keeps all three apart
    assert(ap.first() == p1);
    assert(ap.drop_first() =~= seq![p2, p3]);
    assert(seq![p2, p3].first() == p2);
    assert(abs_diff(p2.1, seq![p1].last().1) == c2 as int - c1 as int);
    assert(seq![p2, p3].drop_first() =~= seq![p3]);
    assert(abs_diff(p3.1, seq![p2].last().1) == c3 as int - c2 as int);
    assert(seq![p3].drop_first() =~= Seq::<(i64, i64)>::empty());
    assert(merge_rest(Seq::<(i64, i64)>::empty(), seq![p3]) == group_collapse(seq![p3]));
    assert(group_collapse(seq![p3]) == seq![p3]);
    assert(merge_rest(seq![p3], seq![p2]) == group_collapse(seq![p2]) + merge_rest(
        Seq::<(i64, i64)>::empty(),
        seq![p3],
    ));
    assert(group_collapse(seq![p2]) == seq![p2]);
    assert(merge_rest(seq![p2, p3], seq![p1]) == group_collapse(seq![p1]) + merge_rest(
        seq![p3],
        seq![p2],
    ));
    assert(group_collapse(seq![p1]) == seq![p1]);
    let m = spec_merge(ap);
    assert(m == seq![p1] + (seq![p2] + seq![p3]));
    assert(m =~= ap);

    // the middle band
    assert(band_at(ap, pw, 1) == Some((d2 as i64, c1 as int + c2 as int, c2 as int + c3 as int)))
        by {
        assert(ap[1].1 as int == c2 as int);
        assert(clamp_swap(c1 as int + c2 as int, c2 as int + c3 as int, 2 * pw) == (
            c1 as int + c2 as int,
            c2 as int + c3 as int,
        ));
    }
    let mid = (d2 as i64, c1 as int + c2 as int, c2 as int + c3 as int);
    let bp1 = bands_prefix(ap, pw, 1);
    let bp2 = bands_prefix(ap, pw, 2);
    let bp3 = bands_prefix(ap, pw, 3);
    assert(bp2 == bp1.push(mid));
    assert(bp2[bp2.len() - 1] == mid);
    assert(bp2.contains(mid));
    assert(bp3.contains(mid)) by {
        match band_at(ap, pw, 2) {
            Some(band) => {
                assert(bp3 == bp2.push(band));
                assert(bp3[bp2.len() - 1] == mid);
            },
            None => {
                assert(bp3 == bp2);
            },
        }
    }
    assert(spec_select_bands(obs, pw) == bp3);
}

/// The band selector is a pure function: equal inputs give equal outputs.
pub proof fn lemma_band_selector_deterministic(
    obs: Seq<(i32, Coord)>,
    pw: int,
    r1: Seq<(i64, int, int)>,
    r2: Seq<(i64, int, int)>,
)
    requires
        r1 == spec_select_bands(obs, pw),
        r2 == spec_select_bands(obs, pw),
    ensures
        r1 == r2,
{
}

/// Entry `i` of `s` is within the working bounds.
spec fn pairs_in_at(s: Seq<(i64, i64)>, i: int) -> bool {
    0 <= i < s.len() && i32::MIN as int <= s[i].0 as int <= i32::MAX as int && -(
    CENTER_LIMIT as int) <= s[i].1 as int <= CENTER_LIMIT as int
}

} // verus!
