use hushdesk_accel::bands::{collapse_center_group, select_bands, Band};
use hushdesk_accel::coord::Coord;

// Centers and page widths are in sub-units (1000 per host unit); band bounds
// are in half sub-units, so a band (lo, hi) covers [lo / 2000, hi / 2000]
// host units.

#[test]
fn empty_input_yields_empty_mapping() {
    let r = select_bands(&vec![], 612_000);
    assert_eq!(r, Vec::<Band>::new());
}

#[test]
fn non_positive_page_width_yields_empty_mapping() {
    let r = select_bands(&vec![(1, Coord::Finite(100_000))], 0);
    assert_eq!(r, Vec::<Band>::new());
    let r = select_bands(&vec![(1, Coord::Finite(100_000))], -5);
    assert_eq!(r, Vec::<Band>::new());
}

#[test]
fn only_non_finite_yields_empty_mapping() {
    let r = select_bands(&vec![(1, Coord::NonFinite), (2, Coord::NonFinite)], 612_000);
    assert_eq!(r, Vec::<Band>::new());
}

#[test]
fn single_entry_claims_whole_page() {
    let r = select_bands(&vec![(3, Coord::Finite(250_000))], 612_000);
    assert_eq!(r, vec![Band { day: 3, lo: 0, hi: 1_224_000 }]);
}

#[test]
fn same_day_entries_are_averaged_first() {
    let obs = vec![(2, Coord::Finite(100_000)), (2, Coord::Finite(200_000))];
    let r = select_bands(&obs, 612_000);
    // one averaged observation: the band is the whole page
    assert_eq!(r, vec![Band { day: 2, lo: 0, hi: 1_224_000 }]);
}

#[test]
fn well_separated_centers_split_at_midpoints() {
    let obs = vec![
        (1, Coord::Finite(100_000)),
        (2, Coord::Finite(300_000)),
        (3, Coord::Finite(500_000)),
    ];
    let r = select_bands(&obs, 612_000);
    assert_eq!(
        r,
        vec![
            Band { day: 1, lo: 0, hi: 400_000 },
            Band { day: 2, lo: 400_000, hi: 800_000 },
            Band { day: 3, lo: 800_000, hi: 1_200_000 },
        ],
    );
}

#[test]
fn bands_are_clamped_to_the_page() {
    let obs = vec![(1, Coord::Finite(10_000)), (2, Coord::Finite(600_000))];
    let r = select_bands(&obs, 612_000);
    assert_eq!(
        r,
        vec![
            Band { day: 1, lo: 0, hi: 610_000 },
            Band { day: 2, lo: 610_000, hi: 1_224_000 },
        ],
    );
}

#[test]
fn near_duplicate_days_produce_no_thin_bands() {
    // centers 1 unit apart merge into one ambiguous two-day group; both
    // resulting slivers fall below the minimum width and are dropped
    let obs = vec![(1, Coord::Finite(100_000)), (2, Coord::Finite(101_000))];
    let r = select_bands(&obs, 612_000);
    assert_eq!(r, Vec::<Band>::new());
}

#[test]
fn every_band_is_wide_enough_and_on_page() {
    let obs = vec![
        (1, Coord::Finite(50_000)),
        (2, Coord::Finite(51_000)),
        (3, Coord::Finite(200_000)),
        (4, Coord::Finite(400_000)),
        (4, Coord::Finite(410_000)),
    ];
    let page_w = 612_000_i64;
    let r = select_bands(&obs, page_w);
    for band in &r {
        assert!(band.hi - band.lo >= 10_000); // 5 units in half sub-units
        assert!(0 <= band.lo && band.lo < band.hi && band.hi <= 2 * page_w);
    }
}

#[test]
fn collapse_merges_a_single_day_group() {
    let r = collapse_center_group(&vec![(5, 10_000), (5, 20_000)]);
    assert_eq!(r, vec![(5, 15_000)]);
}

#[test]
fn collapse_mean_rounds_ties_away_from_zero() {
    let r = collapse_center_group(&vec![(5, 10), (5, 11)]);
    assert_eq!(r, vec![(5, 11)]);
}

#[test]
fn collapse_keeps_an_ambiguous_multi_day_group() {
    let g = vec![(5, 10_000), (6, 10_500), (5, 11_000)];
    let r = collapse_center_group(&g);
    assert_eq!(r, g);
}

#[test]
fn collapse_keeps_empty_and_singleton_groups() {
    assert_eq!(collapse_center_group(&vec![]), Vec::<(i64, i64)>::new());
    assert_eq!(collapse_center_group(&vec![(7, 42)]), vec![(7, 42)]);
}

#[test]
fn repeated_band_calls_give_identical_results() {
    let obs = vec![
        (1, Coord::Finite(100_000)),
        (2, Coord::Finite(300_000)),
        (1, Coord::NonFinite),
    ];
    let first = select_bands(&obs, 612_000);
    let second = select_bands(&obs, 612_000);
    assert_eq!(first, second);
}
