use hushdesk_accel::coord::Coord;
use hushdesk_accel::cluster::y_cluster;

// Coordinates are in sub-units: 1000 per host unit.

#[test]
fn empty_input_yields_empty_output() {
    let r = y_cluster(&vec![], 4);
    assert_eq!(r, Vec::<i64>::new());
}

#[test]
fn only_non_finite_yields_empty_output() {
    let r = y_cluster(&vec![Coord::NonFinite, Coord::NonFinite], 4);
    assert_eq!(r, Vec::<i64>::new());
}

#[test]
fn non_finite_readings_are_discarded() {
    let r = y_cluster(
        &vec![Coord::Finite(10_000), Coord::NonFinite, Coord::Finite(10_400)],
        5,
    );
    assert_eq!(r, vec![10_200]);
}

#[test]
fn groups_by_bin_and_averages() {
    // bin 5 units: 10.0 and 10.4 share key 2, 30.0 has key 6
    let pts = vec![
        Coord::Finite(10_000),
        Coord::Finite(10_400),
        Coord::Finite(30_000),
    ];
    let r = y_cluster(&pts, 5);
    assert_eq!(r, vec![10_200, 30_000]);
}

#[test]
fn zero_bin_behaves_like_one_unit() {
    let pts = vec![Coord::Finite(1_499), Coord::Finite(2_600)];
    let with_zero = y_cluster(&pts, 0);
    let with_negative = y_cluster(&pts, -7);
    let with_one = y_cluster(&pts, 1);
    assert_eq!(with_zero, with_one);
    assert_eq!(with_negative, with_one);
}

#[test]
fn bin_key_rounds_ties_away_from_zero() {
    // 7.5 units at bin 5 rounds to key 2; -7.5 to key -2
    let pts = vec![Coord::Finite(7_500), Coord::Finite(-7_500)];
    let r = y_cluster(&pts, 5);
    assert_eq!(r, vec![-7_500, 7_500]);
}

#[test]
fn mean_rounds_ties_away_from_zero() {
    // one big bin holds 1 and 2 sub-units; their mean 1.5 rounds to 2
    let pts = vec![Coord::Finite(1), Coord::Finite(2)];
    let r = y_cluster(&pts, 1_000);
    assert_eq!(r, vec![2]);
}

#[test]
fn output_is_sorted_ascending() {
    let pts = vec![
        Coord::Finite(50_000),
        Coord::Finite(10_000),
        Coord::Finite(-3_000),
    ];
    let r = y_cluster(&pts, 1);
    assert_eq!(r, vec![-3_000, 10_000, 50_000]);
    for w in r.windows(2) {
        assert!(w[0] < w[1]);
    }
}

#[test]
fn repeated_cluster_calls_give_identical_results() {
    let pts = vec![
        Coord::Finite(10_000),
        Coord::Finite(10_400),
        Coord::NonFinite,
        Coord::Finite(30_000),
    ];
    let first = y_cluster(&pts, 5);
    let second = y_cluster(&pts, 5);
    assert_eq!(first, second);
}
