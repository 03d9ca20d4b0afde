use hushdesk_accel::stitch::stitch_bp;

fn lines(v: &[&str]) -> Vec<String> {
    v.iter().map(|s| s.to_string()).collect()
}

#[test]
fn fewer_than_two_lines_yield_none() {
    assert_eq!(stitch_bp(&lines(&[])), None);
    assert_eq!(stitch_bp(&lines(&["12/"])), None);
}

#[test]
fn stitches_a_split_code() {
    let r = stitch_bp(&lines(&["12/", "345", "unrelated"]));
    assert_eq!(r, Some("12/345".to_string()));
}

#[test]
fn non_digit_suffix_yields_none() {
    assert_eq!(stitch_bp(&lines(&["1/", "abc"])), None);
}

#[test]
fn short_suffix_candidates_are_skipped() {
    // "x" is not digits; "7" is one digit only: no valid suffix anywhere
    assert_eq!(stitch_bp(&lines(&["99/", "x", "7"])), None);
}

#[test]
fn whitespace_is_stripped_before_matching() {
    let r = stitch_bp(&lines(&[" 1 2 / ", "\t3 4\u{00A0}5"]));
    assert_eq!(r, Some("12/345".to_string()));
}

#[test]
fn prefix_needs_two_or_three_digits() {
    assert_eq!(stitch_bp(&lines(&["1234/", "56"])), None);
    assert_eq!(stitch_bp(&lines(&["1/", "56"])), None);
    assert_eq!(stitch_bp(&lines(&["123/", "56"])), Some("123/56".to_string()));
}

#[test]
fn first_valid_suffix_after_the_prefix_wins() {
    let r = stitch_bp(&lines(&["12/", "9999", "345"]));
    assert_eq!(r, Some("12/345".to_string()));
}

#[test]
fn a_failed_prefix_does_not_stop_the_scan() {
    let r = stitch_bp(&lines(&["12/", "34/", "56"]));
    assert_eq!(r, Some("12/56".to_string()));
}

#[test]
fn no_prefix_line_yields_none() {
    assert_eq!(stitch_bp(&lines(&["abc", "123", "456"])), None);
}
