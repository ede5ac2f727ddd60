use procfs_core::num::{parse_isize, parse_usize};

#[test]
fn plain_digits_parse() {
    assert_eq!(parse_isize("0"), Ok(0));
    assert_eq!(parse_isize("1048575"), Ok(1048575));
    assert_eq!(parse_usize("27"), Ok(27));
}

#[test]
fn leading_zeros_are_accepted() {
    assert_eq!(parse_isize("007"), Ok(7));
    assert_eq!(parse_usize("000"), Ok(0));
}

#[test]
fn signs_follow_signedness() {
    assert_eq!(parse_isize("-42"), Ok(-42));
    assert_eq!(parse_isize("+42"), Ok(42));
    assert_eq!(parse_isize("-0"), Ok(0));
    assert_eq!(parse_usize("+42"), Ok(42));
    assert_eq!(parse_usize("-42"), Err(()));
}

#[test]
fn empty_or_sign_only_is_rejected() {
    assert_eq!(parse_isize(""), Err(()));
    assert_eq!(parse_isize("-"), Err(()));
    assert_eq!(parse_isize("+"), Err(()));
    assert_eq!(parse_usize(""), Err(()));
    assert_eq!(parse_usize("+"), Err(()));
}

#[test]
fn surrounding_whitespace_is_rejected() {
    assert_eq!(parse_isize(" 5"), Err(()));
    assert_eq!(parse_isize("5 "), Err(()));
    assert_eq!(parse_usize("2 7"), Err(()));
}

#[test]
fn stray_characters_are_rejected() {
    assert_eq!(parse_isize("5x"), Err(()));
    assert_eq!(parse_isize("x5"), Err(()));
    assert_eq!(parse_isize("5.0"), Err(()));
    assert_eq!(parse_usize("1_000"), Err(()));
}

#[test]
fn range_bounds_are_exact() {
    let max = format!("{}", isize::MAX);
    let min = format!("{}", isize::MIN);
    assert_eq!(parse_isize(&max), Ok(isize::MAX));
    assert_eq!(parse_isize(&min), Ok(isize::MIN));
    let over_max = format!("{}", isize::MAX as usize + 1);
    assert_eq!(parse_isize(&over_max), Err(()));
    let umax = format!("{}", usize::MAX);
    assert_eq!(parse_usize(&umax), Ok(usize::MAX));
    let over_umax = format!("{}0", usize::MAX);
    assert_eq!(parse_usize(&over_umax), Err(()));
}
