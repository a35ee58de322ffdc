use mandelbrot::parse::parse_bounds;
use mandelbrot::parse::parse_pair;
use mandelbrot::parse::parse_usize;

#[test]
fn test_parse_pair() {
    assert_eq!(parse_pair::<i32>("", ','), None);
    assert_eq!(parse_pair::<i32>("10,", ','), None);
    assert_eq!(parse_pair::<i32>(",10", ','), None);
    assert_eq!(parse_pair::<i32>("10,20", ','), Some((10, 20)));
    assert_eq!(parse_pair::<i32>("10,20xy", ','), None);
    assert_eq!(parse_pair::<f64>("0.5x", ','), None);
    assert_eq!(parse_pair::<f64>("0.5x1.5", 'x'), Some((0.5, 1.5)));
}

#[test]
fn parse_usize_accepts_plain_decimals() {
    assert_eq!(parse_usize("10"), Some(10));
    assert_eq!(parse_usize("0"), Some(0));
    assert_eq!(parse_usize("007"), Some(7));
    assert_eq!(parse_usize("4000"), Some(4000));
}

#[test]
fn parse_usize_rejects_non_decimals() {
    assert_eq!(parse_usize(""), None);
    assert_eq!(parse_usize("+3"), None);
    assert_eq!(parse_usize("-3"), None);
    assert_eq!(parse_usize("1x"), None);
    assert_eq!(parse_usize("99999999999999999999999999"), None);
}

#[test]
fn parse_bounds_round_trip() {
    assert_eq!(parse_bounds("10,20", ','), Some((10, 20)));
    assert_eq!(parse_bounds("1000x750", 'x'), Some((1000, 750)));
    assert_eq!(parse_bounds("100x100", 'x'), Some((100, 100)));
}

#[test]
fn parse_bounds_fails_whole_not_partial() {
    assert_eq!(parse_bounds("10,", ','), None);
    assert_eq!(parse_bounds(",", ','), None);
    assert_eq!(parse_bounds("10", ','), None);
    assert_eq!(parse_bounds("10,20xy", ','), None);
    assert_eq!(parse_bounds("x750", 'x'), None);
    assert_eq!(parse_bounds("99999999999999999999999999x2", 'x'), None);
}

#[test]
fn parse_pair_of_floats_for_complex_points() {
    assert_eq!(parse_pair::<f64>("1.25,-0.0625", ','), Some((1.25, -0.0625)));
    assert_eq!(parse_pair::<f64>(",-0.0625", ','), None);
}

#[test]
fn parse_pair_splits_at_first_separator_only() {
    assert_eq!(parse_pair::<i32>("1,2,3", ','), None);
    assert_eq!(parse_pair::<i32>("-7,8", ','), Some((-7, 8)));
    assert_eq!(parse_pair::<f64>("-1.2,0.35", ','), Some((-1.2, 0.35)));
    assert_eq!(parse_pair::<f64>("-1,0.20", ','), Some((-1.0, 0.20)));
}
