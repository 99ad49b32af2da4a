use timelapse::decimal::{i64_to_string, parse_i64, u64_to_string};
use timelapse::frames::{strip_jpg_suffix, FrameCollection};

fn names(list: &[&str]) -> Vec<String> {
    list.iter().map(|s| s.to_string()).collect()
}

#[test]
fn excludes_unparseable_and_includes_timestamp_names() {
    let fc = FrameCollection::new("/data/cam", names(&["notanumber.jpg", "1700000000.jpg"]));
    assert_eq!(fc.frames.len(), 1);
    assert_eq!(fc.frames[0].timestamp, 1700000000);
    assert_eq!(fc.frames[0].path, "/data/cam/1700000000.jpg");
}

#[test]
fn keeps_listing_order_and_skips_silently() {
    let fc = FrameCollection::new(
        "/d",
        names(&["3.jpg", "readme.txt", "1.jpg", "x7.jpg", "2.jpg"]),
    );
    let ts: Vec<i64> = fc.frames.iter().map(|f| f.timestamp).collect();
    assert_eq!(ts, vec![3, 1, 2]);
}

#[test]
fn strips_repeated_suffix() {
    assert_eq!(strip_jpg_suffix("5.jpg.jpg"), "5");
    assert_eq!(strip_jpg_suffix("x.jpg"), "x");
    assert_eq!(strip_jpg_suffix("a.jpgx"), "a.jpgx");
    assert_eq!(strip_jpg_suffix(".jpg"), "");
    assert_eq!(strip_jpg_suffix("plain"), "plain");
}

#[test]
fn parses_signed_integers_like_std() {
    assert_eq!(parse_i64("1700000000"), Some(1700000000));
    assert_eq!(parse_i64("007"), Some(7));
    assert_eq!(parse_i64("+7"), Some(7));
    assert_eq!(parse_i64("-12"), Some(-12));
    assert_eq!(parse_i64("9223372036854775807"), Some(i64::MAX));
    assert_eq!(parse_i64("9223372036854775808"), None);
    assert_eq!(parse_i64("-9223372036854775808"), Some(i64::MIN));
    assert_eq!(parse_i64("-9223372036854775809"), None);
    assert_eq!(parse_i64("99999999999999999999"), None);
    assert_eq!(parse_i64(""), None);
    assert_eq!(parse_i64("+"), None);
    assert_eq!(parse_i64("-"), None);
    assert_eq!(parse_i64("12a"), None);
    assert_eq!(parse_i64(" 5"), None);
}

#[test]
fn renders_decimal() {
    assert_eq!(u64_to_string(0), "0");
    assert_eq!(u64_to_string(120), "120");
    assert_eq!(u64_to_string(18446744073709551615), "18446744073709551615");
    assert_eq!(i64_to_string(-5), "-5");
    assert_eq!(i64_to_string(0), "0");
    assert_eq!(i64_to_string(i64::MIN), "-9223372036854775808");
}

#[test]
fn into_paths_keeps_order() {
    let fc = FrameCollection::new("/p", names(&["2.jpg", "1.jpg"]));
    let paths = fc.into_paths();
    assert_eq!(paths, vec!["/p/2.jpg".to_string(), "/p/1.jpg".to_string()]);
}
