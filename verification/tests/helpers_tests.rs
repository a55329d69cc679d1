use ktask::helpers::{dot_trim, parse_i32, parse_scaled};

#[test]
fn no_padding() {
    assert_eq!(dot_trim(String::from("0.0358"), 5), "003580");
}

#[test]
fn dot_trim_cuts_pads_and_keeps() {
    assert_eq!(dot_trim(String::from("1.23456"), 2), "123");
    assert_eq!(dot_trim(String::from("1.5"), 0), "1");
    assert_eq!(dot_trim(String::from(".5"), 2), "50");
    assert_eq!(dot_trim(String::from("12"), 3), "12");
    assert_eq!(dot_trim(String::from("7."), 2), "700");
    assert_eq!(dot_trim(String::from("1.2.3"), 3), "12.3");
    assert_eq!(dot_trim(String::from(""), 4), "");
}

#[test]
fn parse_i32_agrees_with_std() {
    let cases = [
        "0", "123", "-42", "+7", "", "-", "+", "12a", " 1", "1 ", "2147483647", "2147483648",
        "-2147483648", "-2147483649", "0001", "-0", "99999999999999999999", "--1", "+-1", "1.5",
        "٣",
    ];
    for c in cases {
        assert_eq!(parse_i32(c), c.parse::<i32>().ok(), "case {:?}", c);
    }
}

#[test]
fn parse_scaled_reads_fixed_point() {
    assert_eq!(parse_scaled("0.0358", 5), Some(3580));
    assert_eq!(parse_scaled("0.03580000", 5), Some(3580));
    assert_eq!(parse_scaled("1.5", 6), Some(1500000));
    assert_eq!(parse_scaled("0.00001234", 6), Some(12));
    assert_eq!(parse_scaled("123", 5), Some(123));
    assert_eq!(parse_scaled("99999.0", 5), None);
    assert_eq!(parse_scaled("abc", 5), None);
    assert_eq!(parse_scaled("-0.5", 1), Some(-5));
}

#[test]
fn dot_trim_counts_bytes() {
    assert_eq!(dot_trim(String::from("1.\u{e9}"), 5), "1\u{e9}000");
    assert_eq!(dot_trim(String::from("\u{e9}.5"), 2), "\u{e9}50");
    assert_eq!(dot_trim(String::from("12"), usize::MAX), "12");
    assert_eq!(parse_scaled("1.\u{e9}", 1), None);
    assert_eq!(parse_scaled("1.5\u{e9}", 1), Some(15));
    assert_eq!(parse_scaled("1.5", usize::MAX), None);
}
