use film_exif::numbers::{check_number_text, format_comp_2dp, format_i32, parse_i32};

#[test]
fn integers_print_as_decimal_text() {
    assert_eq!(format_i32(0), "0");
    assert_eq!(format_i32(7), "7");
    assert_eq!(format_i32(-45), "-45");
    assert_eq!(format_i32(200), "200");
    assert_eq!(format_i32(2147483647), "2147483647");
    assert_eq!(format_i32(-2147483648), "-2147483648");
}

#[test]
fn integer_text_parses_with_optional_sign() {
    assert_eq!(parse_i32("200"), Some(200));
    assert_eq!(parse_i32("+25"), Some(25));
    assert_eq!(parse_i32("-400"), Some(-400));
    assert_eq!(parse_i32("-0"), Some(0));
    assert_eq!(parse_i32("0012"), Some(12));
    assert_eq!(parse_i32(""), None);
    assert_eq!(parse_i32("+"), None);
    assert_eq!(parse_i32("25x"), None);
    assert_eq!(parse_i32("2.5"), None);
    assert_eq!(parse_i32("2147483647"), Some(2147483647));
    assert_eq!(parse_i32("2147483648"), None);
    assert_eq!(parse_i32("-2147483648"), Some(-2147483648));
    assert_eq!(parse_i32("-2147483649"), None);
    assert_eq!(parse_i32("99999999999999999999"), None);
}

#[test]
fn decimal_text_is_recognized() {
    assert!(check_number_text("2.5"));
    assert!(check_number_text("50"));
    assert!(check_number_text("-.5"));
    assert!(check_number_text("2."));
    assert!(check_number_text("+7"));
    assert!(check_number_text("-0.33"));
    assert!(!check_number_text(""));
    assert!(!check_number_text("."));
    assert!(!check_number_text("-"));
    assert!(!check_number_text("1e3"));
    assert!(!check_number_text("1.2.3"));
    assert!(!check_number_text("f/2.8"));
}

#[test]
fn compensation_prints_to_two_decimals() {
    assert_eq!(format_comp_2dp("0.5"), "0.50");
    assert_eq!(format_comp_2dp("-1"), "-1.00");
    assert_eq!(format_comp_2dp("0.333"), "0.33");
    assert_eq!(format_comp_2dp("2.995"), "3.00");
    assert_eq!(format_comp_2dp("9.999"), "10.00");
    assert_eq!(format_comp_2dp("+07.10"), "7.10");
    assert_eq!(format_comp_2dp(".5"), "0.50");
    assert_eq!(format_comp_2dp("-0.0"), "-0.00");
    assert_eq!(format_comp_2dp("1.005"), "1.01");
}
