use hwmon_report::render::{format_milli, format_u64};

#[test]
fn formats_whole_degrees_without_fraction() {
    assert_eq!(format_milli(45000), "45");
    assert_eq!(format_milli(46000), "46");
    assert_eq!(format_milli(0), "0");
    assert_eq!(format_milli(-21000), "-21");
}

#[test]
fn formats_fractions_with_trailing_zeros_dropped() {
    assert_eq!(format_milli(21500), "21.5");
    assert_eq!(format_milli(1050), "1.05");
    assert_eq!(format_milli(123), "0.123");
    assert_eq!(format_milli(100), "0.1");
    assert_eq!(format_milli(1), "0.001");
    assert_eq!(format_milli(-500), "-0.5");
    assert_eq!(format_milli(-30125), "-30.125");
}

#[test]
fn formats_decimal_digits() {
    assert_eq!(format_u64(0), "0");
    assert_eq!(format_u64(7), "7");
    assert_eq!(format_u64(10), "10");
    assert_eq!(format_u64(65535), "65535");
    assert_eq!(format_u64(u64::MAX), "18446744073709551615");
}
