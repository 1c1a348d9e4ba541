use bpp_scan::measure::{measure, Measurement};
use bpp_scan::threshold::{parse_threshold, parse_unsigned, ratio_above, Threshold};

fn m(file_size: u64, width: u32, height: u32) -> Measurement {
    measure(file_size, Some((width, height))).unwrap()
}

fn t(text: &str) -> Threshold {
    parse_threshold(text).unwrap()
}

#[test]
fn equal_ratio_is_left_out() {
    // 8 * 8000 / 80000 is exactly 0.8
    assert!(!t("0.8").passes(&m(8000, 400, 200)));
    // 8 * 3 / 80 is exactly 0.3
    assert!(!t("0.3").passes(&m(3, 8, 10)));
    // 8 * 10000 / 10000 is exactly 8
    assert!(!t("8").passes(&m(10000, 100, 100)));
}

#[test]
fn ratio_just_above_passes() {
    // 8 * 8001 / 80000 is 0.8001
    assert!(t("0.8").passes(&m(8001, 400, 200)));
    assert!(!t("0.8001").passes(&m(8001, 400, 200)));
    assert!(t("0.80009").passes(&m(8001, 400, 200)));
}

#[test]
fn ratio_below_is_left_out() {
    assert!(!t("0.9").passes(&m(8000, 400, 200)));
    assert!(!t("1000000000000000000000000").passes(&m(u64::MAX, 1, 1)));
}

#[test]
fn long_fractions_compare_exactly() {
    // 8 / 3 = 2.666...
    let a = m(1, 1, 3);
    assert!(a_passes(&a, "2.6666666666666666666666666666"));
    assert!(!a_passes(&a, "2.6666666666666666666666666667"));
    assert!(!a_passes(&a, "2.67"));
    assert!(a_passes(&a, "2"));
    assert!(!a_passes(&a, "3"));
    // tiny thresholds: any non-empty file passes
    assert!(a_passes(&a, "0.0000000000000000000000000000001"));
}

fn a_passes(a: &Measurement, text: &str) -> bool {
    t(text).passes(a)
}

#[test]
fn negative_and_zero_thresholds() {
    let empty = m(0, 10, 10);
    let full = m(1, 10, 10);
    assert!(!t("0").passes(&empty));
    assert!(!t("-0").passes(&empty));
    assert!(t("0").passes(&full));
    assert!(t("-0").passes(&full));
    assert!(t("-1.5").passes(&empty));
    assert!(t("-0.001").passes(&empty));
}

#[test]
fn special_thresholds() {
    let a = m(10000, 100, 100);
    assert!(t("NaN").passes(&a));
    assert!(t("-inf").passes(&a));
    assert!(!t("inf").passes(&a));
    assert!(!t("inf").passes(&m(u64::MAX, 1, 1)));
    assert!(Threshold::Everything.passes(&a));
    assert!(!Threshold::Nothing.passes(&a));
}

#[test]
fn threshold_text_that_is_refused() {
    for text in ["", "-", ".", "1.", ".5", "1e3", "abc", "--1", "1.2.3", "+1", " 1", "Inf", "nan"] {
        assert!(parse_threshold(text).is_none(), "{}", text);
    }
}

#[test]
fn threshold_text_is_read_into_digits() {
    match t("12.034") {
        Threshold::Above { negative, whole, frac } => {
            assert!(!negative);
            assert_eq!(whole, vec![1, 2]);
            assert_eq!(frac, vec![0, 3, 4]);
        },
        _ => panic!("not a decimal"),
    }
    match t("-7") {
        Threshold::Above { negative, whole, frac } => {
            assert!(negative);
            assert_eq!(whole, vec![7]);
            assert!(frac.is_empty());
        },
        _ => panic!("not a decimal"),
    }
    assert_eq!(parse_unsigned("305"), Some((vec![3, 0, 5], vec![])));
    assert_eq!(parse_unsigned("0.5"), Some((vec![0], vec![5])));
    assert_eq!(parse_unsigned("0.5x"), None);
}

#[test]
fn thresholds_from_float_text() {
    let a = m(8000, 400, 200);
    assert!(!t(&0.8f64.to_string()).passes(&a));
    assert!(t(&0.7999f64.to_string()).passes(&a));
    assert!(t(&1e-7f64.to_string()).passes(&a));
    assert!(!t(&1e30f64.to_string()).passes(&a));
    assert!(!t(&f64::INFINITY.to_string()).passes(&a));
    assert!(t(&f64::NAN.to_string()).passes(&a));
}

#[test]
fn ratio_above_whole_and_fraction() {
    let a = m(10000, 100, 100);
    assert!(ratio_above(&a, &vec![7], &vec![9, 9]));
    assert!(!ratio_above(&a, &vec![8], &vec![]));
    assert!(!ratio_above(&a, &vec![8], &vec![0, 0]));
    assert!(!ratio_above(&a, &vec![8], &vec![0, 1]));
    assert!(!ratio_above(&a, &vec![1, 0], &vec![]));
}
