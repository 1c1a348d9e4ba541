use bpp_scan::filter::{depth_limit, is_candidate, is_supported_extension, is_supported_lowered};
use bpp_scan::measure::{measure, Measurement};
use bpp_scan::root::{check_root, PathInvalid};
use bpp_scan::scanner::Scanner;

fn ratio(m: &Measurement) -> f64 {
    m.bits() as f64 / m.pixels() as f64
}

fn m(file_size: u64, width: u32, height: u32) -> Measurement {
    measure(file_size, Some((width, height))).unwrap()
}

#[test]
fn ratio_is_bits_over_pixels() {
    let a = m(10000, 100, 100);
    assert_eq!(a.bits(), 80000);
    assert_eq!(a.pixels(), 10000);
    assert_eq!(format!("{:.2}", ratio(&a)), "8.00");
    let b = m(1234, 10, 7);
    assert_eq!(b.bits(), 9872);
    assert_eq!(b.pixels(), 70);
    assert_eq!(format!("{:.2}", ratio(&b)), "141.03");
}

#[test]
fn ratio_of_largest_values_does_not_overflow() {
    let a = m(u64::MAX, u32::MAX, u32::MAX);
    assert_eq!(a.bits(), u64::MAX as u128 * 8);
    assert_eq!(a.pixels(), u32::MAX as u64 * u32::MAX as u64);
    let b = m(u64::MAX - 1, u32::MAX, u32::MAX);
    assert!(a.denser_than(&b));
    assert!(!b.denser_than(&a));
    assert!(!a.denser_than(&a));
}

#[test]
fn zero_dimension_gives_no_measurement() {
    assert_eq!(measure(500, Some((0, 10))), None);
    assert_eq!(measure(500, Some((10, 0))), None);
    assert_eq!(measure(500, Some((0, 0))), None);
}

#[test]
fn failed_probe_gives_no_measurement() {
    assert_eq!(measure(500, None), None);
}

#[test]
fn measurement_keeps_its_inputs() {
    let a = m(0, 3, 4);
    assert_eq!(a, Measurement { file_size: 0, width: 3, height: 4 });
    assert_eq!(a.bits(), 0);
}

#[test]
fn denser_compares_exact_fractions() {
    // 8 * 3 / 9 and 8 * 1 / 3 are equal
    let a = m(3, 3, 3);
    let b = m(1, 1, 3);
    assert!(!a.denser_than(&b));
    assert!(!b.denser_than(&a));
    let c = m(4, 3, 3);
    assert!(c.denser_than(&a));
    assert!(!a.denser_than(&c));
}

#[test]
fn supported_extensions_in_lower_case() {
    for e in ["png", "jpg", "jpeg", "bmp", "gif"] {
        assert!(is_supported_lowered(e));
    }
    for e in ["txt", "PNG", "", "pn", "pngg", "tiff", "webp"] {
        assert!(!is_supported_lowered(e));
    }
}

#[test]
fn extension_case_is_ignored() {
    assert!(is_supported_extension("PNG"));
    assert!(is_supported_extension("JpEg"));
    assert!(is_supported_extension("Gif"));
    assert!(!is_supported_extension("TXT"));
    assert!(!is_supported_extension("tif"));
}

#[test]
fn unsupported_files_are_never_candidates() {
    assert!(!is_candidate(false, 1, true, Some("txt")));
    assert!(!is_candidate(true, 3, true, Some("txt")));
    assert!(!is_candidate(false, 1, true, None));
    assert!(!is_candidate(false, 1, false, Some("png")));
    assert!(is_candidate(false, 1, true, Some("PNG")));
}

#[test]
fn subdirectory_files_only_when_recursive() {
    assert!(!is_candidate(false, 2, true, Some("jpg")));
    assert!(is_candidate(true, 2, true, Some("jpg")));
    assert!(is_candidate(true, 5, true, Some("bmp")));
    assert_eq!(depth_limit(false), Some(1));
    assert_eq!(depth_limit(true), None);
}

#[test]
fn one_image_beside_a_text_file() {
    let mut s = Scanner::new(false);
    assert!(!is_candidate(false, 1, true, Some("txt")));
    assert!(is_candidate(false, 1, true, Some("png")));
    let a = m(10000, 100, 100);
    let out = s.offer(a, "/root/a.png".to_string()).unwrap();
    let line = format!("{:.2}\t{}", ratio(&out.measurement), out.path);
    assert_eq!(line, "8.00\t/root/a.png");
    assert!(s.finish().is_empty());
}

#[test]
fn streaming_keeps_discovery_order() {
    let mut s = Scanner::new(false);
    let sizes = [10u64, 30, 20, 30];
    for (i, size) in sizes.iter().enumerate() {
        let r = s.offer(m(*size, 1, 1), format!("f{}", i)).unwrap();
        assert_eq!(r.order, i as u64);
        assert_eq!(r.path, format!("f{}", i));
        assert_eq!(r.measurement.file_size, *size);
    }
    assert_eq!(s.count(), 4);
    assert!(s.finish().is_empty());
}

#[test]
fn sorting_ranks_descending_and_keeps_ties_in_order() {
    let mut s = Scanner::new(true);
    let sizes = [10u64, 30, 20, 30, 10];
    for (i, size) in sizes.iter().enumerate() {
        assert!(s.offer(m(*size, 1, 1), format!("f{}", i)).is_none());
    }
    let out = s.finish();
    let paths: Vec<&str> = out.iter().map(|r| r.path.as_str()).collect();
    assert_eq!(paths, vec!["f1", "f3", "f2", "f0", "f4"]);
    for w in out.windows(2) {
        assert!(!w[1].measurement.denser_than(&w[0].measurement));
    }
}

#[test]
fn sorting_compares_ratios_not_sizes() {
    let mut s = Scanner::new(true);
    s.offer(m(1000, 100, 100), "big".to_string());
    s.offer(m(100, 2, 2), "small".to_string());
    let out = s.finish();
    assert_eq!(out[0].path, "small");
    assert_eq!(out[1].path, "big");
}

#[test]
fn empty_scan_reports_nothing() {
    let s = Scanner::new(true);
    assert_eq!(s.count(), 0);
    assert!(s.finish().is_empty());
    let s = Scanner::new(false);
    assert!(s.finish().is_empty());
}

#[test]
fn missing_root_is_refused() {
    let r = check_root("no/such/dir", false, false);
    assert_eq!(r, Err(PathInvalid::Missing("no/such/dir".to_string())));
    let e = r.unwrap_err();
    assert_eq!(e.message(), "Directory 'no/such/dir' does not exist.");
    assert_eq!(e.path(), "no/such/dir");
}

#[test]
fn file_root_is_refused() {
    let r = check_root("a.png", true, false);
    assert_eq!(r, Err(PathInvalid::NotADirectory("a.png".to_string())));
    assert_eq!(r.unwrap_err().message(), "'a.png' is not a directory.");
}

#[test]
fn directory_root_is_accepted() {
    assert_eq!(check_root(".", true, true), Ok(()));
}
