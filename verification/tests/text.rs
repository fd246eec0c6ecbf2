use microfetch::system::parse_u64_fast;
use microfetch::text::{c_path, ends_with_at, find_line_end, find_prefixed_line, starts_with, u64_to_string, write_u64};

#[test]
fn decimal_rendering() {
    assert_eq!(u64_to_string(0), "0");
    assert_eq!(u64_to_string(7), "7");
    assert_eq!(u64_to_string(12345), "12345");
    assert_eq!(u64_to_string(u64::MAX), "18446744073709551615");
}

#[test]
fn write_u64_appends() {
    let mut s = String::from("n=");
    write_u64(&mut s, 1000);
    assert_eq!(s, "n=1000");
}

#[test]
fn c_path_adds_nul() {
    assert_eq!(c_path("/proc/meminfo"), Ok(b"/proc/meminfo\0".to_vec()));
    let long = "a".repeat(255);
    assert_eq!(c_path(&long).unwrap().len(), 256);
    assert_eq!(c_path(&"a".repeat(256)), Err(-22));
}

#[test]
fn byte_scanning_helpers() {
    assert_eq!(find_line_end(b"ab\ncd", 0), 2);
    assert_eq!(find_line_end(b"ab\ncd", 3), 5);
    assert!(starts_with(b"MemTotal: 1", b"MemTotal:"));
    assert!(!starts_with(b"Mem", b"MemTotal:"));
    assert!(ends_with_at(b"xy CPU", 6, b" CPU"));
    assert!(!ends_with_at(b"xy CPU", 5, b" CPU"));
    assert_eq!(find_prefixed_line(b"A=1\nB=2\nB=3", b"B="), Some(&b"2"[..]));
    assert_eq!(find_prefixed_line(b"A=1\n", b"B="), None);
}

#[test]
fn written_decimal_parses_back() {
    for n in [0u64, 7, 10, 99, 1000, 86400, 4294967295, u64::MAX] {
        assert_eq!(parse_u64_fast(u64_to_string(n).as_bytes()), n);
    }
}
