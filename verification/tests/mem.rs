use microfetch::mem::{bcmp, memcmp, memcpy, memset, strlen};

#[test]
fn memcpy_copies_prefix() {
    let mut dest = [9u8; 5];
    memcpy(&mut dest, &[1, 2, 3, 4], 3);
    assert_eq!(dest, [1, 2, 3, 9, 9]);
}

#[test]
fn memset_fills_with_byte() {
    let mut s = [0u8; 4];
    memset(&mut s, 65, 2);
    assert_eq!(s, [65, 65, 0, 0]);
}

#[test]
fn memset_uses_low_eight_bits() {
    let mut s = [7u8; 3];
    memset(&mut s, 300, 3);
    assert_eq!(s, [44, 44, 44]);
    let mut s = [7u8; 3];
    memset(&mut s, -1, 2);
    assert_eq!(s, [255, 255, 7]);
}

#[test]
fn bcmp_reports_first_difference() {
    assert_eq!(bcmp(b"abcd", b"abxd", 4), i32::from(b'c') - i32::from(b'x'));
    assert_eq!(bcmp(b"abcd", b"abxd", 2), 0);
    assert_eq!(memcmp(b"b", b"a", 1), 1);
    assert_eq!(memcmp(b"", b"", 0), 0);
}

#[test]
fn strlen_stops_at_nul() {
    assert_eq!(strlen(b"hello\0world\0"), 5);
    assert_eq!(strlen(b"\0"), 0);
}
