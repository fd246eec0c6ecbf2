use microfetch::colors::Colors;
use microfetch::release::{UtsName, UtsNameBuf};
use microfetch::system::{
    disk_usage_bytes, fits_u64, get_shell, get_username_and_hostname, parse_meminfo,
    parse_u64_fast, try_parse_meminfo, StatfsBuf,
};

fn field(s: &[u8]) -> [i8; 65] {
    let mut f = [0i8; 65];
    for (i, b) in s.iter().enumerate() {
        f[i] = *b as i8;
    }
    f
}

fn uts(nodename: &[u8]) -> UtsName {
    UtsName::from_buf(UtsNameBuf {
        sysname: field(b"Linux"),
        nodename: field(nodename),
        release: field(b"6.1.0"),
        version: field(b"#1"),
        machine: field(b"x86_64"),
        domainname: field(b""),
    })
}

#[test]
fn shell_name() {
    assert_eq!(get_shell(Some("/usr/bin/zsh")), "zsh");
    assert_eq!(get_shell(Some("fish")), "fish");
    assert_eq!(get_shell(Some("/bin/")), "");
}

#[test]
fn shell_unknown() {
    assert_eq!(get_shell(None), "unknown_shell");
    assert_eq!(get_shell(Some("")), "unknown_shell");
}

#[test]
fn user_and_host_plain() {
    let c = Colors::new(true);
    assert_eq!(get_username_and_hostname(&c, Some("alice"), &uts(b"box")), "alice@box");
    assert_eq!(get_username_and_hostname(&c, None, &uts(b"\xff")), "unknown_user@unknown_host");
}

#[test]
fn user_and_host_colored() {
    let c = Colors::new(false);
    assert_eq!(
        get_username_and_hostname(&c, Some("bob"), &uts(b"pc")),
        "\x1b[33mbob\x1b[31m@\x1b[32mpc\x1b[0m"
    );
}

#[test]
fn parse_leading_number() {
    assert_eq!(parse_u64_fast(b"16384 kB"), 16384);
    assert_eq!(parse_u64_fast(b"kB"), 0);
    assert_eq!(parse_u64_fast(b"18446744073709551615"), u64::MAX);
    assert!(fits_u64(b"18446744073709551615"));
    assert!(!fits_u64(b"18446744073709551616"));
}

const MEMINFO: &[u8] = b"MemTotal:       16384000 kB\nMemFree:         1000 kB\nMemAvailable:    8000000 kB\nBuffers: 1 kB\n";

#[test]
fn meminfo_totals() {
    assert_eq!(parse_meminfo(MEMINFO), (16384000, 8000000));
    assert_eq!(try_parse_meminfo(MEMINFO), Some((16384000, 8000000)));
}

#[test]
fn meminfo_missing_fields() {
    assert_eq!(parse_meminfo(b"MemFree: 5 kB\n"), (0, 0));
    assert_eq!(parse_meminfo(b"MemAvailable: 7 kB"), (0, 7));
}

#[test]
fn meminfo_stops_after_both_found() {
    let data = b"MemTotal: 1 kB\nMemAvailable: 2 kB\nMemTotal: 99999999999999999999999 kB\n";
    assert_eq!(try_parse_meminfo(data), Some((1, 2)));
}

#[test]
fn meminfo_overflow() {
    assert_eq!(try_parse_meminfo(b"MemTotal: 99999999999999999999999 kB\n"), None);
}

#[test]
fn disk_usage() {
    let vfs = StatfsBuf {
        f_type: 0,
        f_bsize: 4096,
        f_blocks: 1000,
        f_bfree: 300,
        f_bavail: 250,
        f_files: 0,
        f_ffree: 0,
        f_fsid: [0, 0],
        f_namelen: 255,
        f_frsize: 4096,
        f_flags: 0,
    };
    assert_eq!(disk_usage_bytes(&vfs), (4096000, 3072000));
}
