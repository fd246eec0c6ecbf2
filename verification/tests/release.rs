use microfetch::release::{c_str_bytes, get_os_pretty_name, get_system_info, UtsName, UtsNameBuf};

fn field(s: &[u8]) -> [i8; 65] {
    let mut f = [0i8; 65];
    for (i, b) in s.iter().enumerate() {
        f[i] = *b as i8;
    }
    f
}

fn uts(sysname: &[u8], nodename: &[u8], release: &[u8], machine: &[u8]) -> UtsName {
    UtsName::from_buf(UtsNameBuf {
        sysname: field(sysname),
        nodename: field(nodename),
        release: field(release),
        version: field(b"#1 SMP"),
        machine: field(machine),
        domainname: field(b"(none)"),
    })
}

#[test]
fn uname_fields() {
    let u = uts(b"Linux", b"box", b"6.1.0", b"x86_64");
    assert_eq!(u.sysname(), b"Linux".to_vec());
    assert_eq!(u.nodename(), b"box".to_vec());
    assert_eq!(u.release(), b"6.1.0".to_vec());
    assert_eq!(u.machine(), b"x86_64".to_vec());
}

#[test]
fn c_str_without_nul_takes_whole_field() {
    let f = [b'a' as i8; 65];
    assert_eq!(c_str_bytes(&f).len(), 65);
}

#[test]
fn system_info_text() {
    let u = uts(b"Linux", b"box", b"6.1.0", b"x86_64");
    assert_eq!(get_system_info(&u), "Linux 6.1.0 (x86_64)");
}

#[test]
fn system_info_non_utf8_part() {
    let u = uts(b"Linux", b"box", b"\xff", b"x86_64");
    assert_eq!(get_system_info(&u), "Linux Unknown (x86_64)");
}

#[test]
fn pretty_name_quoted() {
    let c = b"NAME=\"Arch Linux\"\nPRETTY_NAME=\"Arch Linux\"\nID=arch\n";
    assert_eq!(get_os_pretty_name(c), "Arch Linux");
}

#[test]
fn pretty_name_unquoted_and_first() {
    assert_eq!(get_os_pretty_name(b"PRETTY_NAME=NixOS 24.05\nPRETTY_NAME=x"), "NixOS 24.05");
    assert_eq!(get_os_pretty_name(b"PRETTY_NAME=\"\""), "");
    assert_eq!(get_os_pretty_name(b"PRETTY_NAME=\""), "\"");
}

#[test]
fn pretty_name_missing() {
    assert_eq!(get_os_pretty_name(b"NAME=Debian\n"), "Unknown");
    assert_eq!(get_os_pretty_name(b""), "Unknown");
}

#[test]
fn pretty_name_replaces_invalid_utf8() {
    assert_eq!(get_os_pretty_name(b"PRETTY_NAME=\"Deb\xffian\""), "Deb\u{fffd}ian");
}
