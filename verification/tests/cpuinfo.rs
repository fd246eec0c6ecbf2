use microfetch::cpuinfo::{
    cpu_freq_computable, extract_field, get_cpu_freq_mhz, get_cpu_name, get_model_name, trim,
};

const INTEL: &[u8] = b"processor\t: 0\nvendor_id\t: GenuineIntel\nmodel name\t: Intel(R) Core(TM) i7-8550U CPU @ 1.80GHz\ncpu MHz\t\t: 2400.123\n";

#[test]
fn extract_first_field() {
    assert_eq!(extract_field(INTEL, b"model name"), Some("Intel(R) Core(TM) i7-8550U CPU @ 1.80GHz"));
    assert_eq!(extract_field(INTEL, b"vendor_id"), Some("GenuineIntel"));
    assert_eq!(extract_field(INTEL, b"cpu MHz"), Some("2400.123"));
}

#[test]
fn extract_missing_or_malformed_field() {
    assert_eq!(extract_field(INTEL, b"flags"), None);
    assert_eq!(extract_field(b"cpu MHz dynamic: 5\n", b"cpu MHz"), None);
    assert_eq!(extract_field(b"model name = x\nmodel name: y", b"model name"), Some("y"));
}

#[test]
fn extract_rejects_invalid_utf8() {
    assert_eq!(extract_field(b"model name: \xff\xfe\n", b"model name"), None);
}

#[test]
fn trim_processor_and_core_suffix() {
    assert_eq!(trim("AMD Ryzen 7 5800X 8-Core Processor"), "AMD Ryzen 7 5800X");
    assert_eq!(trim("AMD Ryzen 9 7950X 16-Core Processor   "), "AMD Ryzen 9 7950X");
}

#[test]
fn trim_marks_and_spaces() {
    assert_eq!(trim("  Intel(R) Xeon(R) CPU  "), "Intel(R) Xeon");
    assert_eq!(trim("Some Chip(TM)"), "Some Chip");
    assert_eq!(trim("Some Chip(tm) CPU"), "Some Chip");
    assert_eq!(trim("Intel(R) Core(TM) i7-8550U CPU @ 1.80GHz"), "Intel(R) Core(TM) i7-8550U CPU @ 1.80GHz");
    assert_eq!(trim("   "), "");
}

#[test]
fn trim_keeps_core_without_space() {
    assert_eq!(trim("Chip8-Core"), "Chip8-Core");
    assert_eq!(trim(" 8-Core"), "8-Core");
}

#[test]
fn trim_result_has_no_surrounding_space() {
    for name in ["  a  ", " x CPU ", "\tGeneric Processor\n", "b"] {
        let t = trim(name);
        assert_eq!(t, t.trim_matches(|c: char| c.is_ascii_whitespace()));
    }
}

#[test]
fn freq_from_sysfs() {
    assert_eq!(get_cpu_freq_mhz(Some(b"3600000\n"), None), Some(3600));
    assert_eq!(get_cpu_freq_mhz(Some(b"500\n"), None), Some(0));
}

#[test]
fn freq_falls_back_to_cpuinfo() {
    assert_eq!(get_cpu_freq_mhz(Some(b"0\n"), Some(INTEL)), Some(2400));
    assert_eq!(get_cpu_freq_mhz(None, Some(INTEL)), Some(2400));
    assert_eq!(get_cpu_freq_mhz(None, Some(b"CPU MHz: 1200\n")), Some(1200));
    assert_eq!(get_cpu_freq_mhz(None, Some(b"cpu MHz: 0.5\n")), None);
    assert_eq!(get_cpu_freq_mhz(None, None), None);
}

#[test]
fn model_name_with_frequency() {
    assert_eq!(
        get_model_name(INTEL, Some(3600)),
        Some("Intel(R) Core(TM) i7-8550U CPU @ 1.80GHz @ 3.60 GHz".to_string())
    );
    assert_eq!(
        get_model_name(b"model name: AMD Ryzen 7 5800X 8-Core Processor\n", None),
        Some("AMD Ryzen 7 5800X".to_string())
    );
}

#[test]
fn model_name_rounding_carries() {
    let data = b"Model Name: Chip\n";
    assert_eq!(get_model_name(data, Some(1999)), Some("Chip @ 2.00 GHz".to_string()));
    assert_eq!(get_model_name(data, Some(1004)), Some("Chip @ 1.00 GHz".to_string()));
    assert_eq!(get_model_name(data, Some(1050)), Some("Chip @ 1.05 GHz".to_string()));
    assert_eq!(get_model_name(data, Some(994)), Some("Chip @ 0.99 GHz".to_string()));
    assert_eq!(get_model_name(data, Some(0)), Some("Chip @ 0.00 GHz".to_string()));
}

#[test]
fn model_name_later_keys_and_absence() {
    assert_eq!(get_model_name(b"cpu\t\t: POWER9 (raw)\n", None), Some("POWER9 (raw)".to_string()));
    assert_eq!(get_model_name(b"model name: \nvendor_id: Acme\n", None), Some("Acme".to_string()));
    assert_eq!(get_model_name(b"flags: fpu\n", Some(1000)), None);
    assert_eq!(get_cpu_name(b"flags: fpu\n", Some(1000)), "");
    assert_eq!(get_cpu_name(b"isa: rv64imafdc\n", None), "rv64imafdc");
}

#[test]
fn freq_computable_checks_overflow() {
    assert!(cpu_freq_computable(Some(b"3600000\n"), None));
    assert!(cpu_freq_computable(Some(b"4294967295"), None));
    assert!(!cpu_freq_computable(Some(b"4294967296"), None));
    // sysfs gives 0, so the cpuinfo field is read.
    let cpuinfo: &[u8] = b"cpu MHz\t\t: 99999999999.5\n";
    assert!(!cpu_freq_computable(Some(b"0"), Some(cpuinfo)));
    assert!(!cpu_freq_computable(None, Some(cpuinfo)));
    // Digits after the '.' are not read.
    let cpuinfo: &[u8] = b"cpu MHz\t\t: 2400.99999999999\n";
    assert!(cpu_freq_computable(None, Some(cpuinfo)));
    assert_eq!(get_cpu_freq_mhz(None, Some(cpuinfo)), Some(2400));
    // A positive sysfs value means cpuinfo is never read.
    let big: &[u8] = b"cpu MHz\t\t: 99999999999\n";
    assert!(cpu_freq_computable(Some(b"1000"), Some(big)));
    assert!(cpu_freq_computable(None, None));
}
