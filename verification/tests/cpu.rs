use microfetch::cpu::{
    count_cpulist, count_ones, get_core_count, get_cpu_cores, get_pe_cores, get_thread_count,
    parse_num, try_count_cpulist,
};

#[test]
fn cpulist_single_range() {
    assert_eq!(count_cpulist(b"0-3\n"), 4);
}

#[test]
fn cpulist_several_ranges() {
    assert_eq!(count_cpulist(b"0-3,8-11\n"), 8);
    assert_eq!(count_cpulist(b"0,2,4\n"), 3);
    assert_eq!(count_cpulist(b"0-15,32\n"), 17);
}

#[test]
fn cpulist_edge_cases() {
    assert_eq!(count_cpulist(b""), 0);
    assert_eq!(count_cpulist(b"5"), 1);
    assert_eq!(count_cpulist(b"0,,1"), 3);
    assert_eq!(count_cpulist(b"\n"), 1);
}

#[test]
fn parse_num_advances() {
    let mut i = 2;
    assert_eq!(parse_num(b"x,123-4", &mut i), 123);
    assert_eq!(i, 5);
    let mut j = 0;
    assert_eq!(parse_num(b"-4", &mut j), 0);
    assert_eq!(j, 0);
}

#[test]
fn count_ones_of_bytes() {
    assert_eq!(count_ones(0), 0);
    assert_eq!(count_ones(0xff), 8);
    assert_eq!(count_ones(0b1010_0001), 3);
}

#[test]
fn thread_count_from_mask() {
    let mut mask = [0u8; 128];
    mask[0] = 0xff;
    mask[1] = 0x0f;
    mask[2] = 0xff;
    assert_eq!(get_thread_count(2, &mask), Ok(12));
    assert_eq!(get_thread_count(0, &mask), Ok(0));
}

#[test]
fn thread_count_error() {
    let mask = [0u8; 128];
    assert_eq!(get_thread_count(-22, &mask), Err(22));
}

#[test]
fn core_count_from_smt_width() {
    assert_eq!(get_core_count(8, Some(2)), 4);
    assert_eq!(get_core_count(8, Some(0)), 8);
    assert_eq!(get_core_count(8, None), 8);
}

#[test]
fn pe_cores() {
    assert_eq!(get_pe_cores(Some(6), Some(8)), Some((6, 8)));
    assert_eq!(get_pe_cores(Some(6), None), Some((6, 0)));
    assert_eq!(get_pe_cores(Some(0), Some(4)), Some((0, 4)));
    assert_eq!(get_pe_cores(Some(0), None), None);
    assert_eq!(get_pe_cores(None, Some(4)), None);
}

#[test]
fn cpu_cores_text() {
    let mut mask = [0u8; 128];
    mask[0] = 0xff;
    assert_eq!(get_cpu_cores(1, &mask, Some(2), None, None), Ok("4 cores, 8 threads".to_string()));
    assert_eq!(get_cpu_cores(1, &mask, Some(1), None, None), Ok("8 cores, 8 threads".to_string()));
    let mut hybrid = [0u8; 128];
    hybrid[0] = 0xff;
    hybrid[1] = 0xff;
    hybrid[2] = 0x0f;
    assert_eq!(
        get_cpu_cores(3, &hybrid, Some(1), Some(6), Some(8)),
        Ok("20 cores (6p/8e), 20 threads".to_string())
    );
    assert_eq!(
        get_cpu_cores(3, &hybrid, Some(2), Some(6), Some(8)),
        Ok("10 cores (6p/8e), 20 threads".to_string())
    );
    assert_eq!(get_cpu_cores(-1, &mask, None, None, None), Err(1));
    let mut four = [0u8; 128];
    four[0] = 0x0f;
    assert_eq!(get_cpu_cores(1, &four, None, None, None), Ok("4 cores, 4 threads".to_string()));
}

#[test]
fn try_cpulist_counts_what_count_cpulist_counts() {
    assert_eq!(try_count_cpulist(b"0-3,8-11\n"), Some(8));
    assert_eq!(try_count_cpulist(b"0,2,4\n"), Some(3));
    assert_eq!(try_count_cpulist(b""), Some(0));
    assert_eq!(try_count_cpulist(b"0-4294967294"), Some(4294967295));
}

#[test]
fn try_cpulist_refuses_what_cannot_be_counted() {
    // A descending range.
    assert_eq!(try_count_cpulist(b"5-3"), None);
    // A number beyond u32.
    assert_eq!(try_count_cpulist(b"4294967296"), None);
    assert_eq!(try_count_cpulist(b"1-4294967296"), None);
    // A count beyond u32.
    assert_eq!(try_count_cpulist(b"0-4294967295"), None);
    // An item the scan cannot get past.
    assert_eq!(try_count_cpulist(b"x"), None);
    assert_eq!(try_count_cpulist(b"0 1"), None);
    assert_eq!(try_count_cpulist(b"0,,1"), Some(3));
}

#[test]
fn kernel_written_cpulists_are_counted() {
    assert_eq!(try_count_cpulist(b"0-3,5,7-9\n"), Some(8));
    assert_eq!(try_count_cpulist(b"-,\n"), Some(2));
    assert_eq!(count_cpulist(b"0-3,5,7-9\n"), 8);
}
