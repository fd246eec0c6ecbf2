use microfetch::uptime::{get_current, SysInfo};

fn info(uptime: i64) -> SysInfo {
    SysInfo {
        uptime,
        loads: [0; 3],
        totalram: 0,
        freeram: 0,
        sharedram: 0,
        bufferram: 0,
        totalswap: 0,
        freeswap: 0,
        procs: 0,
        totalhigh: 0,
        freehigh: 0,
        mem_unit: 1,
    }
}

#[test]
fn uptime_all_units() {
    assert_eq!(get_current(&info(90061)), "1 day, 1 hour, 1 minute");
}

#[test]
fn uptime_plurals() {
    assert_eq!(get_current(&info(183900)), "2 days, 3 hours, 5 minutes");
}

#[test]
fn uptime_under_a_minute() {
    assert_eq!(get_current(&info(0)), "less than a minute");
    assert_eq!(get_current(&info(59)), "less than a minute");
}

#[test]
fn uptime_exactly_one_minute() {
    assert_eq!(get_current(&info(60)), "1 minute");
}

#[test]
fn uptime_skips_zero_units() {
    assert_eq!(get_current(&info(3600)), "1 hour");
    assert_eq!(get_current(&info(86400)), "1 day");
    assert_eq!(get_current(&info(86400 + 120)), "1 day, 2 minutes");
}

#[test]
fn uptime_negative_reads_as_unsigned() {
    assert_eq!(get_current(&info(-1)), "213503982334601 days, 7 hours");
}
