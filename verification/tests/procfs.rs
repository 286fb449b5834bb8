use mitos_system_monitor::procfs::{
    parse_kb, read_cpu_times, read_meminfo, CpuTimes, MemInfo, ProcfsError,
};

fn lines(texts: &[&str]) -> Vec<String> {
    texts.iter().map(|t| t.to_string()).collect()
}

#[test]
fn parse_kb_reads_the_second_word() {
    assert_eq!(parse_kb("MemTotal:       16384 kB"), 16384);
    assert_eq!(parse_kb("MemTotal:\t+7"), 7);
}

#[test]
fn parse_kb_counts_anything_else_as_zero() {
    assert_eq!(parse_kb(""), 0);
    assert_eq!(parse_kb("MemTotal:"), 0);
    assert_eq!(parse_kb("MemTotal: many kB"), 0);
    assert_eq!(parse_kb("MemTotal:16384 kB"), 0);
    assert_eq!(parse_kb("MemTotal: -1 kB"), 0);
    assert_eq!(parse_kb("MemTotal: 18446744073709551616 kB"), 0);
}

#[test]
fn meminfo_is_read() {
    let info = read_meminfo(&lines(&[
        "MemTotal:       32768000 kB",
        "MemFree:         1234567 kB",
        "MemAvailable:   20000000 kB",
        "Buffers:          500000 kB",
        " MemFree:              9 kB",
    ]));
    assert_eq!(
        info,
        MemInfo { total_kb: 32768000, free_kb: 1234567, available_kb: 20000000 }
    );
}

#[test]
fn last_line_of_a_label_counts() {
    let info = read_meminfo(&lines(&["MemFree: 1 kB", "MemFree: 2 kB", "MemTotal: x"]));
    assert_eq!(info, MemInfo { total_kb: 0, free_kb: 2, available_kb: 0 });
    assert_eq!(
        read_meminfo(&Vec::new()),
        MemInfo { total_kb: 0, free_kb: 0, available_kb: 0 }
    );
}

#[test]
fn cpu_times_are_read() {
    assert_eq!(
        read_cpu_times("cpu  12345 678 901 23456 78 9 0 0 0 0\n"),
        Ok(CpuTimes { user: 12345, nice: 678, system: 901, idle: 23456 })
    );
    assert_eq!(
        read_cpu_times("cpu 1 two 3 4"),
        Ok(CpuTimes { user: 1, nice: 0, system: 3, idle: 4 })
    );
}

#[test]
fn short_stat_line_is_invalid() {
    assert_eq!(read_cpu_times("cpu 1 2 3"), Err(ProcfsError::InvalidStat));
    assert_eq!(read_cpu_times(""), Err(ProcfsError::InvalidStat));
    assert_eq!(ProcfsError::InvalidStat.message(), "Invalid /proc/stat");
}
