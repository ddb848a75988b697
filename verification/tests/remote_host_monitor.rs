use ease_proc::monitor::{MonitorRecord, MonitorTarget, MonitorTargetType, RemoteHostConfig};
use ease_proc::number::IntError;
use ease_proc::remote_host_monitor::{
    collect_remote_host_metrics, command_output, format_network_speeds, has_sane_cpu_times,
    parse_cpu_totals, parse_cpu_usage, parse_meminfo_kb, parse_memory_usage,
    parse_network_counters, CpuUsage, MetricsError, NetCounters, RemoteHostSample, RemoteMonitor,
    RemoteReports,
};

const STAT: &str = "cpu  100 20 30 800 50 0 0 0 0 0\ncpu0 1 2 3 4 5\nintr 7\n";

const MEMINFO: &str =
    "MemTotal:       16384000 kB\nMemFree:         1000 kB\nMemAvailable:    8192000 kB\n";

const NET: &str = "Inter-|   Receive                |  Transmit\n face |bytes packets\n\
    lo: 999 0 0 0 0 0 0 0 999 0 0 0 0 0 0 0\n\
  eth0: 1000 1 0 0 0 0 0 0 2000 1 0 0 0 0 0 0\n\
 wlan0:500 1 0 0 0 0 0 0 700 1 0 0 0 0 0 0\n\
 short: 1 2 3\nno colon here\n";

#[test]
fn cpu_totals_are_summed() {
    assert_eq!(parse_cpu_totals(STAT), Ok((1000, 850)));
    assert_eq!(parse_cpu_totals("x\ncpu 1 2 3 4 5"), Ok((15, 9)));
}

#[test]
fn cpu_totals_report_each_error() {
    assert_eq!(parse_cpu_totals("cpu0 1 2 3 4 5"), Err(MetricsError::CpuLineMissing));
    assert_eq!(parse_cpu_totals(""), Err(MetricsError::CpuLineMissing));
    assert_eq!(parse_cpu_totals("cpu 1 2 3 4"), Err(MetricsError::CpuFieldsMissing));
    assert_eq!(
        parse_cpu_totals("cpu 1 x -"),
        Err(MetricsError::CpuValue(IntError::InvalidDigit))
    );
    assert_eq!(
        parse_cpu_totals("cpu 1 18446744073709551616 x"),
        Err(MetricsError::CpuValue(IntError::PosOverflow))
    );
}

#[test]
fn cpu_usage_is_the_busy_part() {
    let before = "cpu 10 0 10 70 10";
    let after = "cpu 40 0 20 120 20";
    assert!(has_sane_cpu_times(before, after));
    let usage = parse_cpu_usage(before, after).unwrap();
    assert_eq!(usage, CpuUsage { busy: 40, total: 100 });
    assert_eq!(usage.busy as f32 / usage.total as f32 * 100.0, 40.0);
    assert_eq!(parse_cpu_usage(before, before), Ok(CpuUsage { busy: 0, total: 0 }));
    assert_eq!(parse_cpu_usage(after, before), Ok(CpuUsage { busy: 0, total: 0 }));
}

#[test]
fn cpu_usage_looks_at_the_first_report_first() {
    assert_eq!(parse_cpu_usage("", "cpu 1"), Err(MetricsError::CpuLineMissing));
    assert_eq!(parse_cpu_usage(STAT, "cpu 1"), Err(MetricsError::CpuFieldsMissing));
}

#[test]
fn impossible_cpu_times_are_noticed() {
    let huge = "cpu 18446744073709551615 1 0 0 0";
    assert!(!has_sane_cpu_times(huge, STAT));
    assert!(!has_sane_cpu_times(STAT, huge));
    assert!(has_sane_cpu_times("", huge));
    // More idle time has passed than time at all.
    assert!(!has_sane_cpu_times("cpu 100 0 0 0 0", "cpu 50 0 0 60 0"));
    assert!(has_sane_cpu_times("cpu 100 0 0 0 0", "cpu 40 0 0 60 0"));
}

#[test]
fn meminfo_lines_are_read() {
    assert_eq!(parse_meminfo_kb("MemTotal:       16384 kB"), Ok(16384));
    assert_eq!(parse_meminfo_kb("MemTotal:"), Err(MetricsError::MemFieldMissing));
    assert_eq!(parse_meminfo_kb(""), Err(MetricsError::MemFieldMissing));
    assert_eq!(
        parse_meminfo_kb("MemTotal: many kB"),
        Err(MetricsError::MemValue(IntError::InvalidDigit))
    );
}

#[test]
fn used_memory_is_shown() {
    assert_eq!(parse_memory_usage(MEMINFO), Ok("7.8 GB".to_string()));
    assert_eq!(
        parse_memory_usage("MemTotal: 1\nMemAvailable: 5\n"),
        Ok("0.0 GB".to_string())
    );
    // The last line of each kind counts.
    assert_eq!(
        parse_memory_usage("MemTotal: 1\nMemTotal: 3145728\nMemAvailable: 0\nMemAvailable: 1048576\n"),
        Ok("2.0 GB".to_string())
    );
    for used in [0u64, 1, 52428, 52429, 157286, 157287, 1 << 40, (1 << 60) + 12345] {
        let report = format!("MemTotal: {} kB\nMemAvailable: 0 kB\n", used);
        let expected = format!("{:.1} GB", used as f64 / 1024.0 / 1024.0);
        assert_eq!(parse_memory_usage(&report), Ok(expected));
    }
}

#[test]
fn memory_reports_each_error() {
    assert_eq!(parse_memory_usage(""), Err(MetricsError::MemTotalMissing));
    assert_eq!(parse_memory_usage("MemAvailable: 1"), Err(MetricsError::MemTotalMissing));
    assert_eq!(parse_memory_usage("MemTotal: 1"), Err(MetricsError::MemAvailableMissing));
    assert_eq!(
        parse_memory_usage("MemAvailable: x\nMemTotal:\n"),
        Err(MetricsError::MemValue(IntError::InvalidDigit))
    );
}

#[test]
fn network_counters_are_summed() {
    assert_eq!(
        parse_network_counters(NET),
        Ok(NetCounters { rx_bytes: 1500, tx_bytes: 2700 })
    );
    assert_eq!(parse_network_counters("a\nb"), Ok(NetCounters { rx_bytes: 0, tx_bytes: 0 }));
    assert_eq!(parse_network_counters(""), Ok(NetCounters { rx_bytes: 0, tx_bytes: 0 }));
}

#[test]
fn network_counters_stop_at_the_largest_number() {
    let line = "eth: 18446744073709551615 0 0 0 0 0 0 0 5 0 0 0 0 0 0 0\n";
    let report = format!("h\nh\n{}{}", line, line);
    assert_eq!(
        parse_network_counters(&report),
        Ok(NetCounters { rx_bytes: u64::MAX, tx_bytes: 10 })
    );
}

#[test]
fn network_counters_report_bad_numbers() {
    assert_eq!(
        parse_network_counters("h\nh\neth0: 1 x 3\n"),
        Err(MetricsError::NetValue(IntError::InvalidDigit))
    );
    assert_eq!(
        parse_network_counters("h\nh\nlo: 1 x 3\n"),
        Ok(NetCounters { rx_bytes: 0, tx_bytes: 0 })
    );
}

#[test]
fn speeds_need_two_samples() {
    let a = NetCounters { rx_bytes: 1000, tx_bytes: 5000 };
    let b = NetCounters { rx_bytes: 1000 + 4096, tx_bytes: 4000 };
    let none = ("0 B/s".to_string(), "0 B/s".to_string());
    assert_eq!(format_network_speeds(None, None, b, 9), none);
    assert_eq!(format_network_speeds(Some(a), None, b, 9), none);
    assert_eq!(format_network_speeds(None, Some(1), b, 9), none);
    assert_eq!(format_network_speeds(Some(a), Some(9), b, 9), none);
    assert_eq!(format_network_speeds(Some(a), Some(10), b, 9), none);
    assert_eq!(
        format_network_speeds(Some(a), Some(0), b, 2_000_000_000),
        ("2 KB/s".to_string(), "0 B/s".to_string())
    );
}

#[test]
fn command_output_is_trimmed() {
    assert_eq!(command_output(0, "  a b\n\n"), Ok("a b".to_string()));
    assert_eq!(command_output(2, "a"), Err(MetricsError::ExitStatus(2)));
}

#[test]
fn errors_have_messages() {
    let cases = [
        (MetricsError::CpuLineMissing, "未找到 /proc/stat 的 cpu 行"),
        (
            MetricsError::CpuValue(IntError::InvalidDigit),
            "解析 CPU 统计值失败: invalid digit found in string",
        ),
        (MetricsError::CpuFieldsMissing, "CPU 统计字段数量不足"),
        (MetricsError::MemTotalMissing, "未找到 MemTotal"),
        (MetricsError::MemAvailableMissing, "未找到 MemAvailable"),
        (MetricsError::MemFieldMissing, "内存信息字段缺失"),
        (
            MetricsError::MemValue(IntError::PosOverflow),
            "解析内存信息失败: number too large to fit in target type",
        ),
        (
            MetricsError::NetValue(IntError::Empty),
            "解析网卡统计失败: cannot parse integer from empty string",
        ),
        (
            MetricsError::NetValue(IntError::NegOverflow),
            "解析网卡统计失败: number too small to fit in target type",
        ),
        (MetricsError::ExitStatus(-1), "远程命令退出码异常: -1"),
    ];
    for (error, text) in cases {
        assert_eq!(error.message(), text);
    }
}

fn reports() -> RemoteReports {
    RemoteReports {
        cpu_before: "cpu 10 0 10 70 10".to_string(),
        memory: MEMINFO.to_string(),
        network: NET.to_string(),
        cpu_after: "cpu 40 0 20 120 20".to_string(),
    }
}

#[test]
fn reports_become_a_sample() {
    let earlier = NetCounters { rx_bytes: 500, tx_bytes: 700 };
    let sample =
        collect_remote_host_metrics(&reports(), Some(earlier), Some(1_000_000_000), 2_000_000_000)
            .unwrap();
    assert_eq!(sample.cpu_usage, CpuUsage { busy: 40, total: 100 });
    assert_eq!(sample.memory_usage, "7.8 GB");
    assert_eq!(sample.download_speed, "1000 B/s");
    assert_eq!(sample.upload_speed, "2 KB/s");
    assert_eq!(sample.net_counters, NetCounters { rx_bytes: 1500, tx_bytes: 2700 });
    assert_eq!(sample.sampled_at, 2_000_000_000);
}

#[test]
fn first_error_of_the_reports_counts() {
    let mut bad = reports();
    bad.network = "h\nh\neth0: x\n".to_string();
    assert_eq!(
        collect_remote_host_metrics(&bad, None, None, 0).unwrap_err(),
        MetricsError::NetValue(IntError::InvalidDigit)
    );
    bad.memory = String::new();
    assert_eq!(
        collect_remote_host_metrics(&bad, None, None, 0).unwrap_err(),
        MetricsError::MemTotalMissing
    );
    bad.cpu_after = String::new();
    assert_eq!(
        collect_remote_host_metrics(&bad, None, None, 0).unwrap_err(),
        MetricsError::CpuLineMissing
    );
}

fn config(host: &str, username: &str, password: &str) -> RemoteHostConfig {
    RemoteHostConfig {
        host: host.to_string(),
        port: 22,
        username: username.to_string(),
        password: password.to_string(),
    }
}

fn target(config: RemoteHostConfig) -> MonitorTarget {
    MonitorTarget::new(5, MonitorTargetType::RemoteHost(config), "r".to_string(), true).unwrap()
}

fn sample(rx: u64, at: u64) -> RemoteHostSample {
    RemoteHostSample {
        cpu_usage: CpuUsage { busy: 1, total: 2 },
        memory_usage: "1.0 GB".to_string(),
        download_speed: "3 B/s".to_string(),
        upload_speed: "4 B/s".to_string(),
        net_counters: NetCounters { rx_bytes: rx, tx_bytes: 0 },
        sampled_at: at,
    }
}

fn latest(target: &MonitorTarget) -> (u32, String, String, String, bool) {
    match &target.performance_records[0] {
        MonitorRecord::RemoteHost(r) => (
            r.cpu_usage_bits,
            r.memory_usage.clone(),
            r.download_speed.clone(),
            r.upload_speed.clone(),
            r.running,
        ),
        _ => panic!("wrong kind of record"),
    }
}

#[test]
fn incomplete_configuration_disables_the_target() {
    for c in [config(" ", "u", "p"), config("h", "\t", "p"), config("h", "u", "")] {
        let mut t = target(c.clone());
        let status = RemoteMonitor::begin(&mut t, 5, &c, "now".to_string()).unwrap_err();
        assert_eq!(status.mt_id, 5);
        assert_eq!(status.target_type, "RemoteHost");
        assert_eq!(status.signal, "error");
        assert_eq!(status.message, "远程主机配置不完整，请检查主机地址、用户名和密码");
        assert!(!t.monitor_enabled);
        assert!(!latest(&t).4);
    }
}

#[test]
fn failures_are_reported_once_until_the_next_sample() {
    let c = config("h", "u", "p");
    let mut t = target(c.clone());
    let mut m = RemoteMonitor::begin(&mut t, 5, &c, "t0".to_string()).unwrap();
    assert!(t.monitor_enabled);
    assert_eq!(latest(&t), (0, "0.0 GB".to_string(), "0 B/s".to_string(), "0 B/s".to_string(), false));
    let down = "down".to_string();
    assert!(m.failed(&mut t, &down, "t1".to_string()));
    assert!(!m.failed(&mut t, &down, "t2".to_string()));
    assert!(m.sampled(&mut t, sample(10, 7), 50.0f32.to_bits(), "t3".to_string()));
    assert!(!m.sampled(&mut t, sample(20, 8), 50.0f32.to_bits(), "t4".to_string()));
    assert_eq!(
        latest(&t),
        (50.0f32.to_bits(), "1.0 GB".to_string(), "3 B/s".to_string(), "4 B/s".to_string(), true)
    );
    assert_eq!(m.previous_net_counters, Some(NetCounters { rx_bytes: 20, tx_bytes: 0 }));
    assert_eq!(m.previous_sample_at, Some(8));
    assert!(m.failed(&mut t, &down, "t5".to_string()));
    assert_eq!(m.previous_net_counters, None);
    assert_eq!(m.previous_sample_at, None);
    assert!(!m.failed(&mut t, &down, "t6".to_string()));
    assert!(!latest(&t).4);
    assert_eq!(t.performance_records.len(), 1);
}

#[test]
fn failure_without_a_message_is_reported_again() {
    let c = config("h", "u", "p");
    let mut t = target(c.clone());
    let mut m = RemoteMonitor::begin(&mut t, 5, &c, "t0".to_string()).unwrap();
    assert!(m.failed(&mut t, &String::new(), "t1".to_string()));
    assert!(m.failed(&mut t, &String::new(), "t2".to_string()));
}
