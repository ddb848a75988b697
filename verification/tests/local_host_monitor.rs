use ease_proc::local_host_monitor::{
    get_main_interface_name, has_sane_traffic, HostMonitor, NetworkInterface,
};
use ease_proc::monitor::{MonitorRecord, MonitorTarget, MonitorTargetType};

fn net(name: &str, total: (u64, u64), recent: (u64, u64)) -> NetworkInterface {
    NetworkInterface {
        name: name.to_string(),
        total_received: total.0,
        total_transmitted: total.1,
        received: recent.0,
        transmitted: recent.1,
    }
}

#[test]
fn busiest_real_interface_is_the_main_one() {
    let nets = vec![
        net("lo", (900, 900), (0, 0)),
        net("eth0", (10, 20), (0, 0)),
        net("docker0", (900, 900), (0, 0)),
        net("eth1", (30, 20), (0, 0)),
        net("eth2", (20, 30), (0, 0)),
    ];
    assert!(has_sane_traffic(&nets));
    assert_eq!(get_main_interface_name(&nets), "eth1");
}

#[test]
fn every_virtual_prefix_is_ignored() {
    for name in ["lo", "loop", "docker0", "veth1", "br-1", "tun0", "virbr0", "VMware 1"] {
        let nets = vec![net(name, (9, 9), (0, 0)), net("e", (0, 0), (0, 0))];
        assert_eq!(get_main_interface_name(&nets), "e", "{}", name);
    }
}

#[test]
fn first_interface_stands_in_for_a_main_one() {
    assert_eq!(get_main_interface_name(&vec![net("lo", (1, 1), (0, 0)), net("tun", (2, 2), (0, 0))]), "lo");
    assert_eq!(get_main_interface_name(&Vec::new()), "unknown");
}

#[test]
fn interface_without_a_name_gives_way() {
    let nets = vec![net("", (50, 50), (0, 0)), net("a", (1, 1), (0, 0))];
    assert_eq!(get_main_interface_name(&nets), "a");
}

#[test]
fn traffic_that_cannot_be_added_up_is_noticed() {
    assert!(!has_sane_traffic(&vec![net("eth0", (u64::MAX, 1), (0, 0))]));
    assert!(has_sane_traffic(&vec![net("lo", (u64::MAX, 1), (0, 0))]));
    assert!(has_sane_traffic(&vec![net("eth0", (u64::MAX, 0), (0, 0))]));
}

#[test]
fn measurement_becomes_the_record() {
    let start = vec![net("eth0", (5, 5), (0, 0)), net("eth1", (1, 1), (0, 0))];
    let watch = HostMonitor::begin(0, &start);
    assert_eq!(watch.main_interface_name, "eth0");
    let mut target =
        MonitorTarget::new(0, MonitorTargetType::LocalHost, "本机监控".to_string(), true).unwrap();
    let now = vec![net("eth1", (9, 9), (7, 7)), net("eth0", (5, 5), (2048, 100))];
    watch.sampled(&mut target, 12.5f32.to_bits(), 8_589_934_592, &now, "t".to_string());
    watch.sampled(&mut target, 25.0f32.to_bits(), 8_589_934_592, &now, "u".to_string());
    assert_eq!(target.performance_records.len(), 1);
    match &target.performance_records[0] {
        MonitorRecord::LocalHost(r) => {
            assert_eq!(r.mt_id, 0);
            assert_eq!(f32::from_bits(r.cpu_usage_bits), 25.0);
            assert_eq!(r.memory_usage, "8.0");
            assert_eq!(f32::from_bits(r.disk_usage_bits), 0.0);
            assert_eq!(r.timestamp, "u");
            assert_eq!(r.download_speed, "2 KB/s");
            assert_eq!(r.upload_speed, "100 B/s");
            assert_eq!(r.network_saturation, 0);
        }
        _ => panic!("wrong kind of record"),
    }
}

#[test]
fn missing_interface_shows_no_traffic() {
    let watch = HostMonitor::begin(3, &vec![net("eth0", (5, 5), (0, 0))]);
    let mut target =
        MonitorTarget::new(3, MonitorTargetType::LocalHost, "x".to_string(), true).unwrap();
    watch.sampled(&mut target, 0, 0, &vec![net("wlan0", (1, 1), (9, 9))], "t".to_string());
    match &target.performance_records[0] {
        MonitorRecord::LocalHost(r) => {
            assert_eq!(r.download_speed, "0 B/s");
            assert_eq!(r.upload_speed, "0 B/s");
        }
        _ => panic!("wrong kind of record"),
    }
}
