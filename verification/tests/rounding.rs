use ease_proc::local_host_monitor::{format_memory, format_speed};
use ease_proc::rounding::{divide_half_even, rate_per_second, to_binary32, to_binary64};
use std::time::Duration;

fn next(seed: &mut u64) -> u64 {
    *seed ^= *seed << 13;
    *seed ^= *seed >> 7;
    *seed ^= *seed << 17;
    *seed
}

/// Numbers of all magnitudes, and those around powers of two.
fn amounts() -> Vec<u64> {
    let mut out = vec![0, 1, 2, 1023, 1024, 1025, 1535, 1536, 1537, 2559, 2560, u64::MAX];
    for k in 0..64 {
        let p = 1u64 << k;
        out.push(p - 1);
        out.push(p);
        out.push(p.saturating_add(1));
        out.push(p.saturating_add(p / 2));
    }
    let mut seed = 0x9E37_79B9_7F4A_7C15u64;
    for _ in 0..20000 {
        let shift = next(&mut seed) % 64;
        out.push(next(&mut seed) >> shift);
    }
    out
}

fn expected_speed(bytes: u64) -> String {
    let speed = bytes as f64;
    let kb = 1024.0;
    let mb = kb * 1024.0;
    let gb = mb * 1024.0;
    if speed < kb {
        format!("{:.0} B/s", speed)
    } else if speed < mb {
        format!("{:.0} KB/s", speed / kb)
    } else if speed < gb {
        format!("{:.1} MB/s", speed / mb)
    } else {
        format!("{:.1} GB/s", speed / gb)
    }
}

#[test]
fn conversions_agree_with_the_machine() {
    for n in amounts() {
        assert_eq!(to_binary64(n), n as f64 as u128, "{}", n);
        assert_eq!(to_binary32(n), n as f32 as u128, "{}", n);
    }
}

#[test]
fn speeds_agree_with_the_machine() {
    for n in amounts() {
        assert_eq!(format_speed(n), expected_speed(n), "{}", n);
    }
}

#[test]
fn speeds_have_known_texts() {
    assert_eq!(format_speed(0), "0 B/s");
    assert_eq!(format_speed(1023), "1023 B/s");
    assert_eq!(format_speed(1024), "1 KB/s");
    assert_eq!(format_speed(1536), "2 KB/s");
    assert_eq!(format_speed(2560), "2 KB/s");
    assert_eq!(format_speed(1024 * 1024), "1.0 MB/s");
    assert_eq!(format_speed(1024 * 1024 * 1024 * 3 / 2), "1.5 GB/s");
}

#[test]
fn memory_agrees_with_the_machine() {
    for n in amounts() {
        let expected = format!("{:.1}", (n as f32) / 1024.0 / 1024.0 / 1024.0);
        assert_eq!(format_memory(n), expected, "{}", n);
    }
    assert_eq!(format_memory(17_179_869_184), "16.0");
}

#[test]
fn rates_agree_with_the_machine() {
    let mut seed = 88172645463325252u64;
    let mut cases: Vec<(u64, u64)> = Vec::new();
    for _ in 0..100000 {
        let a = next(&mut seed) >> (next(&mut seed) % 64);
        let t = (next(&mut seed) >> (next(&mut seed) % 64)).max(1);
        cases.push((a, t));
    }
    for a in [0, 1, 2, 3, 5, 1 << 53, (1 << 53) + 1, u64::MAX] {
        for t in [1, 2, 999_999_999, 1_000_000_000, 1_000_000_001, 5_000_123_456, u64::MAX] {
            cases.push((a, t));
        }
    }
    for (a, t) in cases {
        let seconds = Duration::from_nanos(t).as_secs_f64();
        let expected = (a as f64 / seconds).round() as u64;
        assert_eq!(rate_per_second(a, t), expected, "{} {}", a, t);
    }
    assert_eq!(rate_per_second(1000, 2_000_000_000), 500);
    assert_eq!(rate_per_second(5, 2_000_000_000), 3);
}

#[test]
fn halves_round_to_even() {
    assert_eq!(divide_half_even(1, 2), 0);
    assert_eq!(divide_half_even(3, 2), 2);
    assert_eq!(divide_half_even(5, 2), 2);
    assert_eq!(divide_half_even(7, 4), 2);
    assert_eq!(divide_half_even(6, 4), 2);
    assert_eq!(divide_half_even(10, 4), 2);
}
