use dashdust::format::{format_bytes, format_uptime};

fn float_label(bytes: u64) -> String {
    const GIB: u64 = 1_073_741_824;
    const MIB: u64 = 1_048_576;
    const KIB: u64 = 1_024;
    if bytes >= GIB {
        format!("{:.1} GiB", bytes as f64 / GIB as f64)
    } else if bytes >= MIB {
        format!("{:.1} MiB", bytes as f64 / MIB as f64)
    } else if bytes >= KIB {
        format!("{:.1} KiB", bytes as f64 / KIB as f64)
    } else {
        format!("{} B", bytes)
    }
}

#[test]
fn bytes_below_one_kib_are_plain() {
    assert_eq!(format_bytes(0), "0 B");
    assert_eq!(format_bytes(1), "1 B");
    assert_eq!(format_bytes(512), "512 B");
    assert_eq!(format_bytes(1023), "1023 B");
}

#[test]
fn bytes_unit_thresholds() {
    assert_eq!(format_bytes(1024), "1.0 KiB");
    assert_eq!(format_bytes(1536), "1.5 KiB");
    assert_eq!(format_bytes(1_048_575), "1024.0 KiB");
    assert_eq!(format_bytes(1_048_576), "1.0 MiB");
    assert_eq!(format_bytes(1_073_741_823), "1024.0 MiB");
    assert_eq!(format_bytes(1_073_741_824), "1.0 GiB");
    assert_eq!(format_bytes(17_179_869_184), "16.0 GiB");
}

#[test]
fn bytes_ties_round_to_even_tenth() {
    // 1280 B is exactly 1.25 KiB, 1331.2 is not a byte count; 3.75 KiB = 3840 B.
    assert_eq!(format_bytes(1280), float_label(1280));
    assert_eq!(format_bytes(3840), float_label(3840));
    assert_eq!(format_bytes(1280), "1.2 KiB");
    assert_eq!(format_bytes(3840), "3.8 KiB");
}

#[test]
fn bytes_at_u64_limits() {
    assert_eq!(format_bytes(u64::MAX), float_label(u64::MAX));
    assert_eq!(format_bytes(u64::MAX), "17179869184.0 GiB");
    let around_2_53: [u64; 6] = [
        (1 << 53) - 1,
        1 << 53,
        (1 << 53) + 1,
        (1 << 53) + 3,
        (1 << 60) + (1 << 7),
        (1 << 60) + (1 << 7) + 1,
    ];
    for b in around_2_53 {
        assert_eq!(format_bytes(b), float_label(b), "bytes = {}", b);
    }
}

#[test]
fn bytes_agree_with_float_formatting_on_a_sweep() {
    let mut x: u64 = 0x9E37_79B9_7F4A_7C15;
    for i in 0..200_000u64 {
        x ^= x << 13;
        x ^= x >> 7;
        x ^= x << 17;
        let b = match i % 5 {
            0 => x,
            1 => x >> 20,
            2 => x >> 34,
            3 => x >> 44,
            _ => i * 128,
        };
        assert_eq!(format_bytes(b), float_label(b), "bytes = {}", b);
    }
}

#[test]
fn uptime_minutes_and_seconds() {
    assert_eq!(format_uptime(0), "0m 0s");
    assert_eq!(format_uptime(59), "0m 59s");
    assert_eq!(format_uptime(61), "1m 1s");
    assert_eq!(format_uptime(3599), "59m 59s");
}

#[test]
fn uptime_hours_and_days() {
    assert_eq!(format_uptime(3600), "1h 0m");
    assert_eq!(format_uptime(3725), "1h 2m");
    assert_eq!(format_uptime(86399), "23h 59m");
    assert_eq!(format_uptime(86400), "1d 0h 0m");
    assert_eq!(format_uptime(90061), "1d 1h 1m");
    assert_eq!(format_uptime(u64::MAX), "213503982334601d 7h 0m");
}
