use rpi_monitor::system::{
    advance_counters, initial_counters, ByteCounters,
    choose_hostname, choose_os, counter_delta, counters_total, disk_bytes_read_written,
    fan_rpm, format_uptime, gpu_freq_mhz, os_fallback_text, os_from_release_text, HwmonSensor,
};

#[test]
fn hostname_choice() {
    assert_eq!(choose_hostname(Some("  pi5\n"), Some("other"), None), "pi5");
    assert_eq!(choose_hostname(Some(" \n"), Some("kern\n"), Some("rep".to_string())), "kern");
    assert_eq!(choose_hostname(None, Some(""), Some("rep".to_string())), "rep");
    assert_eq!(choose_hostname(None, None, None), "Unknown");
}

#[test]
fn os_from_os_release() {
    let full = "PRETTY_NAME=\"Debian GNU/Linux 12 (bookworm)\"\nNAME=\"Debian GNU/Linux\"\nVERSION_ID=\"12\"\nVERSION=\"12 (bookworm)\"\nID=debian\n";
    assert_eq!(os_from_release_text(full), Some("Debian GNU/Linux 12 (bookworm)".to_string()));
    let no_pretty = "PRETTY_NAME=\"\"\nNAME=\"Debian GNU/Linux\"\nVERSION=\"12 (bookworm)\"\n";
    assert_eq!(os_from_release_text(no_pretty), Some("Debian GNU/Linux 12 (bookworm)".to_string()));
    assert_eq!(os_from_release_text("  NAME=Alpine  \n"), Some("Alpine".to_string()));
    assert_eq!(os_from_release_text("NAME=a\nNAME=b\n"), Some("b".to_string()));
    assert_eq!(os_from_release_text("ID=x\n"), None);
}

#[test]
fn os_fallbacks() {
    assert_eq!(os_fallback_text(Some("Linux".to_string()), Some("6.1".to_string())), "Linux 6.1");
    assert_eq!(os_fallback_text(None, None), "Linux");
    assert_eq!(os_fallback_text(Some(" ".to_string()), Some("".to_string())), "Linux");
    assert_eq!(os_fallback_text(Some("Raspbian".to_string()), None), "Raspbian");
    assert_eq!(choose_os(Some("ID=x\n"), Some("Debian".to_string()), Some("12".to_string())), "Debian 12");
    assert_eq!(choose_os(Some("PRETTY_NAME=Pi OS\n"), None, None), "Pi OS");
    assert_eq!(choose_os(None, None, None), "Linux");
}

#[test]
fn uptime_format() {
    assert_eq!(format_uptime(93784), "1d 2h 3m");
    assert_eq!(format_uptime(0), "0d 0h 0m");
    assert_eq!(format_uptime(59), "0d 0h 0m");
    assert_eq!(format_uptime(86399), "0d 23h 59m");
    let u = 123456789u64;
    assert_eq!(format_uptime(u), format!("{}d {}h {}m", u / 86400, (u / 3600) % 24, (u / 60) % 60));
}

#[test]
fn gpu_frequency() {
    assert_eq!(gpu_freq_mhz(true, "frequency(1)=910000000\n"), 910);
    assert_eq!(gpu_freq_mhz(false, "frequency(1)=910000000\n"), 0);
    assert_eq!(gpu_freq_mhz(true, "frequency(1)=abc\n"), 0);
    assert_eq!(gpu_freq_mhz(true, "no value\n"), 0);
    assert_eq!(gpu_freq_mhz(true, "a= 500000000 =b"), 500);
    let big = u64::MAX;
    assert_eq!(gpu_freq_mhz(true, &format!("x={}", big)), (big / 1_000_000) as u32);
}

fn sensor(name: Option<&str>, fan: Option<&str>) -> HwmonSensor {
    HwmonSensor { name: name.map(|s| s.to_string()), fan_input: fan.map(|s| s.to_string()) }
}

#[test]
fn fan_speed() {
    assert_eq!(fan_rpm(&vec![sensor(Some("cpu_thermal\n"), None), sensor(Some("pwmfan\n"), Some("2345\n"))]), 2345);
    assert_eq!(fan_rpm(&vec![sensor(Some("pwmfan"), None), sensor(Some("pwmfan"), Some("12"))]), 12);
    assert_eq!(fan_rpm(&vec![sensor(Some("pwmfan"), Some("x")), sensor(Some("pwmfan"), Some("12"))]), 0);
    assert_eq!(fan_rpm(&vec![sensor(None, Some("5"))]), 0);
    assert_eq!(fan_rpm(&vec![]), 0);
}

#[test]
fn disk_counters() {
    let stats = " 179       0 mmcblk0 1000 20 3000 400 500 60 700 80 0 900 1000 0 0 0 0\n   7       0 loop0 10 0 20 0 0 0 0 0 0 0 0 0 0 0 0\n 259       0 nvme0n1 5 0 10 0 6 0 12 0 0 0 0\n   8       0 sdb 5 0 10 0 6 0 12 0 0 0 0\n 179       1 mmcblk0p1 1 0 x 0 1 0 1 0 0 0 0\n";
    assert_eq!(disk_bytes_read_written(stats), Some(((3000 + 10) * 512, (700 + 12) * 512)));
    assert_eq!(disk_bytes_read_written(""), Some((0, 0)));
    let huge = " 8 0 sda 1 0 18446744073709551615 0 0 0 0 0 0 0 0\n";
    assert_eq!(disk_bytes_read_written(huge), None);
}

#[test]
fn counter_rates() {
    assert_eq!(counter_delta(0, 5), 0);
    assert_eq!(counter_delta(5, 12), 7);
    assert_eq!(counter_delta(12, 5), 0);
    assert_eq!(counters_total(&vec![1, 2, 3]), Some(6));
    assert_eq!(counters_total(&vec![]), Some(0));
    assert_eq!(counters_total(&vec![u64::MAX, 1]), None);
}

#[test]
fn counters_carry_between_samples() {
    let mut state = initial_counters();
    let first = advance_counters(&mut state, ByteCounters { read: 100, written: 50, received: 7, sent: 9 });
    assert_eq!((first.read, first.written, first.received, first.sent), (0, 0, 0, 0));
    let second = advance_counters(&mut state, ByteCounters { read: 160, written: 40, received: 10, sent: 9 });
    assert_eq!((second.read, second.written, second.received, second.sent), (60, 0, 3, 0));
    assert_eq!((state.read, state.written, state.received, state.sent), (160, 40, 10, 9));
}
