use rpi_monitor::net::{
    eth_speed, find_eth_interfaces, find_wifi_interface, flags_say_down, ip_from_output,
    is_interface_disabled, is_wireless_interface, net_status, primary_eth, state_is_down,
    wifi_details, wifi_link_up, wifi_report, wifi_security, EthInterface, InterfaceEntry,
    WifiLink, WifiProbe,
};

fn entry(name: &str, wireless: bool, phy: bool, device: bool) -> InterfaceEntry {
    InterfaceEntry {
        name: name.to_string(),
        has_wireless_dir: wireless,
        has_phy80211_dir: phy,
        has_device_dir: device,
    }
}

fn eth(name: &str, status: &str) -> EthInterface {
    EthInterface {
        name: name.to_string(),
        status: status.to_string(),
        ip: format!("ip-{}", name),
        speed: "1000 Mbps".to_string(),
    }
}

#[test]
fn wireless_by_name_or_directory() {
    assert!(is_wireless_interface("wlan0", false, false));
    assert!(is_wireless_interface("wlp2s0", false, false));
    assert!(is_wireless_interface("wifi0", false, false));
    assert!(!is_wireless_interface("eth0", false, false));
    assert!(is_wireless_interface("eth0", true, false));
    assert!(is_wireless_interface("mlan0", false, true));
    assert!(!is_wireless_interface("w", false, false));
}

#[test]
fn eth_interfaces_are_filtered_and_sorted() {
    let entries = vec![
        entry("lo", false, false, false),
        entry("eth1", false, false, false),
        entry("eth0", false, false, true),
        entry("docker0", false, false, true),
        entry("br-1234", false, false, false),
        entry("veth9", false, false, true),
        entry("virbr0", false, false, false),
        entry("tun0", false, false, false),
        entry("tap0", false, false, false),
        entry("wlan0", false, false, true),
        entry("enp3s0", false, false, false),
        entry("usb0", false, false, true),
        entry("dummy0", false, false, false),
        entry("eth9", true, false, true),
    ];
    assert_eq!(find_eth_interfaces(&entries), vec!["enp3s0", "eth0", "eth1", "usb0"]);
    assert!(find_eth_interfaces(&vec![]).is_empty());
}

#[test]
fn eth_sort_is_byte_order() {
    let entries = vec![entry("eth10", false, false, false), entry("eth2", false, false, false), entry("Eth0", false, false, true)];
    let mut expected = vec!["eth10".to_string(), "eth2".to_string(), "Eth0".to_string()];
    expected.sort();
    assert_eq!(find_eth_interfaces(&entries), expected);
}

#[test]
fn wifi_interface_is_first_sorted_candidate() {
    let entries = vec![
        entry("wlan1", false, false, true),
        entry("lo", true, false, false),
        entry("xyz", false, true, true),
        entry("wlan0", false, false, true),
        entry("eth0", false, false, true),
    ];
    assert_eq!(find_wifi_interface(&entries), Some("wlan0".to_string()));
    assert_eq!(find_wifi_interface(&vec![entry("eth0", false, false, true)]), None);
    assert_eq!(find_wifi_interface(&vec![]), None);
}

#[test]
fn no_interface_is_both_eth_and_wifi() {
    let entries = vec![
        entry("wlan0", false, false, true),
        entry("eth0", true, false, true),
        entry("en1", false, true, false),
    ];
    assert!(find_eth_interfaces(&entries).is_empty());
    assert_eq!(find_wifi_interface(&entries), Some("en1".to_string()));
}

#[test]
fn flags_and_operstate() {
    assert!(!flags_say_down("0x1003\n"));
    assert!(flags_say_down("0x1002\n"));
    assert!(flags_say_down("0x0x2"));
    assert!(!flags_say_down("zz"));
    assert!(!flags_say_down(""));
    assert!(state_is_down("down"));
    assert!(!state_is_down("DOWN"));
    assert!(!is_interface_disabled(Some("0x1003\n"), Some("up\n")));
    assert!(is_interface_disabled(Some("0x1002\n"), Some("up\n")));
    assert!(is_interface_disabled(None, Some(" DOWN\n")));
    assert!(is_interface_disabled(Some("zz"), Some("Down")));
    assert!(!is_interface_disabled(Some("zz"), Some("dormant")));
    assert!(!is_interface_disabled(None, None));
}

#[test]
fn status_is_upper_case() {
    assert_eq!(net_status(Some("up\n")), "UP");
    assert_eq!(net_status(Some("  unknown ")), "UNKNOWN");
    assert_eq!(net_status(None), "DOWN");
}

#[test]
fn ip_from_ip_addr_output() {
    let out = "2: eth0: <BROADCAST,MULTICAST,UP,LOWER_UP> mtu 1500 qdisc mq state UP\n    inet 192.168.1.10/24 brd 192.168.1.255 scope global dynamic eth0\n       valid_lft 86000sec preferred_lft 86000sec\n    inet 10.0.0.9/8 scope global eth0\n";
    assert_eq!(ip_from_output(out), "192.168.1.10");
    assert_eq!(ip_from_output("    inet    \n    inet 10.0.0.2 scope global\n"), "10.0.0.2");
    assert_eq!(ip_from_output("    inet6 fe80::1/64 scope link\n"), "--");
    assert_eq!(ip_from_output(""), "--");
}

#[test]
fn speed_text() {
    assert_eq!(eth_speed(Some("1000\n")), "1000 Mbps");
    assert_eq!(eth_speed(Some("-1\n")), "--");
    assert_eq!(eth_speed(Some("  ")), "--");
    assert_eq!(eth_speed(None), "--");
}

#[test]
fn wifi_details_from_iw() {
    let out = "Connected to aa:bb:cc:dd:ee:ff (on wlan0)\n\tSSID: home\n\tfreq: 5180\n\tRX: 123 bytes (4 packets)\n\tsignal: -52 dBm\n\ttx bitrate: 433.3 MBit/s\n";
    assert_eq!(wifi_details(out), ("-52 dBm".to_string(), "5180".to_string()));
    assert_eq!(wifi_details("Not connected.\n"), ("--".to_string(), "--".to_string()));
    assert_eq!(wifi_details("\tsignal:\n\tsignal: -40   dBm\n\tsignal:\n"), ("-40 dBm".to_string(), "--".to_string()));
    assert_eq!(wifi_details("freq: 2412\nfreq: 5.0 GHz\n"), ("--".to_string(), "5.0 GHz".to_string()));
}

#[test]
fn wifi_security_from_wpa_cli() {
    assert_eq!(wifi_security("bssid=aa\nssid=home\nkey_mgmt=WPA2-PSK\nwpa_state=COMPLETED\n"), "WPA2-PSK");
    assert_eq!(wifi_security("key_mgmt=key_mgmt=SAE\r\n"), "SAE");
    assert_eq!(wifi_security(" key_mgmt=X\n"), "--");
    assert_eq!(wifi_security(""), "--");
}

#[test]
fn primary_eth_prefers_up() {
    let p = primary_eth(&vec![eth("eth0", "DOWN"), eth("eth1", "UP")]);
    assert_eq!(p.name, "eth1");
    assert_eq!(p.ip, "ip-eth1");
    let q = primary_eth(&vec![eth("eth0", "DOWN"), eth("eth1", "DOWN")]);
    assert_eq!(q.name, "eth0");
    let r = primary_eth(&vec![]);
    assert_eq!((r.name.as_str(), r.status.as_str(), r.ip.as_str(), r.speed.as_str()), ("eth0", "DOWN", "--", "--"));
}

#[test]
fn wifi_report_cases() {
    assert!(wifi_link_up("UP", false));
    assert!(!wifi_link_up("UP", true));
    assert!(!wifi_link_up("DORMANT", false));

    let none = wifi_report(None, None);
    assert!(none.wifi.is_none());
    assert_eq!((none.status.as_str(), none.ip.as_str(), none.signal.as_str(), none.freq.as_str(), none.sec.as_str()), ("DISABLED", "--", "--", "--", "--"));

    let probe = WifiProbe { name: "wlan0".to_string(), status: "UP".to_string(), disabled: false };
    let link = WifiLink { ip: "10.0.0.5".to_string(), signal: "-50 dBm".to_string(), freq: "5180".to_string(), sec: "WPA2-PSK".to_string() };
    let up = wifi_report(Some(probe), Some(link));
    let info = up.wifi.expect("link is up");
    assert_eq!(info.name, "wlan0");
    assert_eq!(info.ip, "10.0.0.5");
    assert_eq!(up.status, "UP");
    assert_eq!(up.sec, "WPA2-PSK");

    let off = wifi_report(Some(WifiProbe { name: "wlan0".to_string(), status: "UP".to_string(), disabled: true }), None);
    assert!(off.wifi.is_none());
    assert_eq!(off.status, "DISABLED");
    let down = wifi_report(Some(WifiProbe { name: "wlan0".to_string(), status: "DORMANT".to_string(), disabled: false }), None);
    assert!(down.wifi.is_none());
    assert_eq!(down.status, "DORMANT");
    assert_eq!(down.ip, "--");
}
