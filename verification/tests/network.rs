use std::cell::RefCell;

use auralink::nm::{colon_fields_of, get_active_ssid, get_saved_ssids, list_networks, sort_networks, Network, NetworkConfig};
use auralink::nm_ops::{
    connect_to_wifi, disconnect_wifi, forget_network, get_active_interface, get_interface_stats, get_network_config,
    get_network_info, import_vpn, interface_stats_in, list_vpns, path_extension, ping_time_text, signed_decimal_string,
    toggle_vpn, trigger_rescan, update_network_config,
};
use auralink::process::{Invocation, ProcessOutput, Runner};

struct Fake {
    table: Vec<(String, String, bool)>,
    log: RefCell<Vec<String>>,
}

impl Fake {
    fn new(rows: &[(&str, &str, bool)]) -> Fake {
        Fake {
            table: rows.iter().map(|(k, out, ok)| (k.to_string(), out.to_string(), *ok)).collect(),
            log: RefCell::new(Vec::new()),
        }
    }

    fn run(&self, inv: Invocation) -> Option<ProcessOutput> {
        let mut key = inv.program.clone();
        for a in &inv.args {
            key.push(' ');
            key.push_str(a);
        }
        self.log.borrow_mut().push(key.clone());
        self.table
            .iter()
            .find(|r| r.0 == key)
            .map(|r| ProcessOutput { stdout: r.1.clone(), stderr: String::new(), success: r.2 })
    }

    fn calls(&self) -> Vec<String> {
        self.log.borrow().clone()
    }
}

fn chars(s: &str) -> Vec<char> {
    s.chars().collect()
}

fn net(ssid: &str, signal: u8, connected: bool, saved: bool) -> Network {
    Network {
        ssid: ssid.to_string(),
        bssid: String::new(),
        signal,
        security: String::new(),
        connected,
        ping: None,
        saved,
    }
}

const SCAN: &str = "Home:AA\\:BB\\:CC\\:DD\\:EE\\:01:70:WPA2: \nCafe:AA\\:BB\\:CC\\:DD\\:EE\\:02:90:--: \n:AA\\:BB\\:CC\\:DD\\:EE\\:03:99:WPA2: \nHome:AA\\:BB\\:CC\\:DD\\:EE\\:04:95:WPA2: \nOffice\\:5G:AA\\:BB\\:CC\\:DD\\:EE\\:05:40:WPA3:*\nLab:AA\\:BB\\:CC\\:DD\\:EE\\:06:strong:WPA2: \nshort:line\n";

#[test]
fn colon_fields() {
    assert_eq!(colon_fields_of(&chars("a:b::c")), vec![chars("a"), chars("b"), chars(""), chars("c")]);
    assert_eq!(colon_fields_of(&chars("")), vec![chars("")]);
}

#[test]
fn saved_and_active_networks() {
    let f = Fake::new(&[
        ("nmcli -t -f NAME,TYPE connection show", "Home:802-11-wireless\nWired:802-3-ethernet\nwg0:wireguard\nCafe:802-11-wireless\n", true),
        ("nmcli -t -f ACTIVE,SSID dev wifi", "no:Cafe\nyes:My\\:Net\nyes:Other\n", true),
    ]);
    assert_eq!(get_saved_ssids(&mut Runner::new(|i| f.run(i))), vec![chars("Home"), chars("Cafe")]);
    assert_eq!(get_active_ssid(&mut Runner::new(|i| f.run(i))), Some(chars("My:Net")));
    let none = Fake::new(&[]);
    assert!(get_saved_ssids(&mut Runner::new(|i| none.run(i))).is_empty());
    assert_eq!(get_active_ssid(&mut Runner::new(|i| none.run(i))), None);
}

#[test]
fn networks_are_read_deduplicated_and_sorted() {
    let f = Fake::new(&[
        ("nmcli -t -f NAME,TYPE connection show", "Cafe:802-11-wireless\n", true),
        ("nmcli -t -f ACTIVE,SSID dev wifi", "yes:Lab\n", true),
        ("nmcli -t -f SSID,BSSID,SIGNAL,SECURITY,IN-USE dev wifi list", SCAN, true),
    ]);
    let nets = list_networks(&mut Runner::new(|i| f.run(i))).unwrap();
    let ids: Vec<&str> = nets.iter().map(|n| n.ssid.as_str()).collect();
    assert_eq!(ids, vec!["Office:5G", "Lab", "Cafe", "Home"]);
    assert_eq!(nets[0].bssid, "AA:BB:CC:DD:EE:05");
    assert!(nets[0].connected);
    assert!(nets[1].connected);
    assert_eq!(nets[1].signal, 0);
    assert!(nets[2].saved);
    assert_eq!(nets[2].signal, 90);
    assert_eq!(nets[3].signal, 70);
    assert_eq!(nets[3].security, "WPA2");
    assert!(!nets[3].saved && !nets[3].connected);
    assert!(nets.iter().all(|n| n.ping.is_none()));
}

#[test]
fn no_scan_without_nmcli() {
    let f = Fake::new(&[]);
    assert!(list_networks(&mut Runner::new(|i| f.run(i))).is_none());
}

#[test]
fn network_sort_order() {
    let r = sort_networks(vec![
        net("weak", 10, false, false),
        net("strong", 80, false, false),
        net("saved", 5, false, true),
        net("tie-a", 50, false, false),
        net("now", 1, true, false),
        net("tie-b", 50, false, false),
    ]);
    let ids: Vec<&str> = r.iter().map(|n| n.ssid.as_str()).collect();
    assert_eq!(ids, vec!["now", "saved", "strong", "tie-a", "tie-b", "weak"]);
}

#[test]
fn vpns_from_all_sources() {
    let f = Fake::new(&[
        ("nmcli -t -f NAME,TYPE,STATE c show", "Home:802-11-wireless:activated\nwg0:wireguard:activated\nwork:vpn:\novpn:openvpn:deactivating\nshort:vpn\n", true),
        ("systemctl is-active warp-svc", " active \n", true),
        ("warp-cli status", "Status update: Connected\n", true),
        ("ip link show hiddify-tun", "", false),
        ("pgrep -x hiddify", "1234\n", true),
    ]);
    let v = list_vpns(&mut Runner::new(|i| f.run(i)));
    let got: Vec<(&str, &str, bool)> = v.iter().map(|x| (x.name.as_str(), x.vpn_type.as_str(), x.active)).collect();
    assert_eq!(
        got,
        vec![
            ("wg0", "wireguard", true),
            ("work", "vpn", false),
            ("ovpn", "openvpn", false),
            ("Cloudflare WARP", "warp", true),
            ("Hiddify", "hiddify", true),
        ]
    );
}

#[test]
fn vpns_without_warp_or_hiddify() {
    let f = Fake::new(&[
        ("systemctl is-active warp-svc", "inactive\n", true),
        ("ip link show hiddify-tun", "", false),
        ("pgrep -x hiddify", "", false),
    ]);
    assert!(list_vpns(&mut Runner::new(|i| f.run(i))).is_empty());
    assert!(!f.calls().iter().any(|c| c.starts_with("warp-cli")));
    let g = Fake::new(&[
        ("systemctl is-active warp-svc", "active", true),
        ("warp-cli status", "Status update: Disconnected\n", true),
        ("ip link show hiddify-tun", "3: hiddify-tun: <UP>", true),
    ]);
    let v = list_vpns(&mut Runner::new(|i| g.run(i)));
    assert_eq!(v.len(), 2);
    assert_eq!(v[0].name, "Cloudflare WARP");
    assert!(!v[0].active);
    assert_eq!(v[1].name, "Hiddify");
    assert!(!g.calls().iter().any(|c| c.starts_with("pgrep")));
}

#[test]
fn toggling_vpns() {
    let f = Fake::new(&[
        ("warp-cli connect", "", true),
        ("warp-cli disconnect", "", false),
        ("nmcli c up wg0", "", true),
        ("nmcli c down wg0", "", true),
    ]);
    let mut run = Runner::new(|i| f.run(i));
    assert!(toggle_vpn("Cloudflare WARP", "warp", true, &mut run));
    assert!(!toggle_vpn("Cloudflare WARP", "warp", false, &mut run));
    assert!(!toggle_vpn("Hiddify", "hiddify", true, &mut run));
    assert!(toggle_vpn("wg0", "wireguard", true, &mut run));
    assert!(toggle_vpn("wg0", "wireguard", false, &mut run));
    assert!(!toggle_vpn("other", "vpn", true, &mut run));
    assert_eq!(f.calls().len(), 5);
}

#[test]
fn extensions() {
    assert_eq!(path_extension("/home/me/wg0.conf"), Some(chars("conf")));
    assert_eq!(path_extension("vpn.tar.ovpn"), Some(chars("ovpn")));
    assert_eq!(path_extension("/etc/.hidden"), None);
    assert_eq!(path_extension("noext"), None);
    assert_eq!(path_extension("dir.d/"), Some(chars("d")));
    assert_eq!(path_extension("a/b.conf/."), Some(chars("conf")));
    assert_eq!(path_extension("a/.."), None);
    assert_eq!(path_extension("trailing."), Some(chars("")));
    assert_eq!(path_extension("/"), None);
}

#[test]
fn importing_vpns() {
    let f = Fake::new(&[
        ("nmcli connection import type wireguard file /tmp/wg0.conf", "", true),
        ("nmcli connection import type openvpn file /tmp/x.ovpn", "", false),
    ]);
    assert!(import_vpn("/tmp/wg0.conf", &mut Runner::new(|i| f.run(i))));
    assert!(!import_vpn("/tmp/x.ovpn", &mut Runner::new(|i| f.run(i))));
    assert!(!import_vpn("/tmp/x.txt", &mut Runner::new(|i| f.run(i))));
    assert_eq!(f.calls().len(), 2);
}

#[test]
fn forgetting_a_network() {
    let f = Fake::new(&[("nmcli connection delete id Home", "", true)]);
    assert!(forget_network("Home", &mut Runner::new(|i| f.run(i))));
    assert_eq!(
        f.calls(),
        vec!["nmcli connection down id Home".to_string(), "nmcli connection delete id Home".to_string()]
    );
}

#[test]
fn network_details() {
    let f = Fake::new(&[("nmcli -t -f GENERAL,IP4,IP6,PROXY connection show Home", "GENERAL.NAME:Home\n", true)]);
    assert_eq!(get_network_info("Home", &mut Runner::new(|i| f.run(i))), "GENERAL.NAME:Home\n");
    assert_eq!(get_network_info("Cafe", &mut Runner::new(|i| f.run(i))), "SSID: Cafe\nNo detailed connection info available.");
}

#[test]
fn network_settings_are_read() {
    let key = "nmcli -t -f connection.autoconnect,connection.autoconnect-priority,ipv4.dns,ipv4.method connection show Home";
    let f = Fake::new(&[(
        key,
        "connection.autoconnect:no\nconnection.autoconnect-priority:-5\nipv4.dns:1.1.1.1,8.8.8.8\nipv4.method:manual\nbogus\nother:x\n",
        true,
    )]);
    let c = get_network_config("Home", &mut Runner::new(|i| f.run(i))).unwrap();
    assert!(!c.autoconnect);
    assert_eq!(c.priority, -5);
    assert_eq!(c.dns, "1.1.1.1,8.8.8.8");
    assert_eq!(c.ip4_method, "manual");
    let g = Fake::new(&[(key, "connection.autoconnect-priority:high\n", true)]);
    let c = get_network_config("Home", &mut Runner::new(|i| g.run(i))).unwrap();
    assert!(c.autoconnect);
    assert_eq!(c.priority, 0);
    assert_eq!(c.dns, "");
    assert_eq!(c.ip4_method, "auto");
    let h = Fake::new(&[(key, "", false)]);
    assert!(get_network_config("Home", &mut Runner::new(|i| h.run(i))).is_none());
}

#[test]
fn network_settings_are_written() {
    let f = Fake::new(&[]);
    let c = NetworkConfig { autoconnect: false, priority: -3, dns: String::new(), ip4_method: "auto".to_string() };
    assert!(!update_network_config("Home", c, &mut Runner::new(|i| f.run(i))));
    let c = NetworkConfig { autoconnect: true, priority: 12, dns: "9.9.9.9".to_string(), ip4_method: "manual".to_string() };
    assert!(!update_network_config("Home", c, &mut Runner::new(|i| f.run(i))));
    assert_eq!(
        f.calls(),
        vec![
            "nmcli connection modify Home connection.autoconnect no connection.autoconnect-priority -3 ipv4.method auto".to_string(),
            "nmcli connection modify Home connection.autoconnect yes connection.autoconnect-priority 12 ipv4.method manual ipv4.dns 9.9.9.9".to_string(),
        ]
    );
}

#[test]
fn signed_numbers() {
    assert_eq!(signed_decimal_string(0), "0");
    assert_eq!(signed_decimal_string(-7), "-7");
    assert_eq!(signed_decimal_string(1234), "1234");
    assert_eq!(signed_decimal_string(i32::MIN), "-2147483648");
    assert_eq!(signed_decimal_string(i32::MAX), "2147483647");
}

#[test]
fn ping_times() {
    let f = Fake::new(&[
        ("ping -c 1 -W 1 1.1.1.1", "64 bytes from 1.1.1.1: icmp_seq=1 ttl=58 time=12.4 ms\n", true),
        ("ping -c 1 -W 1 host", "no reply time=5 ms", false),
        ("ping -c 1 -W 1 odd", "time=", true),
    ]);
    assert_eq!(ping_time_text("1.1.1.1", &mut Runner::new(|i| f.run(i))).as_deref(), Some("12.4"));
    assert_eq!(ping_time_text("host", &mut Runner::new(|i| f.run(i))), None);
    assert_eq!(ping_time_text("odd", &mut Runner::new(|i| f.run(i))), None);
}

#[test]
fn wifi_interface() {
    let f = Fake::new(&[("nmcli -t -f DEVICE,TYPE,STATE dev", "eth0:ethernet:connected\nwlan1:wifi:disconnected\nwlan0:wifi:connected\n", true)]);
    assert_eq!(get_active_interface(&mut Runner::new(|i| f.run(i))).as_deref(), Some("wlan0"));
    assert!(disconnect_wifi(&mut Runner::new(|i| f.run(i))));
    assert_eq!(f.calls()[2], "nmcli dev disconnect wlan0");
    let g = Fake::new(&[("nmcli -t -f DEVICE,TYPE,STATE dev", "eth0:ethernet:connected\n", true)]);
    assert_eq!(get_active_interface(&mut Runner::new(|i| g.run(i))), None);
    assert!(!disconnect_wifi(&mut Runner::new(|i| g.run(i))));
    assert_eq!(g.calls().len(), 2);
}

#[test]
fn interface_counters() {
    let dev = "Inter-|   Receive                                                |  Transmit\n face |bytes    packets errs drop fifo frame compressed multicast|bytes    packets errs drop fifo colls carrier compressed\n    lo: 1000 10 0 0 0 0 0 0 1000 10 0 0 0 0 0 0\n  wlan0: 5000 40 0 0 0 0 0 0 7000 35 0 0 0 0 0 0\n";
    assert_eq!(interface_stats_in(dev, "wlan0"), Some((5000, 7000)));
    assert_eq!(interface_stats_in(dev, "eth0"), None);
    assert_eq!(interface_stats_in("wlan0: x y\n", "wlan0"), None);
    assert_eq!(interface_stats_in("wlan0: a 1 2 3 4 5 6 7 b 9\n", "wlan0"), Some((0, 0)));
    let asked: RefCell<Vec<String>> = RefCell::new(Vec::new());
    let r = get_interface_stats("wlan0", |p: &str| {
        asked.borrow_mut().push(p.to_string());
        Some(dev.to_string())
    });
    assert_eq!(r, Some((5000, 7000)));
    assert_eq!(asked.borrow().clone(), vec!["/proc/net/dev".to_string()]);
    assert_eq!(get_interface_stats("wlan0", |_p: &str| None), None);
}

#[test]
fn connecting_to_wifi() {
    let f = Fake::new(&[
        ("nmcli --wait 15 dev wifi connect Cafe password secret", "", true),
        ("nmcli --wait 15 connection up id Home", "", false),
        ("nmcli --wait 15 dev wifi connect Home", "", true),
        ("nmcli --wait 15 connection up id Work", "", true),
    ]);
    let mut run = Runner::new(|i| f.run(i));
    assert!(connect_to_wifi("Cafe", Some("secret"), &mut run));
    assert!(connect_to_wifi("Home", None, &mut run));
    assert!(connect_to_wifi("Work", None, &mut run));
    assert!(!connect_to_wifi("Nowhere", None, &mut run));
    assert_eq!(f.calls().len(), 6);
}

#[test]
fn rescan_is_spawned() {
    let spawned: RefCell<Vec<String>> = RefCell::new(Vec::new());
    let mut run = Runner::new(|_i: Invocation| -> Option<ProcessOutput> { None });
    trigger_rescan(|i: Invocation| spawned.borrow_mut().push(format!("{} {}", i.program, i.args.join(" "))), &mut run);
    assert_eq!(spawned.borrow().clone(), vec!["nmcli dev wifi rescan".to_string()]);
}
