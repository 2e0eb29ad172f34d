use auralink::bluetooth::BluetoothDevice;
use auralink::cli::{active_vpns, bar_status, first_connected, handle_commands, net_command, BtAction, NetAction};
use auralink::nm::{Network, VpnConnection};

fn args(words: &[&str]) -> Vec<String> {
    words.iter().map(|w| w.to_string()).collect()
}

fn device(name: &str, battery: Option<i32>) -> BluetoothDevice {
    BluetoothDevice {
        name: name.to_string(),
        address: "AA:BB:CC:DD:EE:FF".to_string(),
        connected: true,
        paired: true,
        trusted: true,
        rssi: 0,
        battery,
        batteries: Vec::new(),
        audio_profiles: Vec::new(),
    }
}

#[test]
fn test_handle_commands_none() {
    let args = vec!["auralink-bt".to_string()];
    assert!(handle_commands(&args).is_none());
}

#[test]
fn test_handle_commands_help() {
    let args = vec!["auralink-bt".to_string(), "--help".to_string()];
    assert!(handle_commands(&args).is_some());
}

#[test]
fn test_handle_commands_status() {
    let args = vec!["auralink-bt".to_string(), "status".to_string()];
    assert!(handle_commands(&args).is_some());
}

#[test]
fn test_handle_commands_fullstatus() {
    let args = vec!["auralink-bt".to_string(), "fullstatus".to_string()];
    assert!(handle_commands(&args).is_some());
}

#[test]
fn test_handle_commands_unknown() {
    let args = vec!["auralink-bt".to_string(), "unknown".to_string()];
    assert!(handle_commands(&args).is_some());
}

#[test]
fn gui_words_open_the_window() {
    for w in ["popup", "gui", "open"] {
        assert!(handle_commands(&args(&["auralink-bt", w])).is_none());
    }
}

#[test]
fn device_commands_carry_the_address() {
    let c = handle_commands(&args(&["auralink-bt", "connect", "AA:BB:CC:DD:EE:FF"])).unwrap();
    assert_eq!(c.action, BtAction::Connect);
    assert_eq!(c.argument.as_deref(), Some("AA:BB:CC:DD:EE:FF"));
    let c = handle_commands(&args(&["auralink-bt", "unpair", "11:22:33:44:55:66"])).unwrap();
    assert_eq!(c.action, BtAction::Remove);
    assert_eq!(c.argument.as_deref(), Some("11:22:33:44:55:66"));
    let c = handle_commands(&args(&["auralink-bt", "trust"])).unwrap();
    assert_eq!(c.action, BtAction::Trust);
    assert_eq!(c.argument, None);
}

#[test]
fn other_commands_are_recognised() {
    let cases = [
        ("qs", BtAction::Quickshell),
        ("quickshell", BtAction::Quickshell),
        ("waybar-stream", BtAction::WaybarStream),
        ("-d", BtAction::Daemon),
        ("--daemon", BtAction::Daemon),
        ("daemon", BtAction::Daemon),
        ("-h", BtAction::Help),
        ("help", BtAction::Help),
        ("toggle", BtAction::Toggle),
        ("status", BtAction::Status),
        ("fullstatus", BtAction::FullStatus),
        ("disconnect", BtAction::Disconnect),
        ("pair", BtAction::Pair),
        ("remove", BtAction::Remove),
    ];
    for (w, a) in cases {
        let c = handle_commands(&args(&["auralink-bt", w])).unwrap();
        assert_eq!(c.action, a, "{}", w);
    }
    let c = handle_commands(&args(&["auralink-bt", "frobnicate"])).unwrap();
    assert_eq!(c.action, BtAction::Unknown);
    assert_eq!(c.argument.as_deref(), Some("frobnicate"));
}

#[test]
fn network_commands() {
    assert_eq!(net_command(&args(&["auralink"])), None);
    assert_eq!(net_command(&args(&["auralink", "status"])), Some(NetAction::Status));
    assert_eq!(net_command(&args(&["auralink", "fullstatus"])), Some(NetAction::FullStatus));
    assert_eq!(net_command(&args(&["auralink", "-h"])), Some(NetAction::Help));
    assert_eq!(net_command(&args(&["auralink", "help"])), Some(NetAction::Help));
    assert_eq!(net_command(&args(&["auralink", "--help"])), Some(NetAction::Help));
    assert_eq!(net_command(&args(&["auralink", "popup"])), Some(NetAction::Unknown));
}

#[test]
fn bar_status_off() {
    let s = bar_status(false, &vec![device("Buds", Some(80))]);
    assert_eq!(s.text, "\u{f00b2}");
    assert_eq!(s.tooltip, "Bluetooth: Off");
    assert_eq!(s.class, "off");
}

#[test]
fn bar_status_connected_with_battery() {
    let s = bar_status(true, &vec![device("Buds", Some(80)), device("Mouse", None)]);
    assert_eq!(s.text, "\u{f00b1}");
    assert_eq!(s.tooltip, "Bluetooth: Connected to Buds (80%)");
    assert_eq!(s.class, "connected");
}

#[test]
fn bar_status_connected_without_battery() {
    let s = bar_status(true, &vec![device("Mouse", None)]);
    assert_eq!(s.tooltip, "Bluetooth: Connected to Mouse");
    let s = bar_status(true, &vec![device("Odd", Some(-5))]);
    assert_eq!(s.tooltip, "Bluetooth: Connected to Odd (-5%)");
}

#[test]
fn bar_status_disconnected() {
    let s = bar_status(true, &Vec::new());
    assert_eq!(s.text, "\u{f00af}");
    assert_eq!(s.tooltip, "Bluetooth: Disconnected");
    assert_eq!(s.class, "disconnected");
}

fn network(ssid: &str, connected: bool) -> Network {
    Network {
        ssid: ssid.to_string(),
        bssid: String::new(),
        signal: 50,
        security: String::new(),
        connected,
        ping: None,
        saved: false,
    }
}

fn vpn(name: &str, active: bool) -> VpnConnection {
    VpnConnection { name: name.to_string(), vpn_type: "wireguard".to_string(), active }
}

#[test]
fn network_status_parts() {
    assert_eq!(first_connected(&vec![network("a", false), network("b", true), network("c", true)]), Some(1));
    assert_eq!(first_connected(&vec![network("a", false)]), None);
    assert_eq!(first_connected(&Vec::new()), None);
    let v = active_vpns(vec![vpn("x", true), vpn("y", false), vpn("z", true)]);
    let names: Vec<&str> = v.iter().map(|x| x.name.as_str()).collect();
    assert_eq!(names, vec!["x", "z"]);
    assert!(active_vpns(vec![vpn("y", false)]).is_empty());
}
