use std::cell::RefCell;

use auralink::bluetooth::{
    battery_label, bluetoothctl, bluetoothctl_ok, connect, connect_trusted_device, connected_address_in,
    disconnect, get_connected_address, is_powered, is_valid_hex_addr, is_valid_mac, pair, remove,
    scan_running, set_power, start_scan, stop_scan, toggle_power, trust, WaitStatus,
};
use auralink::process::{Invocation, ProcessOutput, Runner};

/// A runner that answers from a table keyed by the whole command line and
/// records every command line it was handed.
struct Fake {
    table: Vec<(String, String, String, bool)>,
    log: RefCell<Vec<String>>,
}

impl Fake {
    fn new(rows: &[(&str, &str, bool)]) -> Fake {
        Fake {
            table: rows.iter().map(|(k, out, ok)| (k.to_string(), out.to_string(), String::new(), *ok)).collect(),
            log: RefCell::new(Vec::new()),
        }
    }

    fn with_stderr(mut self, key: &str, err: &str) -> Fake {
        for row in self.table.iter_mut() {
            if row.0 == key {
                row.2 = err.to_string();
            }
        }
        self
    }

    fn run(&self, inv: Invocation) -> Option<ProcessOutput> {
        let mut key = inv.program.clone();
        for a in &inv.args {
            key.push(' ');
            key.push_str(a);
        }
        self.log.borrow_mut().push(key.clone());
        self.table.iter().find(|r| r.0 == key).map(|r| ProcessOutput {
            stdout: r.1.clone(),
            stderr: r.2.clone(),
            success: r.3,
        })
    }

    fn calls(&self) -> Vec<String> {
        self.log.borrow().clone()
    }
}

const MAC: &str = "AA:BB:CC:DD:EE:FF";

#[test]
fn reply_verdicts() {
    assert!(bluetoothctl_ok(Some("Attempting to connect\nConnection successful\n".to_string()), "Connection successful"));
    assert!(!bluetoothctl_ok(Some("Failed to connect: org.bluez.Error.Failed\n".to_string()), "Connection successful"));
    assert!(!bluetoothctl_ok(Some("Connection successful\nbut FAILED later".to_string()), "Connection successful"));
    assert!(!bluetoothctl_ok(Some("Device AA not Available".to_string()), "Device"));
    assert!(!bluetoothctl_ok(Some("ORG.BLUEZ.ERROR.InProgress Connection successful".to_string()), "Connection successful"));
    assert!(!bluetoothctl_ok(Some("Attempting to connect\n".to_string()), "Connection successful"));
    assert!(!bluetoothctl_ok(None, "Connection successful"));
    // the marker is matched with its letter case
    assert!(!bluetoothctl_ok(Some("connection successful".to_string()), "Connection successful"));
}

#[test]
fn mac_addresses() {
    assert!(is_valid_mac("AA:BB:CC:DD:EE:FF"));
    assert!(is_valid_mac("0a:1b:2c:3d:4e:5f"));
    assert!(!is_valid_mac("AA:BB:CC:DD:EE"));
    assert!(!is_valid_mac("AA:BB:CC:DD:EE:FF:00"));
    assert!(!is_valid_mac("AA:BB:CC:DD:EE:FG"));
    assert!(!is_valid_mac("AAA:BB:CC:DD:EE:F"));
    assert!(!is_valid_mac(""));
    assert!(!is_valid_mac("AA_BB_CC_DD_EE_FF"));
    assert!(is_valid_hex_addr("AA_BB_CC_DD_EE_FF"));
    assert!(is_valid_hex_addr("AA:BB_CC:DD_EE:FF"));
    assert!(!is_valid_hex_addr("AA_BB_CC_DD_EE"));
}

#[test]
fn bluetoothctl_joins_stdout_and_stderr() {
    let f = Fake::new(&[("bluetoothctl --timeout 7 info x", "out\n", true)]).with_stderr("bluetoothctl --timeout 7 info x", "err\n");
    let r = bluetoothctl(&mut Runner::new(|i| f.run(i)), 7, "info", "x");
    assert_eq!(r.as_deref(), Some("out\nerr\n"));
    assert_eq!(f.calls(), vec!["bluetoothctl --timeout 7 info x".to_string()]);
    let g = Fake::new(&[]);
    assert_eq!(bluetoothctl(&mut Runner::new(|i| g.run(i)), 7, "info", "x"), None);
}

#[test]
fn device_operations() {
    let f = Fake::new(&[
        ("bluetoothctl --timeout 20 connect AA:BB:CC:DD:EE:FF", "Attempting to connect\nConnection successful\n", true),
        ("bluetoothctl --timeout 10 disconnect AA:BB:CC:DD:EE:FF", "Successful disconnected\n", true),
        ("bluetoothctl --timeout 30 pair AA:BB:CC:DD:EE:FF", "Failed to pair: org.bluez.Error.AuthenticationFailed\n", true),
        ("bluetoothctl --timeout 10 trust AA:BB:CC:DD:EE:FF", "Changing AA:BB:CC:DD:EE:FF trust succeeded\n", true),
        ("bluetoothctl --timeout 10 untrust AA:BB:CC:DD:EE:FF", "Changing AA:BB:CC:DD:EE:FF untrust succeeded\n", true),
        ("bluetoothctl --timeout 10 remove AA:BB:CC:DD:EE:FF", "Device has been removed\n", true),
        ("bluetoothctl --timeout 10 power on", "Changing power on succeeded\n", true),
        ("bluetoothctl --timeout 10 power off", "No default controller available\n", true),
    ]);
    let mut run = Runner::new(|i| f.run(i));
    assert!(connect(MAC, &mut run));
    assert!(disconnect(MAC, &mut run));
    assert!(!pair(MAC, &mut run));
    assert!(trust(MAC, true, &mut run));
    assert!(trust(MAC, false, &mut run));
    assert!(remove(MAC, &mut run));
    assert!(set_power(true, &mut run));
    assert!(!set_power(false, &mut run));
    assert!(toggle_power(true, &mut run));
    assert!(!toggle_power(false, &mut run));
    // each operation runs exactly its own command, once
    assert_eq!(f.calls().len(), 10);
    assert_eq!(f.calls()[0], "bluetoothctl --timeout 20 connect AA:BB:CC:DD:EE:FF");
}

#[test]
fn power_state() {
    let on = Fake::new(&[("bluetoothctl show", "Controller 00:11:22:33:44:55\n\tPowered: yes\n", true)]);
    assert!(is_powered(&mut Runner::new(|i| on.run(i))));
    let off = Fake::new(&[("bluetoothctl show", "Controller 00:11:22:33:44:55\n\tPowered: no\n", true)]);
    assert!(!is_powered(&mut Runner::new(|i| off.run(i))));
    let none = Fake::new(&[]);
    assert!(!is_powered(&mut Runner::new(|i| none.run(i))));
}

#[test]
fn connected_address_listing() {
    let listing = "Garbage line\nDevice 12:34 Broken\nDevice AA:BB:CC:DD:EE:FF My Buds\nDevice 11:22:33:44:55:66 Mouse\n";
    assert_eq!(connected_address_in(listing).as_deref(), Some("AA:BB:CC:DD:EE:FF"));
    assert_eq!(connected_address_in("Device AA:BB:CC:DD:EE:FF\n"), None);
    assert_eq!(connected_address_in(""), None);
    let f = Fake::new(&[("bluetoothctl devices Connected", listing, true)]);
    assert_eq!(get_connected_address(&mut Runner::new(|i| f.run(i))).as_deref(), Some("AA:BB:CC:DD:EE:FF"));
}

#[test]
fn trusted_device_already_connected() {
    let f = Fake::new(&[("bluetoothctl devices Connected", "Device AA:BB:CC:DD:EE:FF Buds\n", true)]);
    assert!(connect_trusted_device(MAC, &mut Runner::new(|i| f.run(i))));
    assert_eq!(f.calls(), vec!["bluetoothctl devices Connected".to_string()]);
}

#[test]
fn trusted_device_is_trusted_then_connected() {
    let f = Fake::new(&[
        ("bluetoothctl devices Connected", "", true),
        ("bluetoothctl --timeout 5 trust AA:BB:CC:DD:EE:FF", "trust succeeded\n", true),
        ("bluetoothctl --timeout 15 connect AA:BB:CC:DD:EE:FF", "Connection successful\n", true),
    ]);
    assert!(connect_trusted_device(MAC, &mut Runner::new(|i| f.run(i))));
    assert_eq!(
        f.calls(),
        vec![
            "bluetoothctl devices Connected".to_string(),
            "bluetoothctl --timeout 5 trust AA:BB:CC:DD:EE:FF".to_string(),
            "bluetoothctl --timeout 15 connect AA:BB:CC:DD:EE:FF".to_string(),
        ]
    );
    let g = Fake::new(&[("bluetoothctl --timeout 15 connect AA:BB:CC:DD:EE:FF", "Failed to connect\n", true)]);
    assert!(!connect_trusted_device(MAC, &mut Runner::new(|i| g.run(i))));
}

#[test]
fn scan_session_lifecycle() {
    let f = Fake::new(&[
        ("bluetoothctl --timeout 5 scan off", "", true),
        ("bluetoothctl --timeout 5 power on", "", true),
    ]);
    let mut run = Runner::new(|i| f.run(i));
    let mut slot: Option<u32> = None;
    assert!(!scan_running(&mut slot, |c| (c, WaitStatus::Running)));
    let spawned: RefCell<Vec<String>> = RefCell::new(Vec::new());
    let started = start_scan(
        &mut slot,
        |_c: u32| {},
        |i: Invocation| {
            spawned.borrow_mut().push(format!("{} {}", i.program, i.args.join(" ")));
            Some(7u32)
        },
        &mut run,
    );
    assert!(started);
    assert_eq!(slot, Some(7));
    assert_eq!(spawned.borrow().clone(), vec!["bluetoothctl --timeout 60 scan on".to_string()]);
    assert!(scan_running(&mut slot, |c| (c, WaitStatus::Running)));
    assert_eq!(slot, Some(7));
    assert!(!scan_running(&mut slot, |c| (c, WaitStatus::Exited)));
    assert_eq!(slot, None);
    slot = Some(9);
    let reaped: RefCell<Vec<u32>> = RefCell::new(Vec::new());
    assert!(stop_scan(&mut slot, |c| reaped.borrow_mut().push(c), &mut run));
    assert_eq!(slot, None);
    assert_eq!(reaped.borrow().clone(), vec![9]);
    slot = Some(3);
    assert!(!scan_running(&mut slot, |c| (c, WaitStatus::Failed)));
    assert_eq!(slot, None);
    let failed = start_scan(&mut slot, |_c: u32| {}, |_i: Invocation| None, &mut run);
    assert!(!failed);
    assert_eq!(slot, None);
    let nothing = Fake::new(&[]);
    assert!(!stop_scan(&mut slot, |_c: u32| {}, &mut Runner::new(|i| nothing.run(i))));
}

#[test]
fn battery_labels() {
    let id = "dev_AA_BB_CC_DD_EE_FF";
    assert_eq!(battery_label("/org/bluez/hci0/dev_AA_BB_CC_DD_EE_FF", id), "");
    assert_eq!(battery_label("/org/bluez/hci0/dev_AA_BB_CC_DD_EE_FF/", id), "");
    assert_eq!(battery_label("/org/bluez/hci0/dev_AA_BB_CC_DD_EE_FF/battery_LEFT", id), "Left");
    assert_eq!(battery_label("/org/bluez/hci0/dev_AA_BB_CC_DD_EE_FF/RightBud", id), "Right");
    assert_eq!(battery_label("/org/bluez/hci0/dev_AA_BB_CC_DD_EE_FF/charging_case", id), "Case");
    assert_eq!(battery_label("/org/bluez/hci0/dev_AA_BB_CC_DD_EE_FF/bat0", id), "Bat0");
    assert_eq!(battery_label("/org/bluez/hci0/dev_AA_BB_CC_DD_EE_FF/battery0", id), "Battery0");
    assert_eq!(battery_label("/org/bluez/hci0/dev_AA_BB_CC_DD_EE_FF/ßx", id), "SSx");
    assert_eq!(battery_label("plain", id), "Plain");
}
