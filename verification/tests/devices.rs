use std::cell::RefCell;

use auralink::bluetooth::{Battery, BluetoothDevice};
use auralink::bt_devices::{get_batteries, get_device_info, list_connected_devices, list_devices, tree_paths_in};
use auralink::bt_info::{
    device_entries_in, info_is_readable, listed_device, parse_device_info, reconcile_batteries, sort_devices,
    DeviceEntry,
};
use auralink::process::{Invocation, ProcessOutput, Runner};

struct Fake {
    table: Vec<(String, String, bool)>,
    log: RefCell<Vec<String>>,
}

impl Fake {
    fn new(rows: &[(&str, &str, bool)]) -> Fake {
        Fake {
            table: rows.iter().map(|(k, out, ok)| (k.to_string(), out.to_string(), *ok)).collect(),
            log: RefCell::new(Vec::new()),
        }
    }

    fn run(&self, inv: Invocation) -> Option<ProcessOutput> {
        let mut key = inv.program.clone();
        for a in &inv.args {
            key.push(' ');
            key.push_str(a);
        }
        self.log.borrow_mut().push(key.clone());
        self.table
            .iter()
            .find(|r| r.0 == key)
            .map(|r| ProcessOutput { stdout: r.1.clone(), stderr: String::new(), success: r.2 })
    }

    fn calls(&self) -> Vec<String> {
        self.log.borrow().clone()
    }
}

const INFO_BUDS: &str = "Device AA:BB:CC:DD:EE:FF (public)\n\tName: My  Buds \n\tAlias: My Buds\n\tPaired: yes\n\tTrusted: yes\n\tConnected: no\n\tRSSI: -60\n\tBattery Percentage: 0x50 (80)\n";

fn plain(name: &str, connected: bool, paired: bool) -> BluetoothDevice {
    BluetoothDevice {
        name: name.to_string(),
        address: format!("addr-{}", name),
        connected,
        paired,
        trusted: false,
        rssi: 0,
        battery: None,
        batteries: Vec::new(),
        audio_profiles: Vec::new(),
    }
}

#[test]
fn info_text_is_read() {
    let d = parse_device_info("AA:BB:CC:DD:EE:FF", INFO_BUDS);
    assert_eq!(d.name, "My  Buds");
    assert_eq!(d.address, "AA:BB:CC:DD:EE:FF");
    assert!(d.paired);
    assert!(d.trusted);
    assert!(!d.connected);
    assert_eq!(d.rssi, -60);
    assert_eq!(d.battery, Some(80));
    assert!(d.batteries.is_empty());
    assert!(d.audio_profiles.is_empty());
}

#[test]
fn info_battery_forms() {
    let d = parse_device_info("x", "Battery Percentage: 75%\n");
    assert_eq!(d.battery, Some(75));
    let d = parse_device_info("x", "Battery Percentage: (60)\nBattery Percentage: (oops)\n");
    assert_eq!(d.battery, None);
    let d = parse_device_info("x", "RSSI: strong\nConnected: yes please\nPaired:yes\n");
    assert_eq!(d.rssi, 0);
    assert!(!d.connected);
    assert!(d.paired);
    assert_eq!(d.name, "");
}

#[test]
fn info_readability() {
    assert!(info_is_readable(INFO_BUDS));
    assert!(info_is_readable("Battery Percentage: 0x5 (5\n"));
    assert!(!info_is_readable("Name: a\n\tBattery Percentage: ) (\n"));
    assert!(!info_is_readable("Battery Percentage: ()x\nBattery Percentage: x)(\n"));
    assert!(info_is_readable("Name: Battery Percentage: ) (\n"));
}

#[test]
fn batteries_are_reconciled() {
    let mut d = plain("a", true, true);
    d.battery = Some(55);
    reconcile_batteries(&mut d);
    assert_eq!(d.batteries.len(), 1);
    assert_eq!(d.batteries[0].label, "");
    assert_eq!(d.batteries[0].percentage, 55);

    let mut d = plain("b", true, true);
    d.batteries = vec![
        Battery { label: "Left".to_string(), percentage: 70 },
        Battery { label: "Right".to_string(), percentage: 60 },
        Battery { label: "Case".to_string(), percentage: 90 },
    ];
    reconcile_batteries(&mut d);
    assert_eq!(d.battery, Some(60));
    assert_eq!(d.batteries.len(), 3);

    let mut d = plain("c", true, true);
    d.battery = Some(10);
    d.batteries = vec![Battery { label: "Left".to_string(), percentage: 70 }];
    reconcile_batteries(&mut d);
    assert_eq!(d.battery, Some(10));
    assert_eq!(d.batteries.len(), 1);

    let mut d = plain("d", false, false);
    reconcile_batteries(&mut d);
    assert_eq!(d.battery, None);
    assert!(d.batteries.is_empty());
}

#[test]
fn device_listing_entries() {
    let es = device_entries_in("Device AA:BB:CC:DD:EE:FF My  Big   Buds\nController 1 2 3\nDevice 11:22\nDevice 11:22 Mouse\n");
    assert_eq!(es.len(), 2);
    assert_eq!(es[0].address, "AA:BB:CC:DD:EE:FF");
    assert_eq!(es[0].name, "My Big Buds");
    assert_eq!(es[1].address, "11:22");
    assert_eq!(es[1].name, "Mouse");
}

#[test]
fn listed_device_names() {
    let e = DeviceEntry { address: "A".to_string(), name: "Listed".to_string() };
    let d = listed_device(e, None);
    assert_eq!(d.name, "Listed");
    assert_eq!(d.address, "A");
    assert!(!d.connected && !d.paired && !d.trusted);
    let e = DeviceEntry { address: "A".to_string(), name: "Listed".to_string() };
    let d = listed_device(e, Some(plain("", true, false)));
    assert_eq!(d.name, "Listed");
    assert!(d.connected);
    let e = DeviceEntry { address: "A".to_string(), name: "Listed".to_string() };
    let d = listed_device(e, Some(plain("Own", false, true)));
    assert_eq!(d.name, "Own");
}

#[test]
fn devices_sort_connected_paired_then_name() {
    let v = vec![
        plain("zeta", false, false),
        plain("Beta", false, true),
        plain("alpha", false, false),
        plain("Mouse", true, false),
        plain("Alpha", false, true),
        plain("Keys", true, true),
    ];
    let r = sort_devices(v);
    let names: Vec<&str> = r.iter().map(|d| d.name.as_str()).collect();
    assert_eq!(names, vec!["Keys", "Mouse", "Alpha", "Beta", "alpha", "zeta"]);
}

#[test]
fn device_sort_is_stable() {
    let mut a = plain("same", false, true);
    a.address = "first".to_string();
    let mut b = plain("same", false, true);
    b.address = "second".to_string();
    let r = sort_devices(vec![plain("x", false, false), a, b]);
    assert_eq!(r[0].address, "first");
    assert_eq!(r[1].address, "second");
    assert_eq!(r[2].name, "x");
}

#[test]
fn tree_paths_of_a_device() {
    let tree = "└─/org/bluez\n  └─/org/bluez/hci0\n    ├─/org/bluez/hci0/dev_AA_BB_CC_DD_EE_FF\n    │ ├─/org/bluez/hci0/dev_AA_BB_CC_DD_EE_FF/left \n    │ └─/org/bluez/hci0/dev_AA_BB_CC_DD_EE_FF/left\n    └─/org/bluez/hci0/dev_11_22_33_44_55_66\n";
    let p = tree_paths_in(tree, "dev_AA_BB_CC_DD_EE_FF");
    assert_eq!(
        p,
        vec![
            "/org/bluez/hci0/dev_AA_BB_CC_DD_EE_FF".to_string(),
            "/org/bluez/hci0/dev_AA_BB_CC_DD_EE_FF/left".to_string(),
        ]
    );
}

#[test]
fn battery_from_the_device_object() {
    let f = Fake::new(&[(
        "busctl --system get-property org.bluez /org/bluez/hci0/dev_AA_BB_CC_DD_EE_FF org.bluez.Battery1 Percentage",
        "y 73\n",
        true,
    )]);
    let b = get_batteries("AA:BB:CC:DD:EE:FF", &mut Runner::new(|i| f.run(i)));
    assert_eq!(b.len(), 1);
    assert_eq!(b[0].label, "");
    assert_eq!(b[0].percentage, 73);
    assert_eq!(f.calls().len(), 1);
}

#[test]
fn batteries_of_components() {
    let dev = "/org/bluez/hci0/dev_AA_BB_CC_DD_EE_FF";
    let tree = format!("└─{dev}\n  ├─{dev}/battery_left\n  ├─{dev}/battery_right\n  └─{dev}/case_unit\n");
    let k = |p: &str| format!("busctl --system get-property org.bluez {p} org.bluez.Battery1 Percentage");
    let left = format!("{dev}/battery_left");
    let right = format!("{dev}/battery_right");
    let case = format!("{dev}/case_unit");
    let rows = vec![
        (k(dev), "".to_string(), false),
        ("busctl --system tree org.bluez".to_string(), tree, true),
        (k(&left), "y 40".to_string(), true),
        (k(&right), "y 45\n".to_string(), true),
        (k(&case), "s 90".to_string(), true),
    ];
    let f = Fake { table: rows, log: RefCell::new(Vec::new()) };
    let b = get_batteries("AA:BB:CC:DD:EE:FF", &mut Runner::new(|i| f.run(i)));
    assert_eq!(b.len(), 2);
    assert_eq!(b[0].label, "Left");
    assert_eq!(b[0].percentage, 40);
    assert_eq!(b[1].label, "Right");
    assert_eq!(b[1].percentage, 45);
}

#[test]
fn batteries_need_a_valid_address() {
    let f = Fake::new(&[]);
    assert!(get_batteries("not-a-mac", &mut Runner::new(|i| f.run(i))).is_empty());
    assert!(f.calls().is_empty());
    assert!(get_batteries("AA:BB:CC:DD:EE:FF", &mut Runner::new(|i| f.run(i))).is_empty());
}

#[test]
fn device_info_of_a_disconnected_device() {
    let f = Fake::new(&[("bluetoothctl info AA:BB:CC:DD:EE:FF", INFO_BUDS, true)]);
    let d = get_device_info("AA:BB:CC:DD:EE:FF", &mut Runner::new(|i| f.run(i))).unwrap();
    assert_eq!(d.name, "My  Buds");
    assert_eq!(d.battery, Some(80));
    assert_eq!(d.batteries.len(), 1);
    assert_eq!(d.batteries[0].percentage, 80);
    assert_eq!(f.calls(), vec!["bluetoothctl info AA:BB:CC:DD:EE:FF".to_string()]);
    let g = Fake::new(&[("bluetoothctl info AA:BB:CC:DD:EE:FF", INFO_BUDS, false)]);
    assert!(get_device_info("AA:BB:CC:DD:EE:FF", &mut Runner::new(|i| g.run(i))).is_none());
}

#[test]
fn device_info_of_a_connected_device() {
    let info = "Name: Buds\nConnected: yes\nPaired: yes\n";
    let cards = "Card #1\n\tName: bluez_card.AA_BB_CC_DD_EE_FF\n\tProfiles:\n\t\ta2dp-sink: High Fidelity Playback (A2DP Sink) (sinks: 1, sources: 0, priority: 16, available: yes)\n\t\toff: Off\n\tActive Profile: a2dp-sink\n\tPorts:\n";
    let f = Fake::new(&[
        ("bluetoothctl info AA:BB:CC:DD:EE:FF", info, true),
        ("pactl list cards", cards, true),
        (
            "busctl --system get-property org.bluez /org/bluez/hci0/dev_AA_BB_CC_DD_EE_FF org.bluez.Battery1 Percentage",
            "y 64",
            true,
        ),
    ]);
    let d = get_device_info("AA:BB:CC:DD:EE:FF", &mut Runner::new(|i| f.run(i))).unwrap();
    assert!(d.connected);
    assert_eq!(d.battery, Some(64));
    assert_eq!(d.batteries.len(), 1);
    assert_eq!(d.audio_profiles.len(), 2);
    assert_eq!(d.audio_profiles[0].name, "a2dp-sink");
    assert_eq!(d.audio_profiles[0].description, "High Fidelity Playback (A2DP Sink)");
    assert!(d.audio_profiles[0].available);
    // the Active Profile line after the list marks the profile it names
    assert!(d.audio_profiles[0].active);
    assert!(!d.audio_profiles[1].active);
    assert_eq!(d.audio_profiles[1].name, "off");
    assert!(d.audio_profiles[1].available);
}

#[test]
fn all_devices_are_listed_in_order() {
    let f = Fake::new(&[
        ("bluetoothctl devices", "Device 11:11:11:11:11:11 Keyboard\nDevice AA:BB:CC:DD:EE:FF Buds\nDevice 22:22:22:22:22:22 Speaker Box\n", true),
        ("bluetoothctl info AA:BB:CC:DD:EE:FF", "Name: \nPaired: yes\n", true),
        ("bluetoothctl info 11:11:11:11:11:11", "Name: Keyboard\n", false),
    ]);
    let r = list_devices(&mut Runner::new(|i| f.run(i)));
    let names: Vec<&str> = r.iter().map(|d| d.name.as_str()).collect();
    assert_eq!(names, vec!["Buds", "Keyboard", "Speaker Box"]);
    assert!(r[0].paired);
    let none = Fake::new(&[]);
    assert!(list_devices(&mut Runner::new(|i| none.run(i))).is_empty());
}

#[test]
fn connected_devices_are_listed() {
    let f = Fake::new(&[
        ("bluetoothctl devices Connected", "Device AA:BB:CC:DD:EE:FF Buds\nDevice 11:11:11:11:11:11 Gone\n", true),
        ("bluetoothctl info AA:BB:CC:DD:EE:FF", "Name: Buds\nBattery Percentage: 50%\n", true),
    ]);
    let r = list_connected_devices(&mut Runner::new(|i| f.run(i)));
    assert_eq!(r.len(), 1);
    assert_eq!(r[0].name, "Buds");
    assert_eq!(r[0].battery, Some(50));
}
