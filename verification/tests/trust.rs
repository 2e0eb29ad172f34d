use std::cell::RefCell;

use auralink::bt_trust::{adapters_in, dev_candidates_in, list_adapters, list_trusted};
use auralink::process::{Invocation, ProcessOutput, Runner};

struct Fake {
    table: Vec<(String, String, bool)>,
    log: RefCell<Vec<String>>,
}

impl Fake {
    fn new(rows: Vec<(String, String)>) -> Fake {
        Fake { table: rows.into_iter().map(|(k, v)| (k, v, true)).collect(), log: RefCell::new(Vec::new()) }
    }

    fn run(&self, inv: Invocation) -> Option<ProcessOutput> {
        let mut key = inv.program.clone();
        for a in &inv.args {
            key.push(' ');
            key.push_str(a);
        }
        self.log.borrow_mut().push(key.clone());
        self.table
            .iter()
            .find(|r| r.0 == key)
            .map(|r| ProcessOutput { stdout: r.1.clone(), stderr: String::new(), success: r.2 })
    }

    fn calls(&self) -> Vec<String> {
        self.log.borrow().clone()
    }
}

fn introspect(path: &str) -> String {
    format!("dbus-send --system --dest=org.bluez --print-reply {} org.freedesktop.DBus.Introspectable.Introspect", path)
}

fn trusted_query(path: &str) -> String {
    format!(
        "dbus-send --system --dest=org.bluez --print-reply {} org.freedesktop.DBus.Properties.Get string:org.bluez.Device1 string:Trusted",
        path
    )
}

fn chars(s: &str) -> Vec<char> {
    s.chars().collect()
}

#[test]
fn adapter_nodes() {
    let xml = "<node><interface name=\"x\"/><node name=\"hci0\"/><node name=\"hci1\"/><node name=\"other\"/><node name=\"broken";
    assert_eq!(adapters_in(xml), vec![chars("hci0"), chars("hci1")]);
    assert!(adapters_in("<node></node>").is_empty());
}

#[test]
fn device_nodes() {
    let xml = chars("<node name=\"dev_AA_BB_CC_DD_EE_FF\"/><node name=\"dev_12_34\"/><node name=\"dev_11_22_33_44_55_66\"/><node name=\"dev_XX");
    assert_eq!(dev_candidates_in(&xml), vec![chars("AA:BB:CC:DD:EE:FF"), chars("11:22:33:44:55:66")]);
}

#[test]
fn trusted_devices_over_adapters() {
    let root = "<node><node name=\"hci0\"/><node name=\"hci1\"/></node>";
    let hci0 = "<node><node name=\"dev_AA_BB_CC_DD_EE_FF\"/><node name=\"dev_11_22_33_44_55_66\"/></node>";
    let hci1 = "<node><node name=\"dev_AA_BB_CC_DD_EE_FF\"/><node name=\"dev_22_22_22_22_22_22\"/></node>";
    let f = Fake::new(vec![
        (introspect("/org/bluez"), root.to_string()),
        (introspect("/org/bluez/hci0"), hci0.to_string()),
        (introspect("/org/bluez/hci1"), hci1.to_string()),
        (trusted_query("/org/bluez/hci0/dev_AA_BB_CC_DD_EE_FF"), "   variant       boolean true\n".to_string()),
        (trusted_query("/org/bluez/hci0/dev_11_22_33_44_55_66"), "   variant       boolean false\n".to_string()),
        (trusted_query("/org/bluez/hci1/dev_22_22_22_22_22_22"), "   variant       boolean true\n".to_string()),
    ]);
    let r = list_trusted(&mut Runner::new(|i| f.run(i)));
    assert_eq!(r, vec!["AA:BB:CC:DD:EE:FF".to_string(), "22:22:22:22:22:22".to_string()]);
    // a device already found on one adapter is not asked about again
    assert!(!f.calls().contains(&trusted_query("/org/bluez/hci1/dev_AA_BB_CC_DD_EE_FF")));
    assert_eq!(f.calls().len(), 6);
}

#[test]
fn hci0_is_assumed_without_adapters() {
    let f = Fake::new(vec![
        (introspect("/org/bluez/hci0"), "<node name=\"dev_AA_BB_CC_DD_EE_FF\"/>".to_string()),
        (trusted_query("/org/bluez/hci0/dev_AA_BB_CC_DD_EE_FF"), "boolean true".to_string()),
    ]);
    assert_eq!(list_trusted(&mut Runner::new(|i| f.run(i))), vec!["AA:BB:CC:DD:EE:FF".to_string()]);
    assert_eq!(f.calls()[1], introspect("/org/bluez/hci0"));
    let none = Fake::new(vec![]);
    assert!(list_trusted(&mut Runner::new(|i| none.run(i))).is_empty());
}

#[test]
fn the_same_device_twice_is_listed_once() {
    let f = Fake::new(vec![
        (introspect("/org/bluez/hci0"), "<node name=\"dev_AA_BB_CC_DD_EE_FF\"/><node name=\"dev_AA_BB_CC_DD_EE_FF\"/>".to_string()),
        (trusted_query("/org/bluez/hci0/dev_AA_BB_CC_DD_EE_FF"), "boolean true".to_string()),
    ]);
    assert_eq!(list_trusted(&mut Runner::new(|i| f.run(i))), vec!["AA:BB:CC:DD:EE:FF".to_string()]);
    assert_eq!(f.calls().len(), 3);
}

#[test]
fn adapters_through_the_runner() {
    let f = Fake::new(vec![(introspect("/org/bluez"), "<node name=\"hci1\"/><node name=\"hci2\"/>".to_string())]);
    assert_eq!(list_adapters(&mut Runner::new(|i| f.run(i))), vec!["hci1".to_string(), "hci2".to_string()]);
    let g = Fake::new(vec![(introspect("/org/bluez"), "<node/>".to_string())]);
    assert_eq!(list_adapters(&mut Runner::new(|i| g.run(i))), vec!["hci0".to_string()]);
}
