use std::cell::RefCell;

use auralink::bluetooth::WaitStatus;
use auralink::daemon::{
    daemon_round, monitor_round, AttemptLog, CONNECTED_POLL_MS, IDLE_POLL_MS, MONITOR_POLL_MS, RETRY_COOLDOWN_MS, SETTLE_MS,
};
use auralink::process::{Invocation, ProcessOutput, Runner};

/// A small model of the machine: which devices are trusted, which one is
/// connected, and which ones answer a connection attempt.
struct World {
    trusted: Vec<&'static str>,
    reachable: Vec<&'static str>,
    connected: RefCell<Option<String>>,
    log: RefCell<Vec<String>>,
}

fn dev_path(addr: &str) -> String {
    format!("/org/bluez/hci0/dev_{}", addr.replace(':', "_"))
}

impl World {
    fn new(trusted: Vec<&'static str>, reachable: Vec<&'static str>, connected: Option<&str>) -> World {
        World {
            trusted,
            reachable,
            connected: RefCell::new(connected.map(|c| c.to_string())),
            log: RefCell::new(Vec::new()),
        }
    }

    fn out(stdout: String) -> Option<ProcessOutput> {
        Some(ProcessOutput { stdout, stderr: String::new(), success: true })
    }

    fn run(&self, inv: Invocation) -> Option<ProcessOutput> {
        let line = format!("{} {}", inv.program, inv.args.join(" "));
        self.log.borrow_mut().push(line.clone());
        let a: Vec<&str> = inv.args.iter().map(|s| s.as_str()).collect();
        match (inv.program.as_str(), a.as_slice()) {
            ("bluetoothctl", ["devices", "Connected"]) => {
                let c = self.connected.borrow().clone();
                World::out(match c {
                    Some(addr) => format!("Device {} Headset\n", addr),
                    None => String::new(),
                })
            }
            ("bluetoothctl", ["--timeout", "15", "connect", addr]) => {
                if self.reachable.contains(addr) {
                    *self.connected.borrow_mut() = Some(addr.to_string());
                    World::out("Connection successful\n".to_string())
                } else {
                    World::out("Failed to connect: org.bluez.Error.Failed\n".to_string())
                }
            }
            ("bluetoothctl", _) => World::out(String::new()),
            ("dbus-send", [_, _, _, "/org/bluez", _]) => World::out("<node><node name=\"hci0\"/></node>".to_string()),
            ("dbus-send", [_, _, _, "/org/bluez/hci0", _]) => {
                let nodes: String = self
                    .trusted
                    .iter()
                    .map(|t| format!("<node name=\"dev_{}\"/>", t.replace(':', "_")))
                    .collect();
                World::out(format!("<node>{}</node>", nodes))
            }
            ("dbus-send", [_, _, _, path, _, _, _]) => {
                let trusted = self.trusted.iter().any(|t| dev_path(t) == *path);
                World::out(format!("variant boolean {}", trusted))
            }
            ("pactl", ["list", "cards"]) => {
                let c = self.connected.borrow().clone().unwrap_or_default().replace(':', "_");
                World::out(format!(
                    "Card #1\n\tName: bluez_card.{}\n\tProfiles:\n\t\ta2dp-sink: Hi-Fi (priority: 9, available: yes)\n\tActive Profile: headset-head-unit\n",
                    c
                ))
            }
            ("pactl", ["set-card-profile", _, _]) => World::out(String::new()),
            _ => None,
        }
    }

    fn calls(&self) -> Vec<String> {
        self.log.borrow().clone()
    }
}

const A: &str = "AA:AA:AA:AA:AA:AA";
const B: &str = "BB:BB:BB:BB:BB:BB";

#[test]
fn a_connected_device_stops_discovery_and_clears_the_log() {
    let w = World::new(vec![A], vec![], Some(A));
    let mut log = AttemptLog::new();
    log.record(A, 5);
    let mut slot: Option<u32> = Some(1);
    let reaped: RefCell<Vec<u32>> = RefCell::new(Vec::new());
    let r = daemon_round(
        &mut log,
        100,
        &mut slot,
        &mut Runner::new(|i| w.run(i)),
        &|c: u32| (c, WaitStatus::Running),
        &|c: u32| reaped.borrow_mut().push(c),
        &|_i: Invocation| Some(2u32),
        &|_ms: u64| {},
    );
    assert_eq!(r.sleep_ms, CONNECTED_POLL_MS);
    assert!(r.tried.is_empty());
    assert_eq!(r.connected, None);
    assert_eq!(slot, None);
    assert_eq!(reaped.borrow().clone(), vec![1]);
    assert_eq!(log.last_attempt(A), None);
}

#[test]
fn without_trusted_devices_discovery_stops() {
    let w = World::new(vec![], vec![], None);
    let mut log = AttemptLog::new();
    let mut slot: Option<u32> = Some(4);
    let r = daemon_round(
        &mut log,
        100,
        &mut slot,
        &mut Runner::new(|i| w.run(i)),
        &|c: u32| (c, WaitStatus::Running),
        &|_c: u32| {},
        &|_i: Invocation| Some(2u32),
        &|_ms: u64| {},
    );
    assert_eq!(r.sleep_ms, IDLE_POLL_MS);
    assert!(r.tried.is_empty());
    assert_eq!(slot, None);
    assert!(w.calls().contains(&"bluetoothctl --timeout 5 scan off".to_string()));
}

#[test]
fn trusted_devices_are_tried_until_one_connects() {
    let w = World::new(vec![A, B], vec![B], None);
    let mut log = AttemptLog::new();
    let mut slot: Option<u32> = None;
    let paused: RefCell<Vec<u64>> = RefCell::new(Vec::new());
    let spawned: RefCell<u32> = RefCell::new(0);
    let r = daemon_round(
        &mut log,
        1000,
        &mut slot,
        &mut Runner::new(|i| w.run(i)),
        &|c: u32| (c, WaitStatus::Running),
        &|_c: u32| {},
        &|_i: Invocation| {
            *spawned.borrow_mut() += 1;
            Some(7u32)
        },
        &|ms: u64| paused.borrow_mut().push(ms),
    );
    assert_eq!(r.sleep_ms, IDLE_POLL_MS);
    assert_eq!(r.tried, vec![A.to_string(), B.to_string()]);
    assert_eq!(r.connected.as_deref(), Some(B));
    assert!(r.a2dp_selected);
    assert_eq!(*spawned.borrow(), 1);
    // discovery was stopped once the headset connected
    assert_eq!(slot, None);
    assert_eq!(paused.borrow().clone(), vec![SETTLE_MS]);
    assert_eq!(log.last_attempt(A), Some(1000));
    assert_eq!(log.last_attempt(B), Some(1000));
    assert!(w.calls().contains(&"pactl set-card-profile bluez_card.BB_BB_BB_BB_BB_BB a2dp-sink".to_string()));
    // each tried device was trusted, then connected, after a look-up found nothing connected
    let calls = w.calls();
    let pos = |c: &str| calls.iter().position(|x| x == c).unwrap();
    let a_trust = pos("bluetoothctl --timeout 5 trust AA:AA:AA:AA:AA:AA");
    let a_connect = pos("bluetoothctl --timeout 15 connect AA:AA:AA:AA:AA:AA");
    let b_trust = pos("bluetoothctl --timeout 5 trust BB:BB:BB:BB:BB:BB");
    let b_connect = pos("bluetoothctl --timeout 15 connect BB:BB:BB:BB:BB:BB");
    assert!(a_trust < a_connect && a_connect < b_trust && b_trust < b_connect);
    assert_eq!(calls[a_trust - 2], "bluetoothctl devices Connected");
    assert_eq!(calls[b_trust - 2], "bluetoothctl devices Connected");
}

#[test]
fn a_device_is_left_alone_during_its_cooldown() {
    let w = World::new(vec![A], vec![], None);
    let mut log = AttemptLog::new();
    let mut slot: Option<u32> = None;
    let round = |log: &mut AttemptLog, slot: &mut Option<u32>, now: u64| {
        daemon_round(
            log,
            now,
            slot,
            &mut Runner::new(|i| w.run(i)),
            &|c: u32| (c, WaitStatus::Running),
            &|_c: u32| {},
            &|_i: Invocation| Some(1u32),
            &|_ms: u64| {},
        )
    };
    let first = round(&mut log, &mut slot, 1000);
    assert_eq!(first.tried, vec![A.to_string()]);
    assert_eq!(first.connected, None);
    let early = round(&mut log, &mut slot, 1000 + RETRY_COOLDOWN_MS - 1);
    assert!(early.tried.is_empty());
    let later = round(&mut log, &mut slot, 1000 + RETRY_COOLDOWN_MS);
    assert_eq!(later.tried, vec![A.to_string()]);
    assert_eq!(log.last_attempt(A), Some(1000 + RETRY_COOLDOWN_MS));
    // a clock that went backwards does not count as the cooldown passing
    let back = round(&mut log, &mut slot, 10);
    assert!(back.tried.is_empty());
}

#[test]
fn the_attempt_log() {
    let mut log = AttemptLog::new();
    assert_eq!(log.last_attempt(A), None);
    log.record(A, 1);
    log.record(B, 2);
    log.record(A, 3);
    assert_eq!(log.last_attempt(A), Some(3));
    assert_eq!(log.last_attempt(B), Some(2));
    log.clear();
    assert_eq!(log.last_attempt(A), None);
    assert_eq!(log.last_attempt(B), None);
}

#[test]
fn the_window_monitor_keeps_its_log_while_connected() {
    let w = World::new(vec![A], vec![], Some(A));
    let mut log = AttemptLog::new();
    log.record(A, 5);
    let mut slot: Option<u32> = Some(3);
    let r = monitor_round(&mut log, 100, &mut slot, &mut Runner::new(|i| w.run(i)), &|_c: u32| {}, &|_ms: u64| {});
    assert_eq!(r.sleep_ms, MONITOR_POLL_MS);
    assert!(r.tried.is_empty());
    assert_eq!(slot, None);
    assert_eq!(log.last_attempt(A), Some(5));
}

#[test]
fn the_window_monitor_connects_the_first_answering_device() {
    let w = World::new(vec![A, B], vec![A, B], None);
    let mut log = AttemptLog::new();
    log.record(A, 990);
    let mut slot: Option<u32> = Some(8);
    let paused: RefCell<Vec<u64>> = RefCell::new(Vec::new());
    let r = monitor_round(&mut log, 1000, &mut slot, &mut Runner::new(|i| w.run(i)), &|_c: u32| {}, &|ms: u64| paused.borrow_mut().push(ms));
    // A was tried 10 ms ago, so B is tried and connects
    assert_eq!(r.tried, vec![B.to_string()]);
    assert_eq!(r.connected.as_deref(), Some(B));
    assert_eq!(slot, None);
    assert_eq!(paused.borrow().clone(), vec![SETTLE_MS]);
    assert_eq!(log.last_attempt(A), Some(990));
    assert_eq!(log.last_attempt(B), Some(1000));
}
