use std::cell::RefCell;

use auralink::audio::{
    a2dp_choice_in, audio_profiles_in, card_name_in, ensure_switch_on_connect_module, force_a2dp_profile,
    get_audio_profiles, set_audio_profile,
};
use auralink::process::{Invocation, ProcessOutput, Runner};

struct Fake {
    table: Vec<(String, String, bool)>,
    log: RefCell<Vec<String>>,
}

impl Fake {
    fn new(rows: &[(&str, &str, bool)]) -> Fake {
        Fake {
            table: rows.iter().map(|(k, out, ok)| (k.to_string(), out.to_string(), *ok)).collect(),
            log: RefCell::new(Vec::new()),
        }
    }

    fn run(&self, inv: Invocation) -> Option<ProcessOutput> {
        let mut key = inv.program.clone();
        for a in &inv.args {
            key.push(' ');
            key.push_str(a);
        }
        self.log.borrow_mut().push(key.clone());
        self.table
            .iter()
            .find(|r| r.0 == key)
            .map(|r| ProcessOutput { stdout: r.1.clone(), stderr: String::new(), success: r.2 })
    }

    fn calls(&self) -> Vec<String> {
        self.log.borrow().clone()
    }
}

const CARDS: &str = "Card #41\n\tName: alsa_card.pci-0000_00_1f.3\n\tProfiles:\n\t\toutput:analog-stereo: Analog Stereo Output (sinks: 1, sources: 0, priority: 6500, available: yes)\n\tActive Profile: output:analog-stereo\n\tPorts:\nCard #42\n\tName: bluez_card.AA_BB_CC_DD_EE_FF\n\tDriver: module-bluez5-device.c\n\tProperties:\n\t\tdevice.description = \"Buds\"\n\tProfiles:\n\t\ta2dp-sink-sbc: High Fidelity Playback (A2DP Sink, codec SBC) (sinks: 1, sources: 0, priority: 18, available: yes)\n\t\ta2dp-sink: High Fidelity Playback (A2DP Sink, codec AAC) (sinks: 1, sources: 0, priority: 19, available: yes)\n\t\ta2dp-sink-ldac: High Fidelity Playback (A2DP Sink, codec LDAC) (sinks: 1, sources: 0, priority: 40, available: no)\n\t\theadset-head-unit: Headset Head Unit (HSP/HFP) (sinks: 1, sources: 1, priority: 1, available: yes)\n\t\toff: Off (sinks: 0, sources: 0, priority: 0, available: yes)\n\tActive Profile: headset-head-unit\n\tPorts:\n\t\theadset-output: Headset (type: Headset, priority: 0, available)\n";

const MAC: &str = "AA:BB:CC:DD:EE:FF";

#[test]
fn profiles_of_the_device_card() {
    let p = audio_profiles_in(CARDS, MAC);
    let names: Vec<&str> = p.iter().map(|x| x.name.as_str()).collect();
    assert_eq!(names, vec!["a2dp-sink-sbc", "a2dp-sink", "a2dp-sink-ldac", "headset-head-unit", "off"]);
    assert_eq!(p[1].description, "High Fidelity Playback (A2DP Sink, codec AAC)");
    assert!(p[1].available);
    assert!(!p[2].available);
    // the card's Active Profile line stands after the list and still marks its profile
    let active: Vec<bool> = p.iter().map(|x| x.active).collect();
    assert_eq!(active, vec![false, false, false, true, false]);
    assert!(audio_profiles_in(CARDS, "11:22:33:44:55:66").is_empty());
}

#[test]
fn the_active_profile_is_marked_when_listed_first() {
    let listing = "Card #1\n\tName: bluez_card.AA_BB_CC_DD_EE_FF\n\tActive Profile: a2dp-sink\n\tProfiles:\n\t\ta2dp-sink: Hi-Fi (priority: 3, available: yes)\n\t\tplain: Plain text\n\tPorts:\n\t\tspeaker: Speaker (x)\n";
    let p = audio_profiles_in(listing, MAC);
    assert_eq!(p.len(), 2);
    assert!(p[0].active);
    assert_eq!(p[0].description, "Hi-Fi");
    assert_eq!(p[1].name, "plain");
    assert_eq!(p[1].description, "Plain text");
    assert!(p[1].available);
    assert!(!p[1].active);
}

#[test]
fn profiles_through_the_runner() {
    let f = Fake::new(&[("pactl list cards", CARDS, true)]);
    assert_eq!(get_audio_profiles(MAC, &mut Runner::new(|i| f.run(i))).len(), 5);
    let g = Fake::new(&[]);
    assert!(get_audio_profiles(MAC, &mut Runner::new(|i| g.run(i))).is_empty());
}

#[test]
fn card_names() {
    let short = "41\talsa_card.pci-0000_00_1f.3\tmodule-alsa-card.c\n42\tbluez_card.AA_BB_CC_DD_EE_FF\tmodule-bluez5-device.c\n";
    assert_eq!(card_name_in(short, MAC).as_deref(), Some("bluez_card.AA_BB_CC_DD_EE_FF"));
    assert_eq!(card_name_in(short, "11:22:33:44:55:66"), None);
    assert_eq!(card_name_in("7 card-AA:BB:CC:DD:EE:FF\n", MAC).as_deref(), Some("card-AA:BB:CC:DD:EE:FF"));
}

#[test]
fn setting_a_profile() {
    let f = Fake::new(&[
        ("pactl list cards short", "42\tbluez_card.AA_BB_CC_DD_EE_FF\tmodule-bluez5-device.c\n", true),
        ("pactl set-card-profile bluez_card.AA_BB_CC_DD_EE_FF a2dp-sink", "", true),
    ]);
    assert!(set_audio_profile(MAC, "a2dp-sink", &mut Runner::new(|i| f.run(i))));
    assert!(!set_audio_profile(MAC, "off", &mut Runner::new(|i| f.run(i))));
    assert!(!set_audio_profile("11:22:33:44:55:66", "a2dp-sink", &mut Runner::new(|i| f.run(i))));
    assert_eq!(f.calls().len(), 5);
}

#[test]
fn the_best_a2dp_sink_is_chosen() {
    let c = a2dp_choice_in(CARDS, MAC);
    assert_eq!(c.card.as_deref(), Some("bluez_card.AA_BB_CC_DD_EE_FF"));
    assert_eq!(c.active, "headset-head-unit");
    assert_eq!(c.best.as_deref(), Some("a2dp-sink"));
    let other = a2dp_choice_in(CARDS, "11:22:33:44:55:66");
    assert_eq!(other.card, None);
    assert_eq!(other.best, None);
}

#[test]
fn force_a2dp_switches_the_card() {
    let f = Fake::new(&[
        ("pactl list cards", CARDS, true),
        ("pactl set-card-profile bluez_card.AA_BB_CC_DD_EE_FF a2dp-sink", "", true),
    ]);
    assert!(force_a2dp_profile(MAC, &mut Runner::new(|i| f.run(i))));
    assert_eq!(
        f.calls(),
        vec!["pactl list cards".to_string(), "pactl set-card-profile bluez_card.AA_BB_CC_DD_EE_FF a2dp-sink".to_string()]
    );
}

#[test]
fn force_a2dp_keeps_an_active_best_profile() {
    let listing = CARDS.replace("Active Profile: headset-head-unit", "Active Profile: a2dp-sink");
    let f = Fake::new(&[("pactl list cards", listing.as_str(), true)]);
    assert!(force_a2dp_profile(MAC, &mut Runner::new(|i| f.run(i))));
    assert_eq!(f.calls().len(), 1);
}

#[test]
fn force_a2dp_without_a_sink() {
    let listing = "Card #1\n\tName: bluez_card.AA_BB_CC_DD_EE_FF\n\tProfiles:\n\t\theadset-head-unit: HSP (priority: 1, available: yes)\n\tActive Profile: headset-head-unit\n";
    let f = Fake::new(&[("pactl list cards", listing, true)]);
    assert!(!force_a2dp_profile(MAC, &mut Runner::new(|i| f.run(i))));
    let g = Fake::new(&[]);
    assert!(!force_a2dp_profile(MAC, &mut Runner::new(|i| g.run(i))));
}

#[test]
fn switch_on_connect_module() {
    let loaded = Fake::new(&[("pactl list modules", "Module #9\n\tName: module-switch-on-connect\n", true)]);
    assert!(ensure_switch_on_connect_module(&mut Runner::new(|i| loaded.run(i))));
    assert_eq!(loaded.calls().len(), 1);
    let load = Fake::new(&[
        ("pactl list modules", "Module #1\n\tName: module-null-sink\n", true),
        ("pactl load-module module-switch-on-connect", "27\n", true),
    ]);
    assert!(ensure_switch_on_connect_module(&mut Runner::new(|i| load.run(i))));
    let fail = Fake::new(&[("pactl load-module module-switch-on-connect", "Failure\n", false)]);
    assert!(!ensure_switch_on_connect_module(&mut Runner::new(|i| fail.run(i))));
}
