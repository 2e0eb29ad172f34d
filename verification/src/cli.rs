//! Command lines of the two programs, and the status-bar summary.
use vstd::prelude::*;
use crate::text::{chars_of, string_of, concat, same};
use crate::process::{opt_view, owned, Invocation, ProcessOutput, accepts_all, Runner, grows, added, made, lemma_grows_trans};
use crate::bluetooth::{BluetoothDevice, bt_call, powered_from, is_powered, set_power};
use crate::nm_ops::{signed_decimal, signed_decimal_string};
use crate::nm::{Network, VpnConnection, VpnView, vpn_views};

verus! {

/// What `auralink-bt <command>` asks for.
#[derive(Debug, Clone, Copy, PartialEq, Eq)]
pub enum BtAction {
    Gui,
    Quickshell,
    WaybarStream,
    Connect,
    Disconnect,
    Pair,
    Trust,
    Remove,
    Daemon,
    Status,
    FullStatus,
    Help,
    Toggle,
    Unknown,
}

/// The action named by a command word.
pub open spec fn bt_action_of(w: Seq<char>) -> BtAction {
    if w == "popup"@ || w == "gui"@ || w == "open"@ {
        BtAction::Gui
    } else if w == "quickshell"@ || w == "qs"@ {
        BtAction::Quickshell
    } else if w == "waybar-stream"@ {
        BtAction::WaybarStream
    } else if w == "connect"@ {
        BtAction::Connect
    } else if w == "disconnect"@ {
        BtAction::Disconnect
    } else if w == "pair"@ {
        BtAction::Pair
    } else if w == "trust"@ {
        BtAction::Trust
    } else if w == "remove"@ || w == "unpair"@ {
        BtAction::Remove
    } else if w == "daemon"@ || w == "--daemon"@ || w == "-d"@ {
        BtAction::Daemon
    } else if w == "status"@ {
        BtAction::Status
    } else if w == "fullstatus"@ {
        BtAction::FullStatus
    } else if w == "--help"@ || w == "-h"@ || w == "help"@ {
        BtAction::Help
    } else if w == "toggle"@ {
        BtAction::Toggle
    } else {
        BtAction::Unknown
    }
}

/// The actions that act on one device, given by its MAC address.
pub open spec fn takes_address(a: BtAction) -> bool {
    a == BtAction::Connect || a == BtAction::Disconnect || a == BtAction::Pair || a
        == BtAction::Trust || a == BtAction::Remove
}

/// A command of `auralink-bt`: the action and its argument, which is the
/// device address for device actions (absent when not given) and the
/// command word itself for an unknown command.
#[derive(Debug)]
pub struct BtCommand {
    pub action: BtAction,
    pub argument: Option<String>,
}

/// The command the arguments of `auralink-bt` ask for (the first argument
/// is the program name); `None` when the GUI should open: no command, or
/// `popup`, `gui` or `open`.
pub open spec fn bt_command_of(args: Seq<Seq<char>>) -> Option<(BtAction, Option<Seq<char>>)> {
    if args.len() <= 1 {
        None
    } else {
        let a = bt_action_of(args[1]);
        if a == BtAction::Gui {
            None
        } else if takes_address(a) {
            Some((a, if args.len() >= 3 { Some(args[2]) } else { None }))
        } else if a == BtAction::Unknown {
            Some((a, Some(args[1])))
        } else {
            Some((a, None))
        }
    }
}

/// The characters of each argument.
pub open spec fn string_seq_views(a: Seq<String>) -> Seq<Seq<char>> {
    a.map_values(|s: String| s@)
}

fn is_word(w: &Vec<char>, lit: &str) -> (r: bool)
    ensures
        r == (w@ == lit@),
{
    same(w, &chars_of(lit))
}

fn action_of(w: &Vec<char>) -> (a: BtAction)
    ensures
        a == bt_action_of(w@),
{
    if is_word(w, "popup") || is_word(w, "gui") || is_word(w, "open") {
        BtAction::Gui
    } else if is_word(w, "quickshell") || is_word(w, "qs") {
        BtAction::Quickshell
    } else if is_word(w, "waybar-stream") {
        BtAction::WaybarStream
    } else if is_word(w, "connect") {
        BtAction::Connect
    } else if is_word(w, "disconnect") {
        BtAction::Disconnect
    } else if is_word(w, "pair") {
        BtAction::Pair
    } else if is_word(w, "trust") {
        BtAction::Trust
    } else if is_word(w, "remove") || is_word(w, "unpair") {
        BtAction::Remove
    } else if is_word(w, "daemon") || is_word(w, "--daemon") || is_word(w, "-d") {
        BtAction::Daemon
    } else if is_word(w, "status") {
        BtAction::Status
    } else if is_word(w, "fullstatus") {
        BtAction::FullStatus
    } else if is_word(w, "--help") || is_word(w, "-h") || is_word(w, "help") {
        BtAction::Help
    } else if is_word(w, "toggle") {
        BtAction::Toggle
    } else {
        BtAction::Unknown
    }
}

/// Reads the command line of `auralink-bt`; `None` means: open the GUI.
pub fn handle_commands(args: &Vec<String>) -> (r: Option<BtCommand>)
    ensures
        match r {
            None => bt_command_of(string_seq_views(args@)) is None,
            Some(c) => bt_command_of(string_seq_views(args@)) == Some((c.action, opt_view(c.argument))),
        },
{
    let ghost a = string_seq_views(args@);
    if args.len() <= 1 {
        return None;
    }
    assert(a[1] == args@[1]@);
    let word = chars_of(args[1].as_str());
    let action = action_of(&word);
    match action {
        BtAction::Gui => None,
        BtAction::Connect | BtAction::Disconnect | BtAction::Pair | BtAction::Trust | BtAction::Remove => {
            let argument = if args.len() >= 3 {
                assert(a[2] == args@[2]@);
                Some(owned(args[2].as_str()))
            } else {
                None
            };
            Some(BtCommand { action, argument })
        },
        BtAction::Unknown => Some(BtCommand { action, argument: Some(owned(args[1].as_str())) }),
        _ => Some(BtCommand { action, argument: None }),
    }
}

/// What `auralink <command>` asks for.
#[derive(Debug, Clone, Copy, PartialEq, Eq)]
pub enum NetAction {
    Status,
    FullStatus,
    Help,
    Unknown,
}

/// The command the arguments of `auralink` ask for; `None` for the window.
pub open spec fn net_action_of(args: Seq<Seq<char>>) -> Option<NetAction> {
    if args.len() <= 1 {
        None
    } else if args[1] == "status"@ {
        Some(NetAction::Status)
    } else if args[1] == "fullstatus"@ {
        Some(NetAction::FullStatus)
    } else if args[1] == "--help"@ || args[1] == "-h"@ || args[1] == "help"@ {
        Some(NetAction::Help)
    } else {
        Some(NetAction::Unknown)
    }
}

/// Reads the command line of `auralink`; `None` means: open the GUI.
pub fn net_command(args: &Vec<String>) -> (r: Option<NetAction>)
    ensures
        r == net_action_of(string_seq_views(args@)),
{
    if args.len() <= 1 {
        return None;
    }
    assert(string_seq_views(args@)[1] == args@[1]@);
    let w = chars_of(args[1].as_str());
    if is_word(&w, "status") {
        Some(NetAction::Status)
    } else if is_word(&w, "fullstatus") {
        Some(NetAction::FullStatus)
    } else if is_word(&w, "--help") || is_word(&w, "-h") || is_word(&w, "help") {
        Some(NetAction::Help)
    } else {
        Some(NetAction::Unknown)
    }
}

/// The position of the first connected network, if any.
pub fn first_connected(networks: &Vec<Network>) -> (r: Option<usize>)
    ensures
        match r {
            Some(i) => i < networks.len() && networks@[i as int].connected && forall|j: int|
                0 <= j < i ==> !(#[trigger] networks@[j]).connected,
            None => forall|j: int| 0 <= j < networks.len() ==> !(#[trigger] networks@[j]).connected,
        },
{
    let mut i: usize = 0;
    while i < networks.len()
        invariant
            i <= networks.len(),
            forall|j: int| 0 <= j < i ==> !(#[trigger] networks@[j]).connected,
        decreases networks.len() - i,
    {
        if networks[i].connected {
            return Some(i);
        }
        i += 1;
    }
    None
}

/// The active VPNs of a list, in order.
pub open spec fn active_only(v: Seq<VpnView>) -> Seq<VpnView>
    decreases v.len(),
{
    if v.len() == 0 {
        Seq::empty()
    } else if v.last().active {
        active_only(v.drop_last()).push(v.last())
    } else {
        active_only(v.drop_last())
    }
}

/// The active VPNs of a list are its active entries: every one kept is
/// active and in the list, and every active one is kept.
pub proof fn lemma_active_only_keeps_active(v: Seq<VpnView>)
    ensures
        forall|k: int| 0 <= k < active_only(v).len() ==> (#[trigger] active_only(v)[k]).active && v.contains(active_only(v)[k]),
        forall|i: int| 0 <= i < v.len() && (#[trigger] v[i]).active ==> active_only(v).contains(v[i]),
        active_only(v).len() <= v.len(),
    decreases v.len(),
{
    if v.len() > 0 {
        let v2 = v.drop_last();
        lemma_active_only_keeps_active(v2);
        let a2 = active_only(v2);
        let a = active_only(v);
        assert forall|k: int| 0 <= k < a.len() implies (#[trigger] a[k]).active && v.contains(a[k]) by {
            if k < a2.len() {
                assert(a[k] == a2[k]);
                let w = choose|w: int| 0 <= w < v2.len() && v2[w] == a2[k];
                assert(v[w] == v2[w]);
            } else {
                assert(a[k] == v[v.len() - 1]);
            }
        }
        assert forall|i: int| 0 <= i < v.len() && (#[trigger] v[i]).active implies a.contains(v[i]) by {
            if i < v2.len() {
                assert(v2[i] == v[i]);
                let w = choose|w: int| 0 <= w < a2.len() && a2[w] == v2[i];
                assert(a[w] == a2[w]);
            } else {
                assert(a[a.len() - 1] == v[i]);
            }
        }
    }
}

/// Keeps the active VPNs.
pub fn active_vpns(vpns: Vec<VpnConnection>) -> (r: Vec<VpnConnection>)
    ensures
        vpn_views(r@) == active_only(vpn_views(vpns@)),
{
    let ghost all = vpn_views(vpns@);
    let mut r: Vec<VpnConnection> = Vec::new();
    let mut k: usize = 0;
    assert(all.take(0) =~= Seq::<VpnView>::empty());
    while k < vpns.len()
        invariant
            k <= vpns.len(),
            all == vpn_views(vpns@),
            vpn_views(r@) == active_only(all.take(k as int)),
        decreases vpns.len() - k,
    {
        assert(all.take(k + 1).drop_last() =~= all.take(k as int));
        assert(all.take(k + 1).last() == vpns@[k as int]@);
        let v = &vpns[k];
        if v.active {
            let copy = VpnConnection { name: owned(v.name.as_str()), vpn_type: owned(v.vpn_type.as_str()), active: v.active };
            let ghost before = vpn_views(r@);
            r.push(copy);
            assert(vpn_views(r@) =~= before.push(vpns@[k as int]@));
        }
        k += 1;
    }
    assert(all.take(vpns.len() as int) =~= all);
    r
}

/// The status-bar module output: glyph, tooltip and CSS class.
#[derive(Debug)]
pub struct BarStatus {
    pub text: String,
    pub tooltip: String,
    pub class: String,
}

/// The tooltip for a connected device: its name, and its battery in
/// parentheses when known.
pub open spec fn connected_tooltip(name: Seq<char>, battery: Option<i32>) -> Seq<char> {
    "Bluetooth: Connected to "@ + name + match battery {
        Some(b) => " ("@ + signed_decimal(b as int) + "%)"@,
        None => Seq::empty(),
    }
}

/// The status-bar output: off when the adapter is off; connected (with the
/// first connected device) or disconnected otherwise.
pub open spec fn bar_status_of(powered: bool, first: Option<(Seq<char>, Option<i32>)>) -> (Seq<char>, Seq<char>, Seq<char>) {
    if !powered {
        ("\u{f00b2}"@, "Bluetooth: Off"@, "off"@)
    } else {
        match first {
            Some((name, battery)) => ("\u{f00b1}"@, connected_tooltip(name, battery), "connected"@),
            None => ("\u{f00af}"@, "Bluetooth: Disconnected"@, "disconnected"@),
        }
    }
}

/// The name and battery of the first device, if any.
pub open spec fn first_of(devices: Seq<BluetoothDevice>) -> Option<(Seq<char>, Option<i32>)> {
    if devices.len() > 0 {
        Some((devices[0].name@, devices[0].battery))
    } else {
        None
    }
}

/// The status-bar output for the adapter state and the connected devices.
pub fn bar_status(powered: bool, connected: &Vec<BluetoothDevice>) -> (r: BarStatus)
    ensures
        (r.text@, r.tooltip@, r.class@) == bar_status_of(powered, first_of(connected@)),
{
    if !powered {
        return BarStatus {
            text: owned("\u{f00b2}"),
            tooltip: owned("Bluetooth: Off"),
            class: owned("off"),
        };
    }
    if connected.len() > 0 {
        let dev = &connected[0];
        let head = concat(&chars_of("Bluetooth: Connected to "), &chars_of(dev.name.as_str()));
        let tip = match dev.battery {
            Some(b) => {
                let open = concat(&chars_of(" ("), &chars_of(signed_decimal_string(b).as_str()));
                let part = concat(&open, &chars_of("%)"));
                concat(&head, &part)
            },
            None => {
                let e: Vec<char> = Vec::new();
                let t = concat(&head, &e);
                assert(t@ =~= head@);
                t
            },
        };
        assert(tip@ =~= connected_tooltip(dev.name@, dev.battery));
        BarStatus {
            text: owned("\u{f00b1}"),
            tooltip: string_of(&tip),
            class: owned("connected"),
        }
    } else {
        BarStatus {
            text: owned("\u{f00af}"),
            tooltip: owned("Bluetooth: Disconnected"),
            class: owned("disconnected"),
        }
    }
}

/// Flips the adapter's power: reads whether it is on, then asks for the
/// opposite. Returns the state asked for.
pub fn toggle_adapter<F: Fn(Invocation) -> Option<ProcessOutput>>(run: &mut Runner<F>) -> (on: bool)
    requires
        accepts_all(old(run).runs()),
    ensures
        grows(*old(run), *final(run)),
        added(*old(run), *final(run)).len() == 2,
        made(added(*old(run), *final(run))[0], "bluetoothctl"@, seq!["show"@]),
        on == !powered_from(added(*old(run), *final(run))[0].out),
        bt_call(added(*old(run), *final(run))[1], 10, "power"@, if on { "on"@ } else { "off"@ }),
{
    let ghost r0 = *run;
    let powered = is_powered(run);
    let ghost r1 = *run;
    let _ = set_power(!powered, run);
    proof {
        lemma_grows_trans(r0, r1, *run);
    }
    !powered
}

} // verus!
