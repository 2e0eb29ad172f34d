//! Bluetooth through `bluetoothctl`: device records, the verdict on a
//! `bluetoothctl` reply, device operations, discovery sessions and the
//! reconnection of trusted devices.
use vstd::prelude::*;
use crate::text::{
    chars_of, string_of, contains, lower, lowered, includes, split, split_on, is_digit, words,
    words_of, lines, lines_of, same, slice, rfind_char, rfind_in, upper_char, views,
};
use crate::process::{
    Invocation, ProcessOutput, accepts_all, invokes, stdout_of, opt_view, decimal,
    decimal_string, owned, invocation1, invocation2, run_it, string_views, stdout_text, Call,
    Runner, grows, added, only, made, started, lemma_grows_trans, lemma_grows_refl,
};

verus! {

// ---------------------------------------------------------------------------
// Records
// ---------------------------------------------------------------------------

/// One audio profile of a headset's sound card.
#[derive(Debug, Clone)]
pub struct AudioProfile {
    pub name: String,
    pub description: String,
    pub active: bool,
    pub available: bool,
}

/// One battery of a device. The label is empty for a single, whole-device
/// battery; otherwise it names a component such as "Left", "Right" or "Case".
#[derive(Debug, Clone)]
pub struct Battery {
    pub label: String,
    pub percentage: i32,
}

/// A Bluetooth device as `bluetoothctl` reports it.
#[derive(Debug, Clone)]
pub struct BluetoothDevice {
    pub name: String,
    pub address: String,
    pub connected: bool,
    pub paired: bool,
    pub trusted: bool,
    pub rssi: i32,
    pub battery: Option<i32>,
    pub batteries: Vec<Battery>,
    pub audio_profiles: Vec<AudioProfile>,
}

/// What an `AudioProfile` holds, as mathematical values.
pub struct AudioProfileView {
    pub name: Seq<char>,
    pub description: Seq<char>,
    pub active: bool,
    pub available: bool,
}

/// What a `Battery` holds, as mathematical values.
pub struct BatteryView {
    pub label: Seq<char>,
    pub percentage: i32,
}

/// What a `BluetoothDevice` holds, as mathematical values.
pub struct BluetoothDeviceView {
    pub name: Seq<char>,
    pub address: Seq<char>,
    pub connected: bool,
    pub paired: bool,
    pub trusted: bool,
    pub rssi: i32,
    pub battery: Option<i32>,
    pub batteries: Seq<BatteryView>,
    pub audio_profiles: Seq<AudioProfileView>,
}

impl View for AudioProfile {
    type V = AudioProfileView;

    open spec fn view(&self) -> AudioProfileView {
        AudioProfileView {
            name: self.name@,
            description: self.description@,
            active: self.active,
            available: self.available,
        }
    }
}

impl View for Battery {
    type V = BatteryView;

    open spec fn view(&self) -> BatteryView {
        BatteryView { label: self.label@, percentage: self.percentage }
    }
}

/// The views of a list of batteries.
pub open spec fn battery_views(b: Seq<Battery>) -> Seq<BatteryView> {
    b.map_values(|x: Battery| x@)
}

/// The views of a list of audio profiles.
pub open spec fn profile_views(p: Seq<AudioProfile>) -> Seq<AudioProfileView> {
    p.map_values(|x: AudioProfile| x@)
}

impl View for BluetoothDevice {
    type V = BluetoothDeviceView;

    open spec fn view(&self) -> BluetoothDeviceView {
        BluetoothDeviceView {
            name: self.name@,
            address: self.address@,
            connected: self.connected,
            paired: self.paired,
            trusted: self.trusted,
            rssi: self.rssi,
            battery: self.battery,
            batteries: battery_views(self.batteries@),
            audio_profiles: profile_views(self.audio_profiles@),
        }
    }
}

// ---------------------------------------------------------------------------
// Replies of bluetoothctl
// ---------------------------------------------------------------------------

/// `bluetoothctl` exits with success whether or not the operation worked and
/// reports the outcome only in its text: an operation succeeded when the
/// text could be read, mentions none of "failed", "not available" and
/// "org.bluez.error" in any letter case, and holds the success marker.
pub open spec fn reply_ok(output: Option<Seq<char>>, marker: Seq<char>) -> bool {
    match output {
        None => false,
        Some(t) => {
            &&& !contains(lower(t), "failed"@)
            &&& !contains(lower(t), "not available"@)
            &&& !contains(lower(t), "org.bluez.error"@)
            &&& contains(t, marker)
        },
    }
}

/// Did a `bluetoothctl` operation succeed, judged from its combined output?
pub fn bluetoothctl_ok(output: Option<String>, success_marker: &str) -> (r: bool)
    ensures
        r == reply_ok(opt_view(output), success_marker@),
{
    match output {
        Some(text) => {
            let t = chars_of(text.as_str());
            let low = lowered(&t);
            if includes(&low, &chars_of("failed")) || includes(&low, &chars_of("not available")) || includes(
                &low,
                &chars_of("org.bluez.error"),
            ) {
                return false;
            }
            includes(&t, &chars_of(success_marker))
        },
        None => false,
    }
}

// ---------------------------------------------------------------------------
// Addresses
// ---------------------------------------------------------------------------

/// An ASCII hexadecimal digit.
pub open spec fn is_hex_digit(c: char) -> bool {
    ('0' <= c <= '9') || ('a' <= c <= 'f') || ('A' <= c <= 'F')
}

/// Two hexadecimal digits.
pub open spec fn is_hex_pair(p: Seq<char>) -> bool {
    p.len() == 2 && is_hex_digit(p[0]) && is_hex_digit(p[1])
}

/// Six colon-separated pairs of hexadecimal digits, e.g. `AA:BB:CC:00:11:22`.
pub open spec fn valid_mac(s: Seq<char>) -> bool {
    let parts = split(s, seq![':']);
    parts.len() == 6 && forall|i: int| 0 <= i < 6 ==> is_hex_pair(#[trigger] parts[i])
}

fn hex_digit(c: char) -> (r: bool)
    ensures
        r == is_hex_digit(c),
{
    ('0' <= c && c <= '9') || ('a' <= c && c <= 'f') || ('A' <= c && c <= 'F')
}

fn valid_mac_chars(v: &Vec<char>) -> (r: bool)
    ensures
        r == valid_mac(v@),
{
    let colon: Vec<char> = vec![':'];
    assert(colon@ =~= seq![':']);
    let parts = split_on(v, &colon);
    if parts.len() != 6 {
        return false;
    }
    let mut i: usize = 0;
    while i < 6
        invariant
            i <= 6,
            parts.len() == 6,
            views(parts@) == split(v@, seq![':']),
            forall|j: int| 0 <= j < i ==> is_hex_pair(#[trigger] split(v@, seq![':'])[j]),
        decreases 6 - i,
    {
        let p = &parts[i];
        assert(p@ == split(v@, seq![':'])[i as int]);
        if !(p.len() == 2 && hex_digit(p[0]) && hex_digit(p[1])) {
            return false;
        }
        i += 1;
    }
    true
}

/// Is `addr` a MAC address written as six colon-separated hex pairs?
pub fn is_valid_mac(addr: &str) -> (r: bool)
    ensures
        r == valid_mac(addr@),
{
    valid_mac_chars(&chars_of(addr))
}

/// Is `addr` a MAC address once each `'_'` is read as `':'` (the form used
/// in BlueZ object paths, `dev_AA_BB_...`)?
pub fn is_valid_hex_addr(addr: &str) -> (r: bool)
    ensures
        r == valid_mac(crate::text::replace_char(addr@, '_', ':')),
{
    let v = crate::text::replaced(&chars_of(addr), '_', ':');
    valid_mac_chars(&v)
}

// ---------------------------------------------------------------------------
// Invoking bluetoothctl
// ---------------------------------------------------------------------------

/// The arguments of a bounded `bluetoothctl` session: a hard timeout, then
/// one command word and its argument.
pub open spec fn bt_args(timeout_secs: u32, verb: Seq<char>, target: Seq<char>) -> Seq<Seq<char>> {
    seq!["--timeout"@, decimal(timeout_secs as nat), verb, target]
}

/// The text a run printed: standard output followed by standard error.
pub open spec fn combined(out: Option<ProcessOutput>) -> Option<Seq<char>> {
    match out {
        Some(o) => Some(o.stdout@ + o.stderr@),
        None => None,
    }
}

/// `c` ran `bluetoothctl --timeout <t> verb target`.
pub open spec fn bt_call(c: Call, timeout_secs: u32, verb: Seq<char>, target: Seq<char>) -> bool {
    made(c, "bluetoothctl"@, bt_args(timeout_secs, verb, target))
}

/// `calls` is the single run `bluetoothctl --timeout <t> verb target`.
pub open spec fn bt_run(calls: Seq<Call>, timeout_secs: u32, verb: Seq<char>, target: Seq<char>) -> bool {
    only(calls, "bluetoothctl"@, bt_args(timeout_secs, verb, target))
}

/// Runs `bluetoothctl --timeout <timeout_secs> <verb> <target>`, once, and
/// returns its standard output followed by its standard error; `None` when
/// the program could not be started. The timeout keeps a call for an
/// out-of-range device from blocking for ever.
pub fn bluetoothctl<F: Fn(Invocation) -> Option<ProcessOutput>>(
    run: &mut Runner<F>,
    timeout_secs: u32,
    verb: &str,
    target: &str,
) -> (r: Option<String>)
    requires
        accepts_all(old(run).runs()),
    ensures
        grows(*old(run), *final(run)),
        bt_run(added(*old(run), *final(run)), timeout_secs, verb@, target@),
        opt_view(r) == combined(added(*old(run), *final(run))[0].out),
{
    let mut args: Vec<String> = Vec::new();
    args.push(owned("--timeout"));
    args.push(decimal_string(timeout_secs as u64));
    args.push(owned(verb));
    args.push(owned(target));
    let inv = Invocation { program: owned("bluetoothctl"), args };
    assert(string_views(inv.args@) =~= bt_args(timeout_secs, verb@, target@));
    let out = run_it(
        run,
        inv,
        Ghost("bluetoothctl"@),
        Ghost(bt_args(timeout_secs, verb@, target@)),
    );
    let r = match out {
        Some(o) => {
            let mut text = o.stdout;
            text.append(o.stderr.as_str());
            Some(text)
        },
        None => None,
    };
    assert(opt_view(r) == combined(out));
    r
}

/// `calls` is the single bounded `bluetoothctl` operation, and `r` the
/// verdict on its reply.
pub open spec fn operation(
    calls: Seq<Call>,
    timeout_secs: u32,
    verb: Seq<char>,
    target: Seq<char>,
    marker: Seq<char>,
    r: bool,
) -> bool {
    bt_run(calls, timeout_secs, verb, target) && r == reply_ok(combined(calls[0].out), marker)
}

fn bt_operation<F: Fn(Invocation) -> Option<ProcessOutput>>(
    run: &mut Runner<F>,
    timeout_secs: u32,
    verb: &str,
    target: &str,
    marker: &str,
) -> (r: bool)
    requires
        accepts_all(old(run).runs()),
    ensures
        grows(*old(run), *final(run)),
        operation(added(*old(run), *final(run)), timeout_secs, verb@, target@, marker@, r),
{
    let out = bluetoothctl(run, timeout_secs, verb, target);
    bluetoothctl_ok(out, marker)
}

/// Connects a device, allowing 20 s for it to answer a page.
pub fn connect<F: Fn(Invocation) -> Option<ProcessOutput>>(address: &str, run: &mut Runner<F>) -> (r: bool)
    requires
        accepts_all(old(run).runs()),
    ensures
        grows(*old(run), *final(run)),
        operation(added(*old(run), *final(run)), 20, "connect"@, address@, "Connection successful"@, r),
{
    bt_operation(run, 20, "connect", address, "Connection successful")
}

/// Disconnects a device.
pub fn disconnect<F: Fn(Invocation) -> Option<ProcessOutput>>(address: &str, run: &mut Runner<F>) -> (r: bool)
    requires
        accepts_all(old(run).runs()),
    ensures
        grows(*old(run), *final(run)),
        operation(added(*old(run), *final(run)), 10, "disconnect"@, address@, "Successful disconnected"@, r),
{
    bt_operation(run, 10, "disconnect", address, "Successful disconnected")
}

/// Pairs with a device; pairing can wait on the peer's user, so 30 s.
pub fn pair<F: Fn(Invocation) -> Option<ProcessOutput>>(address: &str, run: &mut Runner<F>) -> (r: bool)
    requires
        accepts_all(old(run).runs()),
    ensures
        grows(*old(run), *final(run)),
        operation(added(*old(run), *final(run)), 30, "pair"@, address@, "Pairing successful"@, r),
{
    bt_operation(run, 30, "pair", address, "Pairing successful")
}

/// Trusts (`enable`) or untrusts a device.
pub fn trust<F: Fn(Invocation) -> Option<ProcessOutput>>(address: &str, enable: bool, run: &mut Runner<F>) -> (r: bool)
    requires
        accepts_all(old(run).runs()),
    ensures
        grows(*old(run), *final(run)),
        enable ==> operation(added(*old(run), *final(run)), 10, "trust"@, address@, "trust succeeded"@, r),
        !enable ==> operation(added(*old(run), *final(run)), 10, "untrust"@, address@, "untrust succeeded"@, r),
{
    let cmd = if enable {
        "trust"
    } else {
        "untrust"
    };
    let marker = if enable {
        "trust succeeded"
    } else {
        "untrust succeeded"
    };
    bt_operation(run, 10, cmd, address, marker)
}

/// Removes (unpairs) a device.
pub fn remove<F: Fn(Invocation) -> Option<ProcessOutput>>(address: &str, run: &mut Runner<F>) -> (r: bool)
    requires
        accepts_all(old(run).runs()),
    ensures
        grows(*old(run), *final(run)),
        operation(added(*old(run), *final(run)), 10, "remove"@, address@, "Device has been removed"@, r),
{
    bt_operation(run, 10, "remove", address, "Device has been removed")
}

/// Switches the adapter on or off.
pub fn set_power<F: Fn(Invocation) -> Option<ProcessOutput>>(enable: bool, run: &mut Runner<F>) -> (r: bool)
    requires
        accepts_all(old(run).runs()),
    ensures
        grows(*old(run), *final(run)),
        enable ==> operation(added(*old(run), *final(run)), 10, "power"@, "on"@, "succeeded"@, r),
        !enable ==> operation(added(*old(run), *final(run)), 10, "power"@, "off"@, "succeeded"@, r),
{
    let state = if enable {
        "on"
    } else {
        "off"
    };
    bt_operation(run, 10, "power", state, "succeeded")
}

/// The same as [`set_power`].
pub fn toggle_power<F: Fn(Invocation) -> Option<ProcessOutput>>(enable: bool, run: &mut Runner<F>) -> (r: bool)
    requires
        accepts_all(old(run).runs()),
    ensures
        grows(*old(run), *final(run)),
        enable ==> operation(added(*old(run), *final(run)), 10, "power"@, "on"@, "succeeded"@, r),
        !enable ==> operation(added(*old(run), *final(run)), 10, "power"@, "off"@, "succeeded"@, r),
{
    set_power(enable, run)
}


// ---------------------------------------------------------------------------
// Discovery sessions
// ---------------------------------------------------------------------------

/// What a non-blocking wait on a child process found.
#[derive(Debug, Clone, Copy, PartialEq, Eq)]
pub enum WaitStatus {
    /// The child has exited and has been reaped.
    Exited,
    /// The child is still running.
    Running,
    /// The wait itself failed.
    Failed,
}

/// True while the discovery session held in `slot` is still alive.
///
/// `try_wait` checks the child without blocking and hands it back; a child
/// that has exited, or that cannot be checked, is let go so that no zombie
/// stays behind.
pub fn scan_running<C, W: FnOnce(C) -> (C, WaitStatus)>(slot: &mut Option<C>, try_wait: W) -> (r: bool)
    requires
        *old(slot) matches Some(c) ==> call_requires(try_wait, (c,)),
    ensures
        *old(slot) is None ==> !r && *final(slot) is None,
        *old(slot) matches Some(c) ==> exists|c2: C, st: WaitStatus|
            #[trigger] call_ensures(try_wait, (c,), (c2, st)) && (r <==> st == WaitStatus::Running)
                && *final(slot) == (if st == WaitStatus::Running {
                Some(c2)
            } else {
                None
            }),
{
    match slot.take() {
        None => false,
        Some(child) => {
            let ghost c = child;
            let (child, st) = try_wait(child);
            assert(call_ensures(try_wait, (c,), (child, st)));
            match st {
                WaitStatus::Running => {
                    *slot = Some(child);
                    true
                },
                _ => false,
            }
        },
    }
}

/// Ends the discovery session held in `slot`, if any: the child is handed to
/// `reap` (which kills and waits for it), then `bluetoothctl scan off` is
/// asked for as well. True when that request could be made.
pub fn stop_scan<C, K: FnOnce(C), F: Fn(Invocation) -> Option<ProcessOutput>>(
    slot: &mut Option<C>,
    reap: K,
    run: &mut Runner<F>,
) -> (r: bool)
    requires
        accepts_all(old(run).runs()),
        *old(slot) matches Some(c) ==> call_requires(reap, (c,)),
    ensures
        *final(slot) is None,
        *old(slot) matches Some(c) ==> call_ensures(reap, (c,), ()),
        grows(*old(run), *final(run)),
        bt_run(added(*old(run), *final(run)), 5, "scan"@, "off"@),
        r == added(*old(run), *final(run))[0].out is Some,
{
    match slot.take() {
        Some(child) => {
            reap(child);
        },
        None => {},
    }
    let t = bluetoothctl(run, 5, "scan", "off");
    t.is_some()
}

/// How long one discovery session runs before `bluetoothctl` exits, in
/// seconds.
pub const SCAN_SESSION_SECS: u64 = 60;

/// Starts a discovery session: ends the one in `slot`, powers the adapter
/// on, then has `spawn` start `bluetoothctl --timeout 60 scan on` and keeps
/// the child in `slot`. True when the child was started.
pub fn start_scan<C, K: FnOnce(C), S: FnOnce(Invocation) -> Option<C>, F: Fn(Invocation) -> Option<ProcessOutput>>(
    slot: &mut Option<C>,
    reap: K,
    spawn: S,
    run: &mut Runner<F>,
) -> (r: bool)
    requires
        accepts_all(old(run).runs()),
        *old(slot) matches Some(c) ==> call_requires(reap, (c,)),
        forall|i: Invocation| #[trigger] call_requires(spawn, (i,)),
    ensures
        *old(slot) matches Some(c) ==> call_ensures(reap, (c,), ()),
        grows(*old(run), *final(run)),
        added(*old(run), *final(run)).len() == 3,
        bt_call(added(*old(run), *final(run))[0], 5, "scan"@, "off"@),
        bt_call(added(*old(run), *final(run))[1], 5, "power"@, "on"@),
        started(
            added(*old(run), *final(run))[2],
            "bluetoothctl"@,
            bt_args(SCAN_SESSION_SECS as u32, "scan"@, "on"@),
        ),
        exists|i: Invocation, child: Option<C>|
            invokes(i, "bluetoothctl"@, bt_args(SCAN_SESSION_SECS as u32, "scan"@, "on"@)) && #[trigger] call_ensures(
                spawn,
                (i,),
                child,
            ) && *final(slot) == child && r == child is Some,
{
    let ghost r0 = *run;
    let _ = stop_scan(slot, reap, run);
    let ghost r1 = *run;
    let _ = bluetoothctl(run, 5, "power", "on");
    let ghost r2 = *run;
    let mut args: Vec<String> = Vec::new();
    args.push(owned("--timeout"));
    args.push(decimal_string(SCAN_SESSION_SECS));
    args.push(owned("scan"));
    args.push(owned("on"));
    let inv = Invocation { program: owned("bluetoothctl"), args };
    assert(string_views(inv.args@) =~= bt_args(SCAN_SESSION_SECS as u32, "scan"@, "on"@));
    let ghost g = inv;
    let child = run.start(spawn, inv);
    proof {
        assert(run.history().take(r2.history().len() as int) =~= r2.history());
        assert(added(r2, *run) =~= seq![Call { program: g.program@, args: string_views(g.args@), spawned: true, out: None }]);
        lemma_grows_trans(r0, r1, r2);
        lemma_grows_trans(r0, r2, *run);
    }
    match child {
        Some(c) => {
            *slot = Some(c);
            true
        },
        None => {
            *slot = None;
            false
        },
    }
}

// ---------------------------------------------------------------------------
// Connected devices and power
// ---------------------------------------------------------------------------

/// The address of the first line `Device <MAC> <name...>` whose address is a
/// valid MAC address.
pub open spec fn connected_in(ls: Seq<Seq<char>>) -> Option<Seq<char>>
    decreases ls.len(),
{
    if ls.len() == 0 {
        None
    } else {
        let w = words(ls[0]);
        if w.len() >= 3 && w[0] == "Device"@ && valid_mac(w[1]) {
            Some(w[1])
        } else {
            connected_in(ls.drop_first())
        }
    }
}

/// A `bluetoothctl devices` line `Device <MAC> <name...>` with a valid MAC
/// address.
pub open spec fn is_device_line(line: Seq<char>) -> bool {
    let w = words(line);
    w.len() >= 3 && w[0] == "Device"@ && valid_mac(w[1])
}

/// The connected device is the address on the first device line with a
/// valid MAC address, and there is none when no line is one.
pub proof fn lemma_connected_in_first(ls: Seq<Seq<char>>)
    ensures
        connected_in(ls) is None <==> forall|i: int| 0 <= i < ls.len() ==> !is_device_line(#[trigger] ls[i]),
        connected_in(ls) matches Some(c) ==> exists|j: int|
            0 <= j < ls.len() && is_device_line(#[trigger] ls[j]) && c == words(ls[j])[1] && forall|i: int|
                0 <= i < j ==> !is_device_line(#[trigger] ls[i]),
    decreases ls.len(),
{
    if ls.len() > 0 {
        let rest = ls.drop_first();
        lemma_connected_in_first(rest);
        assert forall|i: int| 0 <= i < rest.len() implies rest[i] == ls[i + 1] by {}
        if !is_device_line(ls[0]) {
            if connected_in(rest) is None {
                assert forall|i: int| 0 <= i < ls.len() implies !is_device_line(#[trigger] ls[i]) by {
                    if i > 0 {
                        assert(rest[i - 1] == ls[i]);
                    }
                }
            } else {
                let c = connected_in(rest)->0;
                let j = choose|j: int|
                    0 <= j < rest.len() && is_device_line(#[trigger] rest[j]) && c == words(rest[j])[1] && forall|i: int|
                        0 <= i < j ==> !is_device_line(#[trigger] rest[i]);
                assert(ls[j + 1] == rest[j]);
                assert forall|i: int| 0 <= i < j + 1 implies !is_device_line(#[trigger] ls[i]) by {
                    if i > 0 {
                        assert(rest[i - 1] == ls[i]);
                    }
                }
            }
        }
    }
}

/// The connected address reported by a `bluetoothctl devices Connected` run.
pub open spec fn connected_from(out: Option<ProcessOutput>) -> Option<Seq<char>> {
    match stdout_of(out) {
        Some(t) => connected_in(lines(t)),
        None => None,
    }
}

/// The first connected device listed in `bluetoothctl devices Connected`
/// output.
pub fn connected_address_in(listing: &str) -> (r: Option<String>)
    ensures
        opt_view(r) == connected_in(lines(listing@)),
{
    let ls = lines_of(&chars_of(listing));
    let device = chars_of("Device");
    let mut i: usize = 0;
    assert(views(ls@).skip(0) =~= views(ls@));
    while i < ls.len()
        invariant
            i <= ls.len(),
            views(ls@) == lines(listing@),
            device@ == "Device"@,
            connected_in(views(ls@)) == connected_in(views(ls@).skip(i as int)),
        decreases ls.len() - i,
    {
        let ghost rest = views(ls@).skip(i as int);
        assert(rest[0] == ls@[i as int]@);
        assert(rest.drop_first() =~= views(ls@).skip(i + 1));
        let w = words_of(&ls[i]);
        if w.len() >= 3 && same(&w[0], &device) && valid_mac_chars(&w[1]) {
            return Some(string_of(&w[1]));
        }
        i += 1;
    }
    None
}

/// The address of the connected device, if `bluetoothctl devices Connected`
/// lists one with a valid address.
pub fn get_connected_address<F: Fn(Invocation) -> Option<ProcessOutput>>(run: &mut Runner<F>) -> (r: Option<String>)
    requires
        accepts_all(old(run).runs()),
    ensures
        grows(*old(run), *final(run)),
        added(*old(run), *final(run)).len() == 1,
        lookup(added(*old(run), *final(run))[0]),
        opt_view(r) == connected_from(added(*old(run), *final(run))[0].out),
{
    let inv = invocation2("bluetoothctl", "devices", "Connected");
    let ghost args = seq!["devices"@, "Connected"@];
    let out = run_it(run, inv, Ghost("bluetoothctl"@), Ghost(args));
    match stdout_text(out) {
        Some(t) => connected_address_in(t.as_str()),
        None => None,
    }
}

/// `c` ran `bluetoothctl devices Connected`.
pub open spec fn lookup(c: Call) -> bool {
    made(c, "bluetoothctl"@, seq!["devices"@, "Connected"@])
}

/// `calls` are the runs of a reconnection of `address`, and `r` its
/// outcome: a look-up of the connected device; when that is not `address`,
/// a 5 s `trust` and then a 15 s `connect`, whose reply decides.
pub open spec fn trusted_connect(calls: Seq<Call>, address: Seq<char>, r: bool) -> bool {
    &&& calls.len() >= 1
    &&& lookup(calls[0])
    &&& if connected_from(calls[0].out) == Some(address) {
        calls.len() == 1 && r
    } else {
        &&& calls.len() == 3
        &&& bt_call(calls[1], 5, "trust"@, address)
        &&& bt_call(calls[2], 15, "connect"@, address)
        &&& r == reply_ok(combined(calls[2].out), "Connection successful"@)
    }
}

/// Reconnects a trusted device: nothing to do when it is the connected one;
/// otherwise re-asserts trust (5 s) and connects with a 15 s bound.
pub fn connect_trusted_device<F: Fn(Invocation) -> Option<ProcessOutput>>(address: &str, run: &mut Runner<F>) -> (r: bool)
    requires
        accepts_all(old(run).runs()),
    ensures
        grows(*old(run), *final(run)),
        trusted_connect(added(*old(run), *final(run)), address@, r),
{
    let ghost r0 = *run;
    let c = get_connected_address(run);
    let ghost r1 = *run;
    match c {
        Some(connected) => {
            if same(&chars_of(connected.as_str()), &chars_of(address)) {
                return true;
            }
        },
        None => {},
    }
    let _ = bluetoothctl(run, 5, "trust", address);
    let ghost r2 = *run;
    let r = bt_operation(run, 15, "connect", address, "Connection successful");
    proof {
        lemma_grows_trans(r0, r1, r2);
        lemma_grows_trans(r0, r2, *run);
        assert(added(r0, *run) =~= added(r0, r1) + added(r1, r2) + added(r2, *run));
    }
    r
}

/// Whether `bluetoothctl show` reports the adapter powered.
pub open spec fn powered_from(out: Option<ProcessOutput>) -> bool {
    match stdout_of(out) {
        Some(t) => contains(t, "Powered: yes"@),
        None => false,
    }
}

/// Is the adapter powered on?
pub fn is_powered<F: Fn(Invocation) -> Option<ProcessOutput>>(run: &mut Runner<F>) -> (r: bool)
    requires
        accepts_all(old(run).runs()),
    ensures
        grows(*old(run), *final(run)),
        only(added(*old(run), *final(run)), "bluetoothctl"@, seq!["show"@]),
        r == powered_from(added(*old(run), *final(run))[0].out),
{
    let inv = invocation1("bluetoothctl", "show");
    let ghost args = seq!["show"@];
    let out = run_it(run, inv, Ghost("bluetoothctl"@), Ghost(args));
    match stdout_text(out) {
        Some(t) => includes(&chars_of(t.as_str()), &chars_of("Powered: yes")),
        None => false,
    }
}

// ---------------------------------------------------------------------------
// Battery labels
// ---------------------------------------------------------------------------

/// Names the Unicode uppercase mapping of one character, as one or more
/// characters.
pub uninterp spec fn uppercase_of(c: char) -> Seq<char>;

/// std's `char::to_uppercase`, collected. Claimed: the result is the
/// character's uppercase mapping; for an ASCII character it is the ASCII
/// uppercase of it, as `char::to_uppercase` documents for ASCII input.
#[verifier::external_body]
fn char_to_uppercase(c: char) -> (r: Vec<char>)
    ensures
        r@ == uppercase_of(c),
        (c as u32) < 128 ==> r@ == seq![upper_char(c)],
{
    c.to_uppercase().collect()
}

/// The part of a path after its last `'/'` (the whole path when it has none).
pub open spec fn last_segment(p: Seq<char>) -> Seq<char> {
    match rfind_char(p, '/') {
        Some(k) => p.skip(k + 1),
        None => p,
    }
}

/// The label of a battery object: empty for the whole-device battery (the
/// path ends in the device id) or an empty last segment; "Left", "Right" or
/// "Case" when the last segment names one in any letter case; otherwise the
/// last segment with its first character in uppercase (for an ASCII
/// character, its ASCII uppercase).
pub open spec fn battery_label_of(path: Seq<char>, dev_id: Seq<char>) -> Seq<char> {
    let suffix = last_segment(path);
    if suffix == dev_id || suffix.len() == 0 {
        Seq::empty()
    } else if contains(lower(suffix), "left"@) {
        "Left"@
    } else if contains(lower(suffix), "right"@) {
        "Right"@
    } else if contains(lower(suffix), "case"@) {
        "Case"@
    } else if (suffix[0] as u32) < 128 {
        seq![upper_char(suffix[0])] + suffix.drop_first()
    } else {
        uppercase_of(suffix[0]) + suffix.drop_first()
    }
}

/// A human-readable label for a battery object path.
pub fn battery_label(path: &str, dev_id: &str) -> (r: String)
    ensures
        r@ == battery_label_of(path@, dev_id@),
{
    let p = chars_of(path);
    let suffix = match rfind_in(&p, '/') {
        Some(k) => {
            let s = slice(&p, k + 1, p.len());
            assert(s@ =~= p@.skip(k + 1));
            s
        },
        None => slice(&p, 0, p.len()),
    };
    assert(suffix@ =~= last_segment(path@));
    if same(&suffix, &chars_of(dev_id)) || suffix.len() == 0 {
        return String::new();
    }
    let low = lowered(&suffix);
    if includes(&low, &chars_of("left")) {
        owned("Left")
    } else if includes(&low, &chars_of("right")) {
        owned("Right")
    } else if includes(&low, &chars_of("case")) {
        owned("Case")
    } else {
        let first = char_to_uppercase(suffix[0]);
        let rest = slice(&suffix, 1, suffix.len());
        assert(rest@ =~= suffix@.drop_first());
        let all = crate::text::concat(&first, &rest);
        string_of(&all)
    }
}

} // verus!
