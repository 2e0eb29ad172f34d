//! Automatic reconnection of trusted Bluetooth devices: one round of the
//! background daemon, with a per-device retry cooldown.
use vstd::prelude::*;
use crate::text::{chars_of, string_of, same, views};
use crate::process::{
    Invocation, ProcessOutput, accepts_all, opt_view, owned, string_views, Call, Runner, grows,
    added, started, lemma_grows_trans, lemma_grows_refl,
};
use crate::bluetooth::{
    WaitStatus, scan_running, stop_scan, start_scan, get_connected_address, connect_trusted_device,
    connected_from, lookup, trusted_connect, bt_call, bt_args, SCAN_SESSION_SECS,
};
use crate::bt_trust::{list_trusted, trusted_from};
use crate::bt_devices::concat_calls;
use crate::audio::{force_a2dp_profile, a2dp_result};

verus! {

/// Poll interval while nothing is connected, in milliseconds.
pub const IDLE_POLL_MS: u64 = 8000;

/// Poll interval while a device is connected, in milliseconds.
pub const CONNECTED_POLL_MS: u64 = 15000;

/// How long a device is left alone after an attempt, in milliseconds.
pub const RETRY_COOLDOWN_MS: u64 = 30000;

/// The pause that lets the sound server register a new headset.
pub const SETTLE_MS: u64 = 2000;

/// Poll interval of the connection monitor that runs beside the window.
pub const MONITOR_POLL_MS: u64 = 10000;

/// When each device was last tried, in milliseconds of a monotonic clock.
pub struct AttemptLog {
    entries: Vec<(String, u64)>,
}

/// The device of a log entry.
pub open spec fn entry_key(e: (String, u64)) -> Seq<char> {
    e.0@
}

impl AttemptLog {
    /// No device appears twice.
    pub closed spec fn wf(&self) -> bool {
        forall|i: int, j: int|
            0 <= i < j < self.entries@.len() ==> entry_key(#[trigger] self.entries@[i]) != entry_key(
                #[trigger] self.entries@[j],
            )
    }

    /// The time of the last attempt per device.
    pub closed spec fn attempts(&self) -> Map<Seq<char>, u64> {
        Map::new(
            |k: Seq<char>| exists|i: int| 0 <= i < self.entries@.len() && entry_key(self.entries@[i]) == k,
            |k: Seq<char>|
                self.entries@[choose|i: int| 0 <= i < self.entries@.len() && entry_key(self.entries@[i]) == k].1,
        )
    }

    /// An empty log.
    pub fn new() -> (l: AttemptLog)
        ensures
            l.wf(),
            l.attempts() == Map::<Seq<char>, u64>::empty(),
    {
        let l = AttemptLog { entries: Vec::new() };
        assert(l.attempts() =~= Map::<Seq<char>, u64>::empty());
        l
    }

    fn position(&self, address: &Vec<char>) -> (r: Option<usize>)
        requires
            self.wf(),
        ensures
            match r {
                Some(i) => i < self.entries@.len() && entry_key(self.entries@[i as int]) == address@,
                None => forall|i: int| 0 <= i < self.entries@.len() ==> entry_key(self.entries@[i]) != address@,
            },
    {
        let mut i: usize = 0;
        while i < self.entries.len()
            invariant
                i <= self.entries@.len(),
                forall|j: int| 0 <= j < i ==> entry_key(self.entries@[j]) != address@,
            decreases self.entries@.len() - i,
        {
            if same(&chars_of(self.entries[i].0.as_str()), address) {
                return Some(i);
            }
            i += 1;
        }
        None
    }

    /// When the device was last tried.
    pub fn last_attempt(&self, address: &str) -> (r: Option<u64>)
        requires
            self.wf(),
        ensures
            r == (if self.attempts().contains_key(address@) {
                Some(self.attempts()[address@])
            } else {
                None
            }),
    {
        match self.position(&chars_of(address)) {
            Some(i) => {
                proof {
                    let k = address@;
                    let w = choose|j: int| 0 <= j < self.entries@.len() && entry_key(self.entries@[j]) == k;
                    if w != i {
                        if w < i {
                            assert(entry_key(self.entries@[w]) != entry_key(self.entries@[i as int]));
                        } else {
                            assert(entry_key(self.entries@[i as int]) != entry_key(self.entries@[w]));
                        }
                    }
                }
                Some(self.entries[i].1)
            },
            None => None,
        }
    }

    /// Notes an attempt on the device at time `now`.
    pub fn record(&mut self, address: &str, now: u64)
        requires
            old(self).wf(),
        ensures
            final(self).wf(),
            final(self).attempts() == old(self).attempts().insert(address@, now),
    {
        let ghost before = self.attempts();
        let key = chars_of(address);
        match self.position(&key) {
            Some(i) => {
                self.entries.set(i, (owned(address), now));
            },
            None => {
                self.entries.push((owned(address), now));
            },
        }
        proof {
            assert forall|i: int, j: int|
                0 <= i < j < self.entries@.len() implies entry_key(#[trigger] self.entries@[i]) != entry_key(
                #[trigger] self.entries@[j],
            ) by {
                if entry_key(self.entries@[i]) == address@ || entry_key(self.entries@[j]) == address@ {
                } else {
                }
            }
            assert forall|k: Seq<char>| #[trigger] self.attempts().contains_key(k) == before.insert(address@, now).contains_key(k) by {
                if k != address@ && before.contains_key(k) {
                    let w = choose|j: int| 0 <= j < old(self).entries@.len() && entry_key(old(self).entries@[j]) == k;
                    assert(entry_key(self.entries@[w]) == k);
                }
                if k == address@ {
                    let w = if self.entries@.len() > old(self).entries@.len() {
                        old(self).entries@.len() as int
                    } else {
                        choose|j: int| 0 <= j < old(self).entries@.len() && entry_key(old(self).entries@[j]) == k
                    };
                    assert(entry_key(self.entries@[w]) == k);
                }
                if self.attempts().contains_key(k) && k != address@ {
                    let w = choose|j: int| 0 <= j < self.entries@.len() && entry_key(self.entries@[j]) == k;
                    assert(entry_key(old(self).entries@[w]) == k);
                }
            }
            assert forall|k: Seq<char>| #[trigger] self.attempts().contains_key(k) implies self.attempts()[k]
                == before.insert(address@, now)[k] by {
                let w = choose|j: int| 0 <= j < self.entries@.len() && entry_key(self.entries@[j]) == k;
                if k == address@ {
                    assert(self.entries@[w].1 == now) by {
                        if self.entries@[w].1 != now {
                            // the key sits at one place only
                            assert(false);
                        }
                    }
                } else {
                    let v = choose|j: int| 0 <= j < old(self).entries@.len() && entry_key(old(self).entries@[j]) == k;
                    assert(entry_key(old(self).entries@[w]) == k);
                    if v != w {
                        if v < w {
                            assert(entry_key(old(self).entries@[v]) != entry_key(old(self).entries@[w]));
                        } else {
                            assert(entry_key(old(self).entries@[w]) != entry_key(old(self).entries@[v]));
                        }
                    }
                }
            }
            assert(self.attempts() =~= before.insert(address@, now));
        }
    }

    /// Forgets every attempt.
    pub fn clear(&mut self)
        ensures
            final(self).wf(),
            final(self).attempts() == Map::<Seq<char>, u64>::empty(),
    {
        self.entries.clear();
        assert(self.attempts() =~= Map::<Seq<char>, u64>::empty());
    }
}

/// A device may be tried at `now`: never tried, or last tried at least the
/// cooldown earlier.
pub open spec fn due(log: Map<Seq<char>, u64>, address: Seq<char>, now: u64) -> bool {
    !log.contains_key(address) || now >= log[address] + RETRY_COOLDOWN_MS
}

/// The log after attempts at `now` on each of `tried`.
pub open spec fn record_all(log: Map<Seq<char>, u64>, tried: Seq<Seq<char>>, now: u64) -> Map<Seq<char>, u64>
    decreases tried.len(),
{
    if tried.len() == 0 {
        log
    } else {
        record_all(log, tried.drop_last(), now).insert(tried.last(), now)
    }
}

/// The devices of `trusted` that are due at `now`, in order.
pub open spec fn due_devices(trusted: Seq<Seq<char>>, log: Map<Seq<char>, u64>, now: u64) -> Seq<Seq<char>>
    decreases trusted.len(),
{
    if trusted.len() == 0 {
        Seq::empty()
    } else if due(log, trusted.last(), now) {
        due_devices(trusted.drop_last(), log, now).push(trusted.last())
    } else {
        due_devices(trusted.drop_last(), log, now)
    }
}

/// `a` is the beginning of `b`.
pub open spec fn prefix_of(a: Seq<Seq<char>>, b: Seq<Seq<char>>) -> bool {
    a.len() <= b.len() && b.take(a.len() as int) == a
}

/// How many runs the reconnection within an attempt makes: one when its
/// look-up finds the device connected already, three otherwise.
pub open spec fn inner_len(calls: Seq<Call>, address: Seq<char>) -> int {
    if connected_from(calls[1].out) == Some(address) {
        1
    } else {
        3
    }
}

/// `calls` are the runs of one attempt of the daemon on `address`: a
/// look-up that finds nothing connected; the reconnection of `address`
/// (`trusted_connect`); a look-up of the connected device, which decides
/// whether the attempt hit; after a hit, `scan off` and the A2DP switch
/// with outcome `a2dp`.
pub open spec fn daemon_attempt(calls: Seq<Call>, address: Seq<char>, hit: bool, a2dp: bool) -> bool {
    let n = inner_len(calls, address);
    &&& calls.len() >= 2 + n
    &&& lookup(calls[0])
    &&& connected_from(calls[0].out) is None
    &&& exists|ok: bool| #[trigger] trusted_connect(calls.subrange(1, 1 + n), address, ok)
    &&& lookup(calls[1 + n])
    &&& hit == (connected_from(calls[1 + n].out) == Some(address))
    &&& if hit {
        &&& calls.len() >= 3 + n
        &&& bt_call(calls[2 + n], 5, "scan"@, "off"@)
        &&& a2dp_result(calls.skip(3 + n), address, a2dp)
    } else {
        calls.len() == 2 + n
    }
}

/// `calls` are the runs of one attempt of the window's monitor on
/// `address`: a look-up that finds nothing connected; the reconnection of
/// `address`, whose reported outcome decides whether the attempt hit;
/// after a hit, `scan off` and the A2DP switch with outcome `a2dp`.
pub open spec fn monitor_attempt(calls: Seq<Call>, address: Seq<char>, hit: bool, a2dp: bool) -> bool {
    let n = inner_len(calls, address);
    &&& calls.len() >= 1 + n
    &&& lookup(calls[0])
    &&& connected_from(calls[0].out) is None
    &&& trusted_connect(calls.subrange(1, 1 + n), address, hit)
    &&& if hit {
        &&& calls.len() >= 2 + n
        &&& bt_call(calls[1 + n], 5, "scan"@, "off"@)
        &&& a2dp_result(calls.skip(2 + n), address, a2dp)
    } else {
        calls.len() == 1 + n
    }
}

/// `calls` end with a look-up that found a device connected.
pub open spec fn interrupted_by(calls: Seq<Call>, before: Seq<Call>) -> bool {
    &&& calls.len() == before.len() + 1
    &&& calls.take(before.len() as int) == before
    &&& lookup(calls.last())
    &&& connected_from(calls.last().out) is Some
}

/// The attempts of a round: one attempt per tried device, in order, the
/// last one hitting when the round connected a device; then, when a look-up
/// found a device connected before an attempt, that look-up. That look-up
/// is the only way a round stops early without a hit.
pub open spec fn attempts_of(
    rest: Seq<Call>,
    tried: Seq<Seq<char>>,
    connected: bool,
    a2dp: bool,
    due: Seq<Seq<char>>,
    monitor: bool,
) -> bool {
    exists|parts: Seq<Seq<Call>>|
        #![trigger concat_calls(parts)]
        {
            &&& parts.len() == tried.len()
            &&& forall|k: int|
                0 <= k < tried.len() ==> if monitor {
                    monitor_attempt(#[trigger] parts[k], tried[k], connected && k == tried.len() - 1, a2dp)
                } else {
                    daemon_attempt(#[trigger] parts[k], tried[k], connected && k == tried.len() - 1, a2dp)
                }
            &&& rest == concat_calls(parts) || (!connected && interrupted_by(rest, concat_calls(parts)))
            &&& !connected && tried != due ==> interrupted_by(rest, concat_calls(parts))
        }
}

/// What one round did: how long to wait before the next one, the devices
/// it tried, and the one it connected (whose A2DP profile it then asked
/// for, with that outcome).
pub struct Round {
    pub sleep_ms: u64,
    pub tried: Vec<String>,
    pub connected: Option<String>,
    pub a2dp_selected: bool,
}

/// The devices a round tried.
pub open spec fn tried_views(r: Round) -> Seq<Seq<char>> {
    string_views(r.tried@)
}

fn is_due(log: &AttemptLog, address: &str, now: u64) -> (r: bool)
    requires
        log.wf(),
    ensures
        r == due(log.attempts(), address@, now),
{
    match log.last_attempt(address) {
        Some(last) => now >= last && now - last >= RETRY_COOLDOWN_MS,
        None => true,
    }
}

/// One round of the auto-connect daemon.
///
/// With a device connected, discovery is stopped (it competes with A2DP for
/// the radio), the log is cleared and the next round comes after the
/// connected interval. Otherwise, with no trusted device, discovery is
/// stopped; with trusted devices, discovery is kept running and each
/// trusted device that is due is tried in turn, until one connects (its
/// best A2DP profile is then selected after a short pause) or another
/// device turns up connected.
pub fn daemon_round<C, F, W, K, S, P>(
    log: &mut AttemptLog,
    now: u64,
    slot: &mut Option<C>,
    run: &mut Runner<F>,
    try_wait: &W,
    reap: &K,
    spawn: &S,
    pause: &P,
) -> (r: Round)
    where
        F: Fn(Invocation) -> Option<ProcessOutput>,
        W: Fn(C) -> (C, WaitStatus),
        K: Fn(C),
        S: Fn(Invocation) -> Option<C>,
        P: Fn(u64),
    requires
        accepts_all(old(run).runs()),
        old(log).wf(),
        forall|c: C| #[trigger] call_requires(*try_wait, (c,)),
        forall|c: C| #[trigger] call_requires(*reap, (c,)),
        forall|i: Invocation| #[trigger] call_requires(*spawn, (i,)),
        forall|ms: u64| #[trigger] call_requires(*pause, (ms,)),
    ensures
        final(log).wf(),
        grows(*old(run), *final(run)),
        forall|k: int|
            0 <= k < tried_views(r).len() ==> due(old(log).attempts(), #[trigger] tried_views(r)[k], now),
        forall|i: int, j: int| 0 <= i < j < tried_views(r).len() ==> tried_views(r)[i] != tried_views(r)[j],
        ({
            let calls = added(*old(run), *final(run));
            &&& calls.len() >= 1
            &&& lookup(calls[0])
            &&& if connected_from(calls[0].out) is Some {
                &&& r.sleep_ms == CONNECTED_POLL_MS
                &&& final(log).attempts() == Map::<Seq<char>, u64>::empty()
                &&& tried_views(r).len() == 0
                &&& r.connected is None
                &&& *final(slot) is None
                &&& calls.len() <= 2
                &&& calls.len() == 2 ==> bt_call(calls[1], 5, "scan"@, "off"@)
                &&& *old(slot) is None ==> calls.len() == 1
                &&& *old(slot) matches Some(c) ==> exists|c2: C, st: WaitStatus|
                    #[trigger] call_ensures(*try_wait, (c,), (c2, st)) && (st == WaitStatus::Running <==> calls.len() == 2)
            } else {
                &&& r.sleep_ms == IDLE_POLL_MS
                &&& final(log).attempts() == record_all(old(log).attempts(), tried_views(r), now)
                &&& exists|nt: int, ns: int, t: Seq<Seq<char>>|
                    #![trigger trusted_from(calls.subrange(1, 1 + nt), t), calls.skip(1 + nt + ns)]
                    {
                        &&& 0 <= nt && 0 <= ns && 1 + nt + ns <= calls.len()
                        &&& trusted_from(calls.subrange(1, 1 + nt), t)
                        &&& *old(slot) is None ==> ns == (if t.len() == 0 { 0int } else { 3int })
                        &&& *old(slot) matches Some(c) ==> exists|c2: C, st: WaitStatus|
                            #[trigger] call_ensures(*try_wait, (c,), (c2, st)) && (st == WaitStatus::Running <==> ns
                                == (if t.len() == 0 { 1int } else { 0int }))
                        &&& if t.len() == 0 {
                            &&& ns == 0 || (ns == 1 && bt_call(calls[1 + nt], 5, "scan"@, "off"@))
                            &&& 1 + nt + ns == calls.len()
                            &&& *final(slot) is None
                        } else {
                            ns == 0 || (ns == 3 && bt_call(calls[1 + nt], 5, "scan"@, "off"@) && bt_call(
                                calls[2 + nt],
                                5,
                                "power"@,
                                "on"@,
                            ) && started(calls[3 + nt], "bluetoothctl"@, bt_args(SCAN_SESSION_SECS as u32, "scan"@, "on"@)))
                        }
                        &&& prefix_of(tried_views(r), due_devices(t, old(log).attempts(), now))
                        &&& attempts_of(
                            calls.skip(1 + nt + ns),
                            tried_views(r),
                            r.connected is Some,
                            r.a2dp_selected,
                            due_devices(t, old(log).attempts(), now),
                            false,
                        )
                    }
            }
        }),
        r.connected matches Some(c) ==> tried_views(r).len() > 0 && c@ == tried_views(r).last() && *final(slot) is None,
        r.connected is Some ==> call_ensures(*pause, (SETTLE_MS,), ()),
{
    let ghost r0 = *run;
    let first = get_connected_address(run);
    let ghost r1 = *run;
    let ghost o = added(r0, r1)[0].out;
    if first.is_some() {
        if scan_running(slot, try_wait) {
            stop_scan(slot, reap, run);
            proof {
                lemma_grows_trans(r0, r1, *run);
            }
        }
        log.clear();
        let tried: Vec<String> = Vec::new();
        let r = Round { sleep_ms: CONNECTED_POLL_MS, tried, connected: None, a2dp_selected: false };
        assert(tried_views(r) =~= Seq::<Seq<char>>::empty());
        assert(connected_from(o) is Some);
        return r;
    }
    let ghost log0 = log.attempts();
    let trusted = list_trusted(run);
    let ghost r2 = *run;
    let ghost nt = added(r1, r2).len() as int;
    let ghost t = string_views(trusted@);
    proof {
        lemma_grows_trans(r0, r1, r2);
        assert(added(r0, r2).subrange(1, 1 + nt) =~= added(r1, r2));
    }
    if trusted.len() == 0 {
        if scan_running(slot, try_wait) {
            stop_scan(slot, reap, run);
        }
        proof {
            if run.history().len() == r2.history().len() {
                assert(run.history() =~= r2.history());
                lemma_grows_refl(r2);
            }
            lemma_grows_trans(r0, r2, *run);
            assert(added(r0, *run).subrange(1, 1 + nt) =~= added(r1, r2));
        }
        let tried: Vec<String> = Vec::new();
        let r = Round { sleep_ms: IDLE_POLL_MS, tried, connected: None, a2dp_selected: false };
        assert(tried_views(r) =~= Seq::<Seq<char>>::empty());
        assert(t =~= Seq::<Seq<char>>::empty());
        assert(due_devices(t, log0, now) =~= Seq::<Seq<char>>::empty());
        assert(due_devices(t, log0, now).take(0) =~= Seq::<Seq<char>>::empty());
        proof {
            let calls = added(r0, *run);
            let ns = calls.len() - 1 - nt;
            assert(calls.skip(1 + nt + ns) =~= Seq::<Call>::empty());
            assert(concat_calls(Seq::<Seq<Call>>::empty()) =~= Seq::<Call>::empty());
            assert(attempts_of(calls.skip(1 + nt + ns), tried_views(r), false, false, due_devices(t, log0, now), false));
            assert(trusted_from(calls.subrange(1, 1 + nt), t));
        }
        assert(connected_from(o) is None);
        return r;
    }
    if !scan_running(slot, try_wait) {
        start_scan(slot, reap, spawn, run);
    }
    let ghost r3 = *run;
    proof {
        if run.history().len() == r2.history().len() {
            assert(run.history() =~= r2.history());
            lemma_grows_refl(r2);
        }
        lemma_grows_trans(r0, r2, r3);
    }
    let ghost ns = added(r2, r3).len() as int;
    let mut tried: Vec<String> = Vec::new();
    let mut connected: Option<String> = None;
    let mut a2dp_selected = false;
    let ghost mut interrupted = false;
    let ghost mut parts: Seq<Seq<Call>> = Seq::empty();
    let mut k: usize = 0;
    assert(t.take(0) =~= Seq::<Seq<char>>::empty());
    assert(string_views(tried@) =~= Seq::<Seq<char>>::empty());
    assert(t.take(t.len() as int) =~= t);
    assert(due_devices(t, log0, now).take(0) =~= Seq::<Seq<char>>::empty());
    proof {
        lemma_grows_refl(r3);
    }
    while k < trusted.len()
        invariant_except_break
            connected is None,
            !interrupted,
        invariant
            accepts_all(r3.runs()),
            grows(r3, *run),
            log.wf(),
            k <= trusted.len(),
            t == string_views(trusted@),
            t.no_duplicates(),
            t.take(t.len() as int) == t,
            forall|c: C| #[trigger] call_requires(*try_wait, (c,)),
            forall|c: C| #[trigger] call_requires(*reap, (c,)),
            forall|i: Invocation| #[trigger] call_requires(*spawn, (i,)),
            forall|ms: u64| #[trigger] call_requires(*pause, (ms,)),
            log.attempts() == record_all(log0, string_views(tried@), now),
            forall|j: int| 0 <= j < string_views(tried@).len() ==> due(log0, #[trigger] string_views(tried@)[j], now),
            forall|i: int, j: int| 0 <= i < j < string_views(tried@).len() ==> string_views(tried@)[i] != string_views(tried@)[j],
            connected matches Some(c) ==> string_views(tried@).len() > 0 && c@ == string_views(tried@).last() && *slot is None,
            connected is Some ==> call_ensures(*pause, (SETTLE_MS,), ()),
            !interrupted && connected is None ==> string_views(tried@) == due_devices(t.take(k as int), log0, now),
            prefix_of(string_views(tried@), due_devices(t, log0, now)),
            parts.len() == string_views(tried@).len(),
            forall|j: int|
                0 <= j < parts.len() ==> daemon_attempt(
                    #[trigger] parts[j],
                    string_views(tried@)[j],
                    connected is Some && j == parts.len() - 1,
                    a2dp_selected,
                ),
            !interrupted ==> added(r3, *run) == concat_calls(parts),
            interrupted ==> connected is None && interrupted_by(added(r3, *run), concat_calls(parts)),
        ensures
            !interrupted && connected is None ==> k == trusted.len(),
        decreases trusted.len() - k,
    {
        let address = trusted[k].as_str();
        proof {
            assert(t[k as int] == address@);
            assert(t.take(k + 1).drop_last() =~= t.take(k as int));
            assert(t.take(k + 1).last() == address@);
            lemma_not_before(t, k as int);
            lemma_due_devices_within(t.take(k as int), log0, now);
            assert(!string_views(tried@).contains(address@));
            lemma_record_all_other(log0, string_views(tried@), now, address@);
            lemma_due_devices_prefix(t, k + 1, log0, now);
        }
        if !is_due(log, address, now) {
            k += 1;
            continue;
        }
        let ghost ra = *run;
        let c0 = get_connected_address(run);
        let ghost rb = *run;
        proof {
            lemma_grows_trans(r3, ra, rb);
        }
        if c0.is_some() {
            proof {
                interrupted = true;
                assert(added(r3, rb).take(concat_calls(parts).len() as int) =~= concat_calls(parts));
            }
            break;
        }
        log.record(address, now);
        let ghost before = string_views(tried@);
        tried.push(owned(address));
        assert(string_views(tried@) =~= before.push(address@));
        assert(before.push(address@).drop_last() =~= before);
        proof {
            assert forall|i: int, j: int| 0 <= i < j < string_views(tried@).len() implies string_views(tried@)[i] != string_views(tried@)[j] by {
                if j == before.len() {
                    assert(before.contains(before[i]));
                }
            }
        }
        let ok = connect_trusted_device(address, run);
        let ghost rc = *run;
        let now_connected = get_connected_address(run);
        let ghost rd = *run;
        let hit = match &now_connected {
            Some(c) => same(&chars_of(c.as_str()), &chars_of(address)),
            None => false,
        };
        proof {
            lemma_grows_trans(ra, rb, rc);
            lemma_grows_trans(ra, rc, rd);
            let part = added(ra, rd);
            let tc = added(rb, rc);
            assert(part =~= added(ra, rb) + tc + added(rc, rd));
            assert(part[1] == tc[0]);
            assert(part.subrange(1, 1 + inner_len(part, address@)) =~= tc);
            assert(trusted_connect(part.subrange(1, 1 + inner_len(part, address@)), address@, ok));
        }
        if hit {
            stop_scan(slot, reap, run);
            let ghost re = *run;
            pause(SETTLE_MS);
            a2dp_selected = force_a2dp_profile(address, run);
            connected = Some(owned(address));
            proof {
                lemma_grows_trans(ra, rd, re);
                lemma_grows_trans(ra, re, *run);
                let part = added(ra, *run);
                let n = inner_len(added(ra, rd), address@);
                assert(part =~= added(ra, rd) + added(rd, re) + added(re, *run));
                assert(part.subrange(0, 2 + n) =~= added(ra, rd));
                assert(part.skip(3 + n) =~= added(re, *run));
                assert(part.subrange(1, 1 + n) =~= added(ra, rd).subrange(1, 1 + n));
                assert(daemon_attempt(part, address@, true, a2dp_selected));
                lemma_grows_trans(r3, ra, *run);
                let np = parts.push(part);
                assert(np.drop_last() =~= parts);
                assert(concat_calls(np) =~= concat_calls(parts) + part);
                assert forall|j: int| 0 <= j < np.len() implies daemon_attempt(
                    #[trigger] np[j],
                    string_views(tried@)[j],
                    j == np.len() - 1,
                    a2dp_selected,
                ) by {
                    if j < parts.len() {
                        assert(np[j] == parts[j]);
                    }
                }
                parts = np;
            }
            break;
        }
        proof {
            lemma_grows_trans(r3, ra, rd);
            let part = added(ra, rd);
            assert(daemon_attempt(part, address@, false, a2dp_selected));
            let np = parts.push(part);
            assert(np.drop_last() =~= parts);
            assert(concat_calls(np) =~= concat_calls(parts) + part);
            assert forall|j: int| 0 <= j < np.len() implies daemon_attempt(
                #[trigger] np[j],
                string_views(tried@)[j],
                false,
                a2dp_selected,
            ) by {
                if j < parts.len() {
                    assert(np[j] == parts[j]);
                }
            }
            parts = np;
        }
        k += 1;
    }
    let r = Round { sleep_ms: IDLE_POLL_MS, tried, connected, a2dp_selected };
    assert(connected_from(o) is None);
    proof {
        lemma_grows_trans(r0, r3, *run);
        let calls = added(r0, *run);
        assert(calls =~= added(r0, r1) + added(r1, r2) + added(r2, r3) + added(r3, *run));
        assert(calls.subrange(1, 1 + nt) =~= added(r1, r2));
        assert(calls.skip(1 + nt + ns) =~= added(r3, *run));
        if ns == 3 {
            assert(calls[1 + nt] == added(r2, r3)[0]);
            assert(calls[2 + nt] == added(r2, r3)[1]);
            assert(calls[3 + nt] == added(r2, r3)[2]);
        }
        assert(trusted_from(calls.subrange(1, 1 + nt), t));
        assert(attempts_of(calls.skip(1 + nt + ns), tried_views(r), r.connected is Some, r.a2dp_selected, due_devices(t, log0, now), false));
    }
    r
}

/// One round of the connection monitor that runs beside the Bluetooth
/// window.
///
/// With a device connected, discovery is stopped. Otherwise each trusted
/// device that is due is tried in turn, until one connection attempt
/// reports success (discovery is then stopped and, after a short pause, the
/// best A2DP profile selected) or another device turns up connected. Unlike
/// the daemon, the monitor keeps its log while a device is connected and
/// trusts the outcome that the connection attempt reports.
pub fn monitor_round<C, F, K, P>(
    log: &mut AttemptLog,
    now: u64,
    slot: &mut Option<C>,
    run: &mut Runner<F>,
    reap: &K,
    pause: &P,
) -> (r: Round)
    where
        F: Fn(Invocation) -> Option<ProcessOutput>,
        K: Fn(C),
        P: Fn(u64),
    requires
        accepts_all(old(run).runs()),
        old(log).wf(),
        forall|c: C| #[trigger] call_requires(*reap, (c,)),
        forall|ms: u64| #[trigger] call_requires(*pause, (ms,)),
    ensures
        final(log).wf(),
        grows(*old(run), *final(run)),
        r.sleep_ms == MONITOR_POLL_MS,
        forall|k: int|
            0 <= k < tried_views(r).len() ==> due(old(log).attempts(), #[trigger] tried_views(r)[k], now),
        forall|i: int, j: int| 0 <= i < j < tried_views(r).len() ==> tried_views(r)[i] != tried_views(r)[j],
        final(log).attempts() == record_all(old(log).attempts(), tried_views(r), now),
        ({
            let calls = added(*old(run), *final(run));
            &&& calls.len() >= 1
            &&& lookup(calls[0])
            &&& if connected_from(calls[0].out) is Some {
                &&& tried_views(r).len() == 0
                &&& r.connected is None
                &&& *final(slot) is None
                &&& calls.len() == 2
                &&& bt_call(calls[1], 5, "scan"@, "off"@)
            } else {
                exists|nt: int, t: Seq<Seq<char>>|
                    #![trigger trusted_from(calls.subrange(1, 1 + nt), t)]
                    {
                        &&& 0 <= nt && 1 + nt <= calls.len()
                        &&& trusted_from(calls.subrange(1, 1 + nt), t)
                        &&& prefix_of(tried_views(r), due_devices(t, old(log).attempts(), now))
                        &&& attempts_of(
                            calls.skip(1 + nt),
                            tried_views(r),
                            r.connected is Some,
                            r.a2dp_selected,
                            due_devices(t, old(log).attempts(), now),
                            true,
                        )
                    }
            }
        }),
        r.connected matches Some(c) ==> tried_views(r).len() > 0 && c@ == tried_views(r).last() && *final(slot) is None,
        r.connected is Some ==> call_ensures(*pause, (SETTLE_MS,), ()),
{
    let ghost log0 = log.attempts();
    let ghost r0 = *run;
    let first = get_connected_address(run);
    let ghost r1 = *run;
    let ghost o = added(r0, r1)[0].out;
    if first.is_some() {
        stop_scan(slot, reap, run);
        proof {
            lemma_grows_trans(r0, r1, *run);
        }
        let tried: Vec<String> = Vec::new();
        let r = Round { sleep_ms: MONITOR_POLL_MS, tried, connected: None, a2dp_selected: false };
        assert(tried_views(r) =~= Seq::<Seq<char>>::empty());
        assert(connected_from(o) is Some);
        return r;
    }
    let trusted = list_trusted(run);
    let ghost r3 = *run;
    let ghost nt = added(r1, r3).len() as int;
    let ghost t = string_views(trusted@);
    proof {
        lemma_grows_trans(r0, r1, r3);
    }
    let mut tried: Vec<String> = Vec::new();
    let mut connected: Option<String> = None;
    let mut a2dp_selected = false;
    let ghost mut interrupted = false;
    let ghost mut parts: Seq<Seq<Call>> = Seq::empty();
    let mut k: usize = 0;
    assert(string_views(tried@) =~= Seq::<Seq<char>>::empty());
    assert(t.take(0) =~= Seq::<Seq<char>>::empty());
    assert(t.take(t.len() as int) =~= t);
    assert(due_devices(t, log0, now).take(0) =~= Seq::<Seq<char>>::empty());
    proof {
        lemma_grows_refl(r3);
    }
    while k < trusted.len()
        invariant_except_break
            connected is None,
            !interrupted,
        invariant
            accepts_all(r3.runs()),
            grows(r3, *run),
            log.wf(),
            k <= trusted.len(),
            t == string_views(trusted@),
            t.no_duplicates(),
            t.take(t.len() as int) == t,
            forall|c: C| #[trigger] call_requires(*reap, (c,)),
            forall|ms: u64| #[trigger] call_requires(*pause, (ms,)),
            log.attempts() == record_all(log0, string_views(tried@), now),
            forall|j: int| 0 <= j < string_views(tried@).len() ==> due(log0, #[trigger] string_views(tried@)[j], now),
            forall|i: int, j: int| 0 <= i < j < string_views(tried@).len() ==> string_views(tried@)[i] != string_views(tried@)[j],
            connected matches Some(c) ==> string_views(tried@).len() > 0 && c@ == string_views(tried@).last() && *slot is None,
            connected is Some ==> call_ensures(*pause, (SETTLE_MS,), ()),
            !interrupted && connected is None ==> string_views(tried@) == due_devices(t.take(k as int), log0, now),
            prefix_of(string_views(tried@), due_devices(t, log0, now)),
            parts.len() == string_views(tried@).len(),
            forall|j: int|
                0 <= j < parts.len() ==> monitor_attempt(
                    #[trigger] parts[j],
                    string_views(tried@)[j],
                    connected is Some && j == parts.len() - 1,
                    a2dp_selected,
                ),
            !interrupted ==> added(r3, *run) == concat_calls(parts),
            interrupted ==> connected is None && interrupted_by(added(r3, *run), concat_calls(parts)),
        ensures
            !interrupted && connected is None ==> k == trusted.len(),
        decreases trusted.len() - k,
    {
        let address = trusted[k].as_str();
        proof {
            assert(t[k as int] == address@);
            assert(t.take(k + 1).drop_last() =~= t.take(k as int));
            assert(t.take(k + 1).last() == address@);
            lemma_not_before(t, k as int);
            lemma_due_devices_within(t.take(k as int), log0, now);
            assert(!string_views(tried@).contains(address@));
            lemma_record_all_other(log0, string_views(tried@), now, address@);
            lemma_due_devices_prefix(t, k + 1, log0, now);
        }
        if !is_due(log, address, now) {
            k += 1;
            continue;
        }
        let ghost ra = *run;
        let c0 = get_connected_address(run);
        let ghost rb = *run;
        proof {
            lemma_grows_trans(r3, ra, rb);
        }
        if c0.is_some() {
            proof {
                interrupted = true;
                assert(added(r3, rb).take(concat_calls(parts).len() as int) =~= concat_calls(parts));
            }
            break;
        }
        log.record(address, now);
        let ghost before = string_views(tried@);
        tried.push(owned(address));
        assert(string_views(tried@) =~= before.push(address@));
        assert(before.push(address@).drop_last() =~= before);
        proof {
            assert forall|i: int, j: int| 0 <= i < j < string_views(tried@).len() implies string_views(tried@)[i] != string_views(tried@)[j] by {
                if j == before.len() {
                    assert(before.contains(before[i]));
                }
            }
        }
        let ok = connect_trusted_device(address, run);
        let ghost rc = *run;
        proof {
            lemma_grows_trans(ra, rb, rc);
            let part = added(ra, rc);
            let tc = added(rb, rc);
            assert(part =~= added(ra, rb) + tc);
            assert(part[1] == tc[0]);
            assert(part.subrange(1, 1 + inner_len(part, address@)) =~= tc);
        }
        if ok {
            stop_scan(slot, reap, run);
            let ghost re = *run;
            pause(SETTLE_MS);
            a2dp_selected = force_a2dp_profile(address, run);
            connected = Some(owned(address));
            proof {
                lemma_grows_trans(ra, rc, re);
                lemma_grows_trans(ra, re, *run);
                let part = added(ra, *run);
                let n = inner_len(added(ra, rc), address@);
                assert(part =~= added(ra, rc) + added(rc, re) + added(re, *run));
                assert(part.subrange(0, 1 + n) =~= added(ra, rc));
                assert(part.skip(2 + n) =~= added(re, *run));
                assert(part.subrange(1, 1 + n) =~= added(ra, rc).subrange(1, 1 + n));
                assert(monitor_attempt(part, address@, true, a2dp_selected));
                lemma_grows_trans(r3, ra, *run);
                let np = parts.push(part);
                assert(np.drop_last() =~= parts);
                assert(concat_calls(np) =~= concat_calls(parts) + part);
                assert forall|j: int| 0 <= j < np.len() implies monitor_attempt(
                    #[trigger] np[j],
                    string_views(tried@)[j],
                    j == np.len() - 1,
                    a2dp_selected,
                ) by {
                    if j < parts.len() {
                        assert(np[j] == parts[j]);
                    }
                }
                parts = np;
            }
            break;
        }
        proof {
            lemma_grows_trans(r3, ra, rc);
            let part = added(ra, rc);
            assert(monitor_attempt(part, address@, false, a2dp_selected));
            let np = parts.push(part);
            assert(np.drop_last() =~= parts);
            assert(concat_calls(np) =~= concat_calls(parts) + part);
            assert forall|j: int| 0 <= j < np.len() implies monitor_attempt(
                #[trigger] np[j],
                string_views(tried@)[j],
                false,
                a2dp_selected,
            ) by {
                if j < parts.len() {
                    assert(np[j] == parts[j]);
                }
            }
            parts = np;
        }
        k += 1;
    }
    let r = Round { sleep_ms: MONITOR_POLL_MS, tried, connected, a2dp_selected };
    assert(connected_from(o) is None);
    proof {
        lemma_grows_trans(r0, r3, *run);
        let calls = added(r0, *run);
        assert(calls =~= added(r0, r1) + added(r1, r3) + added(r3, *run));
        assert(calls.subrange(1, 1 + nt) =~= added(r1, r3));
        assert(calls.skip(1 + nt) =~= added(r3, *run));
        assert(trusted_from(calls.subrange(1, 1 + nt), t));
        assert(attempts_of(calls.skip(1 + nt), tried_views(r), r.connected is Some, r.a2dp_selected, due_devices(t, log0, now), true));
    }
    r
}

/// The due devices of a beginning of the list are a beginning of the due
/// devices of the whole list.
pub proof fn lemma_due_devices_prefix(t: Seq<Seq<char>>, k: int, log: Map<Seq<char>, u64>, now: u64)
    requires
        0 <= k <= t.len(),
    ensures
        prefix_of(due_devices(t.take(k), log, now), due_devices(t, log, now)),
    decreases t.len(),
{
    if k == t.len() {
        assert(t.take(k) =~= t);
        let d = due_devices(t, log, now);
        assert(d.take(d.len() as int) =~= d);
    } else {
        assert(t.drop_last().take(k) =~= t.take(k));
        lemma_due_devices_prefix(t.drop_last(), k, log, now);
        let a = due_devices(t.take(k), log, now);
        let b = due_devices(t.drop_last(), log, now);
        if due(log, t.last(), now) {
            assert(b.push(t.last()).take(a.len() as int) =~= b.take(a.len() as int));
        }
    }
}

/// Every due device is one of the listed devices.
pub proof fn lemma_due_devices_within(t: Seq<Seq<char>>, log: Map<Seq<char>, u64>, now: u64)
    ensures
        forall|i: int| 0 <= i < due_devices(t, log, now).len() ==> t.contains(#[trigger] due_devices(t, log, now)[i]),
    decreases t.len(),
{
    if t.len() > 0 {
        lemma_due_devices_within(t.drop_last(), log, now);
        let d = due_devices(t.drop_last(), log, now);
        assert forall|i: int| 0 <= i < d.len() implies t.contains(#[trigger] d[i]) by {
            let w = choose|j: int| 0 <= j < t.drop_last().len() && t.drop_last()[j] == d[i];
            assert(t[w] == d[i]);
        }
        assert(t[t.len() - 1] == t.last());
    }
}

/// A device is not among those listed before it in a list without repeats.
proof fn lemma_not_before(t: Seq<Seq<char>>, k: int)
    requires
        t.no_duplicates(),
        0 <= k < t.len(),
    ensures
        !t.take(k).contains(t[k]),
{
    if t.take(k).contains(t[k]) {
        let w = choose|j: int| 0 <= j < t.take(k).len() && t.take(k)[j] == t[k];
        assert(t[w] == t[k]);
    }
}

/// A device tried in one round is tried again only once the cooldown has
/// passed since that round (as long as the log was not cleared between).
pub proof fn lemma_retry_waits_for_cooldown(
    log: Map<Seq<char>, u64>,
    tried: Seq<Seq<char>>,
    t1: u64,
    address: Seq<char>,
    t2: u64,
)
    requires
        tried.contains(address),
        due(record_all(log, tried, t1), address, t2),
    ensures
        t2 >= t1 + RETRY_COOLDOWN_MS,
{
    lemma_record_all_contains(log, tried, t1, address);
}

/// What an attempt records is what a later look-up of that device reads
/// back; every other device keeps its entry.
pub proof fn lemma_record_then_read(log: Map<Seq<char>, u64>, address: Seq<char>, now: u64, other: Seq<char>)
    ensures
        log.insert(address, now).contains_key(address),
        log.insert(address, now)[address] == now,
        other != address ==> log.insert(address, now).contains_key(other) == log.contains_key(other),
        other != address && log.contains_key(other) ==> log.insert(address, now)[other] == log[other],
{
}

/// A device outside `tried` keeps what the log held for it.
pub proof fn lemma_record_all_other(log: Map<Seq<char>, u64>, tried: Seq<Seq<char>>, now: u64, address: Seq<char>)
    requires
        !tried.contains(address),
    ensures
        record_all(log, tried, now).contains_key(address) == log.contains_key(address),
        log.contains_key(address) ==> record_all(log, tried, now)[address] == log[address],
    decreases tried.len(),
{
    if tried.len() > 0 {
        assert forall|i: int| 0 <= i < tried.drop_last().len() implies tried.drop_last()[i] != address by {
            assert(tried[i] == tried.drop_last()[i]);
        }
        assert(tried[tried.len() - 1] == tried.last());
        lemma_record_all_other(log, tried.drop_last(), now, address);
    }
}

/// Every device of `tried` is logged at `now`.
pub proof fn lemma_record_all_contains(log: Map<Seq<char>, u64>, tried: Seq<Seq<char>>, now: u64, address: Seq<char>)
    requires
        tried.contains(address),
    ensures
        record_all(log, tried, now).contains_key(address),
        record_all(log, tried, now)[address] == now,
    decreases tried.len(),
{
    if tried.last() != address {
        let w = choose|i: int| 0 <= i < tried.len() && tried[i] == address;
        assert(tried.drop_last()[w] == address);
        lemma_record_all_contains(log, tried.drop_last(), now, address);
    }
}

} // verus!
