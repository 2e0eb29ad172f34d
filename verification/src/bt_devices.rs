//! Looking devices up: batteries over D-Bus (`busctl`), the full record of a
//! device, and the device lists.
use vstd::prelude::*;
use crate::text::{
    chars_of, string_of, contains, includes, find, find_in, starts_with, begins_with, trim,
    trimmed, lines, lines_of, same, slice, parse_i32, read_i32, views, replace_char, replaced,
    concat,
};
use crate::process::{
    Invocation, ProcessOutput, accepts_all, invokes, stdout_of, succeeded, opt_view, owned,
    invocation1, run_it, stdout_text, success_of, string_views, Call, Runner, grows, added, only,
    made, lemma_grows_trans, lemma_grows_refl,
};
use crate::bt_info::{
    device_from_info, info_readable, parse_device_info, reconciled, reconcile_batteries,
    device_entries, device_entries_in, entry_views, DeviceEntry, listed_device, listed_device_of,
    device_opt_view, sort_devices, device_order,
};
use crate::audio::{get_audio_profiles, profiles_from};
use crate::bluetooth::lookup;
use crate::order::is_stable_sort;
use crate::bluetooth::{
    Battery, BatteryView, BluetoothDevice, BluetoothDeviceView, battery_views, profile_views,
    valid_mac, is_valid_mac, battery_label, battery_label_of,
};

verus! {

// ---------------------------------------------------------------------------
// Batteries
// ---------------------------------------------------------------------------

/// The BlueZ object id of a device: `dev_` and its address with `'_'` for
/// `':'`.
pub open spec fn device_id(address: Seq<char>) -> Seq<char> {
    "dev_"@ + replace_char(address, ':', '_')
}

/// The arguments of `busctl` reading the battery percentage of an object.
pub open spec fn battery_prop_args(path: Seq<char>) -> Seq<Seq<char>> {
    seq!["--system"@, "get-property"@, "org.bluez"@, path, "org.bluez.Battery1"@, "Percentage"@]
}

/// The `busctl` arguments that list BlueZ's object tree.
pub open spec fn tree_args() -> Seq<Seq<char>> {
    seq!["--system"@, "tree"@, "org.bluez"@]
}

/// The percentage in `busctl get-property` output `y <number>`.
pub open spec fn percentage_in(text: Seq<char>) -> Option<i32> {
    let t = trim(text);
    if starts_with(t, "y "@) {
        parse_i32(trim(t.skip(2)))
    } else {
        None
    }
}

/// The percentage a property read reported, when it ran with success.
pub open spec fn percentage_from(out: Option<ProcessOutput>) -> Option<i32> {
    match out {
        Some(o) => if o.success {
            percentage_in(o.stdout@)
        } else {
            None
        },
        None => None,
    }
}

/// The object paths in `busctl tree` lines (from "/org/bluez/" to the end of
/// the line, trimmed) that mention the device id, each kept once.
pub open spec fn tree_paths(ls: Seq<Seq<char>>, dev_id: Seq<char>) -> Seq<Seq<char>>
    decreases ls.len(),
{
    if ls.len() == 0 {
        Seq::empty()
    } else {
        let acc = tree_paths(ls.drop_last(), dev_id);
        match find(ls.last(), "/org/bluez/"@) {
            Some(idx) => {
                let path = trim(ls.last().skip(idx));
                if contains(path, dev_id) && !acc.contains(path) {
                    acc.push(path)
                } else {
                    acc
                }
            },
            None => acc,
        }
    }
}

/// The object path a `busctl tree` line shows: from "/org/bluez/" to the
/// end of the line, trimmed.
pub open spec fn object_path_on(line: Seq<char>) -> Option<Seq<char>> {
    match find(line, "/org/bluez/"@) {
        Some(idx) => Some(trim(line.skip(idx))),
        None => None,
    }
}

/// The device's battery objects found in a `busctl tree` listing are the
/// object paths of its lines that mention the device id, each once: every
/// one found is such a path, and every such path is found.
pub proof fn lemma_tree_paths_of_device(ls: Seq<Seq<char>>, dev_id: Seq<char>)
    ensures
        tree_paths(ls, dev_id).no_duplicates(),
        forall|k: int|
            0 <= k < tree_paths(ls, dev_id).len() ==> contains(#[trigger] tree_paths(ls, dev_id)[k], dev_id) && exists|i: int|
                0 <= i < ls.len() && #[trigger] object_path_on(ls[i]) == Some(tree_paths(ls, dev_id)[k]),
        forall|i: int|
            0 <= i < ls.len() ==> (#[trigger] object_path_on(ls[i]) matches Some(p) ==> (contains(p, dev_id) ==> tree_paths(
                ls,
                dev_id,
            ).contains(p))),
    decreases ls.len(),
{
    if ls.len() > 0 {
        let n1 = ls.len() - 1;
        let ls2 = ls.drop_last();
        lemma_tree_paths_of_device(ls2, dev_id);
        let acc = tree_paths(ls2, dev_id);
        let r = tree_paths(ls, dev_id);
        assert forall|i: int| 0 <= i < n1 implies ls2[i] == ls[i] by {}
        assert(object_path_on(ls[n1]) == object_path_on(ls.last()));
        assert forall|k: int| 0 <= k < r.len() implies contains(#[trigger] r[k], dev_id) && exists|i: int|
            0 <= i < ls.len() && #[trigger] object_path_on(ls[i]) == Some(r[k]) by {
            if k < acc.len() {
                assert(r[k] == acc[k]);
                let i = choose|i: int| 0 <= i < ls2.len() && #[trigger] object_path_on(ls2[i]) == Some(acc[k]);
                assert(object_path_on(ls[i]) == Some(r[k]));
            } else {
                assert(object_path_on(ls[n1]) == Some(r[k]));
            }
        }
        assert forall|i: int| 0 <= i < ls.len() implies (#[trigger] object_path_on(ls[i]) matches Some(p) ==> (contains(p, dev_id)
            ==> r.contains(p))) by {
            if let Some(p) = object_path_on(ls[i]) {
                if contains(p, dev_id) {
                    if i < n1 {
                        assert(object_path_on(ls2[i]) == Some(p));
                        let w = choose|w: int| 0 <= w < acc.len() && acc[w] == p;
                        assert(r[w] == p);
                    } else if acc.contains(p) {
                        let w = choose|w: int| 0 <= w < acc.len() && acc[w] == p;
                        assert(r[w] == p);
                    } else {
                        assert(r[acc.len() as int] == p);
                    }
                }
            }
        }
        if r != acc {
            let p = r.last();
            assert(r =~= acc.push(p));
            assert(!acc.contains(p));
            assert forall|a: int, b: int| 0 <= a < b < r.len() implies r[a] != r[b] by {
                if b == acc.len() {
                    assert(acc[a] == r[a]);
                } else {
                    assert(acc[a] == r[a] && acc[b] == r[b]);
                }
            }
        }
    }
}

/// The batteries read from the component objects, in path order.
pub open spec fn component_batteries(
    paths: Seq<Seq<char>>,
    outs: Seq<Option<ProcessOutput>>,
    dev_id: Seq<char>,
) -> Seq<BatteryView>
    decreases paths.len(),
{
    if paths.len() == 0 || outs.len() != paths.len() {
        Seq::empty()
    } else {
        let acc = component_batteries(paths.drop_last(), outs.drop_last(), dev_id);
        match percentage_from(outs.last()) {
            Some(p) => acc.push(BatteryView { label: battery_label_of(paths.last(), dev_id), percentage: p }),
            None => acc,
        }
    }
}

/// What each run answered, in order.
pub open spec fn call_outs(calls: Seq<Call>) -> Seq<Option<ProcessOutput>> {
    calls.map_values(|c: Call| c.out)
}

/// `calls` are the runs of the battery lookup of `address`, and `r` its
/// result: none for an invalid address; otherwise a read of the device
/// object's own percentage, which decides when it has one; failing that, a
/// `busctl tree` listing and then a read of every battery object under the
/// device found there, in order, each labelled from its path.
pub open spec fn battery_lookup(calls: Seq<Call>, address: Seq<char>, r: Seq<BatteryView>) -> bool {
    if !valid_mac(address) {
        calls.len() == 0 && r == Seq::<BatteryView>::empty()
    } else {
        let dev_id = device_id(address);
        &&& calls.len() >= 1
        &&& made(calls[0], "busctl"@, battery_prop_args("/org/bluez/hci0/"@ + dev_id))
        &&& match percentage_from(calls[0].out) {
            Some(p) => calls.len() == 1 && r == seq![BatteryView { label: Seq::empty(), percentage: p }],
            None => {
                &&& calls.len() >= 2
                &&& made(calls[1], "busctl"@, tree_args())
                &&& if !succeeded(calls[1].out) {
                    calls.len() == 2 && r == Seq::<BatteryView>::empty()
                } else {
                    let paths = tree_paths(lines(stdout_of(calls[1].out)->0), dev_id);
                    let rest = calls.skip(2);
                    &&& rest.len() == paths.len()
                    &&& forall|k: int| 0 <= k < paths.len() ==> made(#[trigger] rest[k], "busctl"@, battery_prop_args(paths[k]))
                    &&& r == component_batteries(paths, call_outs(rest), dev_id)
                }
            },
        }
    }
}

fn battery_prop_invocation(path: &str) -> (i: Invocation)
    ensures
        invokes(i, "busctl"@, battery_prop_args(path@)),
{
    let mut args: Vec<String> = Vec::new();
    args.push(owned("--system"));
    args.push(owned("get-property"));
    args.push(owned("org.bluez"));
    args.push(owned(path));
    args.push(owned("org.bluez.Battery1"));
    args.push(owned("Percentage"));
    let i = Invocation { program: owned("busctl"), args };
    assert(string_views(i.args@) =~= battery_prop_args(path@));
    i
}

fn percentage_exec(out: &Option<ProcessOutput>) -> (r: Option<i32>)
    ensures
        r == percentage_from(*out),
{
    match out {
        Some(o) => {
            if !o.success {
                return None;
            }
            proof {
                reveal_strlit("y ");
            }
            let t = trimmed(&chars_of(o.stdout.as_str()));
            if begins_with(&t, &chars_of("y ")) {
                let rest = slice(&t, 2, t.len());
                assert(rest@ =~= t@.skip(2));
                read_i32(&trimmed(&rest))
            } else {
                None
            }
        },
        None => None,
    }
}

/// The object paths of the device's batteries in `busctl tree` output.
pub fn tree_paths_in(tree: &str, dev_id: &str) -> (r: Vec<String>)
    ensures
        string_views(r@) == tree_paths(lines(tree@), dev_id@),
{
    let ls = lines_of(&chars_of(tree));
    let id = chars_of(dev_id);
    let marker = chars_of("/org/bluez/");
    let mut paths: Vec<Vec<char>> = Vec::new();
    let mut i: usize = 0;
    while i < ls.len()
        invariant
            i <= ls.len(),
            views(ls@) == lines(tree@),
            id@ == dev_id@,
            marker@ == "/org/bluez/"@,
            views(paths@) == tree_paths(views(ls@).take(i as int), dev_id@),
        decreases ls.len() - i,
    {
        assert(views(ls@).take(i + 1).drop_last() =~= views(ls@).take(i as int));
        assert(views(ls@).take(i + 1).last() == ls@[i as int]@);
        match find_in(&ls[i], &marker) {
            Some(idx) => {
                proof {
                    crate::text::lemma_find_from(ls@[i as int]@, "/org/bluez/"@, 0int);
                }
                let tail = slice(&ls[i], idx, ls[i].len());
                assert(tail@ =~= ls@[i as int]@.skip(idx as int));
                let path = trimmed(&tail);
                if includes(&path, &id) {
                    // is the path there already?
                    let mut seen = false;
                    let mut j: usize = 0;
                    while j < paths.len()
                        invariant
                            j <= paths.len(),
                            seen == views(paths@).take(j as int).contains(path@),
                        decreases paths.len() - j,
                    {
                        let eq = same(&paths[j], &path);
                        proof {
                            let t = views(paths@).take(j + 1);
                            assert(t =~= views(paths@).take(j as int).push(paths@[j as int]@));
                            if eq {
                                assert(t[j as int] == path@);
                            }
                            if views(paths@).take(j as int).contains(path@) {
                                let w = choose|w: int| 0 <= w < j && views(paths@).take(j as int)[w] == path@;
                                assert(t[w] == path@);
                            }
                            if t.contains(path@) && !eq {
                                let w = choose|w: int| 0 <= w < j + 1 && t[w] == path@;
                                assert(views(paths@).take(j as int)[w] == path@);
                            }
                        }
                        seen = seen || eq;
                        j += 1;
                    }
                    assert(views(paths@).take(paths.len() as int) =~= views(paths@));
                    if !seen {
                        let ghost before = views(paths@);
                        let ghost pv = path@;
                        paths.push(path);
                        assert(views(paths@) =~= before.push(pv));
                    }
                }
            },
            None => {},
        }
        i += 1;
    }
    assert(views(ls@).take(ls.len() as int) =~= views(ls@));
    let mut r: Vec<String> = Vec::new();
    let mut k: usize = 0;
    while k < paths.len()
        invariant
            k <= paths.len(),
            string_views(r@) == views(paths@).take(k as int),
        decreases paths.len() - k,
    {
        let ghost before = string_views(r@);
        r.push(string_of(&paths[k]));
        assert(string_views(r@) =~= before.push(paths@[k as int]@));
        assert(views(paths@).take(k + 1) =~= views(paths@).take(k as int).push(paths@[k as int]@));
        k += 1;
    }
    assert(views(paths@).take(paths.len() as int) =~= views(paths@));
    r
}

/// Every battery of the device: the device object's own percentage when it
/// has one, otherwise each battery object under the device (left, right,
/// case, ...).
pub fn get_batteries<F: Fn(Invocation) -> Option<ProcessOutput>>(address: &str, run: &mut Runner<F>) -> (r: Vec<Battery>)
    requires
        accepts_all(old(run).runs()),
    ensures
        grows(*old(run), *final(run)),
        battery_lookup(added(*old(run), *final(run)), address@, battery_views(r@)),
{
    let ghost r0 = *run;
    if !is_valid_mac(address) {
        assert(battery_views(Seq::<Battery>::empty()) =~= Seq::<BatteryView>::empty());
        proof {
            lemma_grows_refl(r0);
        }
        return Vec::new();
    }
    let dev_id_chars = concat(&chars_of("dev_"), &replaced(&chars_of(address), ':', '_'));
    let dev_id = string_of(&dev_id_chars);
    let dev_path_chars = concat(&chars_of("/org/bluez/hci0/"), &dev_id_chars);
    let dev_path = string_of(&dev_path_chars);
    let inv = battery_prop_invocation(dev_path.as_str());
    let ghost p1 = battery_prop_args(dev_path@);
    let out = run_it(run, inv, Ghost("busctl"@), Ghost(p1));
    let ghost r1 = *run;
    assert(dev_path@ == "/org/bluez/hci0/"@ + device_id(address@));
    match percentage_exec(&out) {
        Some(pct) => {
            let mut r: Vec<Battery> = Vec::new();
            r.push(Battery { label: String::new(), percentage: pct });
            assert(battery_views(r@) =~= seq![BatteryView { label: Seq::empty(), percentage: pct }]);
            return r;
        },
        None => {},
    }
    let mut targs: Vec<String> = Vec::new();
    targs.push(owned("--system"));
    targs.push(owned("tree"));
    targs.push(owned("org.bluez"));
    let tinv = Invocation { program: owned("busctl"), args: targs };
    assert(string_views(tinv.args@) =~= tree_args());
    let tout = run_it(run, tinv, Ghost("busctl"@), Ghost(tree_args()));
    let ghost r2 = *run;
    let ghost o2 = tout;
    proof {
        lemma_grows_trans(r0, r1, r2);
    }
    if !success_of(&tout) {
        assert(battery_views(Seq::<Battery>::empty()) =~= Seq::<BatteryView>::empty());
        return Vec::new();
    }
    let tree = stdout_text(tout).unwrap();
    let paths = tree_paths_in(tree.as_str(), dev_id.as_str());
    let ghost gpaths = string_views(paths@);
    let mut r: Vec<Battery> = Vec::new();
    let mut k: usize = 0;
    assert(battery_views(Seq::<Battery>::empty()) =~= Seq::<BatteryView>::empty());
    proof {
        lemma_grows_refl(r2);
        assert(call_outs(added(r2, r2)) =~= Seq::<Option<ProcessOutput>>::empty());
        assert(gpaths.take(0) =~= Seq::<Seq<char>>::empty());
    }
    while k < paths.len()
        invariant
            k <= paths.len(),
            accepts_all(r2.runs()),
            grows(r2, *run),
            gpaths == string_views(paths@),
            dev_id@ == device_id(address@),
            added(r2, *run).len() == k,
            forall|j: int| 0 <= j < k ==> made(#[trigger] added(r2, *run)[j], "busctl"@, battery_prop_args(gpaths[j])),
            battery_views(r@) == component_batteries(gpaths.take(k as int), call_outs(added(r2, *run)), dev_id@),
        decreases paths.len() - k,
    {
        let ghost rb = *run;
        let inv = battery_prop_invocation(paths[k].as_str());
        let ghost pk = battery_prop_args(paths@[k as int]@);
        let out = run_it(run, inv, Ghost("busctl"@), Ghost(pk));
        let ghost before = battery_views(r@);
        proof {
            lemma_grows_trans(r2, rb, *run);
        }
        match percentage_exec(&out) {
            Some(pct) => {
                let label = battery_label(paths[k].as_str(), dev_id.as_str());
                r.push(Battery { label, percentage: pct });
                assert(battery_views(r@) =~= before.push(
                    BatteryView { label: battery_label_of(gpaths[k as int], dev_id@), percentage: pct },
                ));
            },
            None => {},
        }
        proof {
            let outs = call_outs(added(r2, *run));
            assert(gpaths.take(k + 1).drop_last() =~= gpaths.take(k as int));
            assert(outs.drop_last() =~= call_outs(added(r2, rb)));
            assert(gpaths.take(k + 1).last() == gpaths[k as int]);
            assert(outs.last() == out);
            assert forall|j: int| 0 <= j < k + 1 implies made(#[trigger] added(r2, *run)[j], "busctl"@, battery_prop_args(gpaths[j])) by {
                if j < k {
                    assert(added(r2, *run)[j] == added(r2, rb)[j]);
                }
            }
        }
        k += 1;
    }
    proof {
        assert(gpaths.take(paths.len() as int) =~= gpaths);
        lemma_grows_trans(r0, r2, *run);
        let calls = added(r0, *run);
        assert(calls.skip(2) =~= added(r2, *run));
        assert(tree@ == stdout_of(o2)->0);
        assert(gpaths == tree_paths(lines(stdout_of(o2)->0), device_id(address@)));
    }
    r
}


// ---------------------------------------------------------------------------
// Device records
// ---------------------------------------------------------------------------

/// Every successful `bluetoothctl info ...` answer of the runner can be
/// read (see `info_readable`).
pub open spec fn info_answers_readable<F: Fn(Invocation) -> Option<ProcessOutput>>(run: F) -> bool {
    forall|i: Invocation, o: Option<ProcessOutput>|
        #[trigger] call_ensures(run, (i,), o) && i.program@ == "bluetoothctl"@ && string_views(
            i.args@,
        ).len() == 2 && string_views(i.args@)[0] == "info"@ && succeeded(o) ==> info_readable(
            o->0.stdout@,
        )
}

/// The runs of each part, one after the other.
pub open spec fn concat_calls(parts: Seq<Seq<Call>>) -> Seq<Call>
    decreases parts.len(),
{
    if parts.len() == 0 {
        Seq::empty()
    } else {
        concat_calls(parts.drop_last()) + parts.last()
    }
}

/// `calls` are the runs of the lookup of `address`, and `r` its result:
/// `bluetoothctl info <address>`, which decides that there is no record when
/// it fails; otherwise the record it describes, with, when it is connected,
/// the audio profiles of its card (`pactl list cards`) and its batteries
/// (the battery lookup) looked up after it, and its battery values made
/// consistent.
pub open spec fn device_info_result(calls: Seq<Call>, address: Seq<char>, r: Option<BluetoothDeviceView>) -> bool {
    &&& calls.len() >= 1
    &&& made(calls[0], "bluetoothctl"@, seq!["info"@, address])
    &&& if !succeeded(calls[0].out) {
        calls.len() == 1 && r is None
    } else {
        let d = device_from_info(address, calls[0].out->0.stdout@);
        if !d.connected {
            calls.len() == 1 && r == Some(reconciled(d))
        } else {
            &&& calls.len() >= 2
            &&& made(calls[1], "pactl"@, seq!["list"@, "cards"@])
            &&& exists|bats: Seq<BatteryView>|
                #![trigger battery_lookup(calls.skip(2), address, bats)]
                battery_lookup(calls.skip(2), address, bats) && r == Some(
                    reconciled(
                        BluetoothDeviceView {
                            audio_profiles: profiles_from(calls[1].out, address),
                            batteries: bats,
                            ..d
                        },
                    ),
                )
        }
    }
}

/// The full record of a device, or `None` when `bluetoothctl info` fails.
pub fn get_device_info<F: Fn(Invocation) -> Option<ProcessOutput>>(address: &str, run: &mut Runner<F>) -> (r: Option<BluetoothDevice>)
    requires
        accepts_all(old(run).runs()),
        info_answers_readable(old(run).runs()),
    ensures
        grows(*old(run), *final(run)),
        device_info_result(added(*old(run), *final(run)), address@, device_opt_view(r)),
{
    let ghost r0 = *run;
    let inv = crate::process::invocation2("bluetoothctl", "info", address);
    let ghost args = seq!["info"@, address@];
    let ghost gi = inv;
    let out = run_it(run, inv, Ghost("bluetoothctl"@), Ghost(args));
    let ghost r1 = *run;
    if !success_of(&out) {
        return None;
    }
    let text = stdout_text(out).unwrap();
    let mut dev = parse_device_info(address, text.as_str());
    let ghost d = dev@;
    if dev.connected {
        let profiles = get_audio_profiles(address, run);
        let ghost r2 = *run;
        let batteries = get_batteries(address, run);
        dev.audio_profiles = profiles;
        dev.batteries = batteries;
        let ghost mid = dev@;
        reconcile_batteries(&mut dev);
        proof {
            lemma_grows_trans(r0, r1, r2);
            lemma_grows_trans(r0, r2, *run);
            let calls = added(r0, *run);
            assert(calls =~= added(r0, r1) + added(r1, r2) + added(r2, *run));
            assert(calls.skip(2) =~= added(r2, *run));
            assert(calls[1] == added(r1, r2)[0]);
            assert(mid == BluetoothDeviceView {
                audio_profiles: profiles_from(calls[1].out, address@),
                batteries: battery_views(batteries@),
                ..d
            });
            assert(battery_lookup(calls.skip(2), address@, battery_views(batteries@)));
        }
        Some(dev)
    } else {
        reconcile_batteries(&mut dev);
        Some(dev)
    }
}

/// `calls` are the runs of the device listing, and `r` its result:
/// `bluetoothctl devices`, then the lookup of each listed device in listing
/// order; the records (named from the listing when the record has no name,
/// or only the listed name and address when there is no record), sorted
/// stably with connected devices first, then paired ones, then by name.
/// Nothing more when the listing could not run.
pub open spec fn device_list_result(calls: Seq<Call>, r: Seq<BluetoothDevice>) -> bool {
    &&& calls.len() >= 1
    &&& made(calls[0], "bluetoothctl"@, seq!["devices"@])
    &&& match calls[0].out {
        None => calls.len() == 1 && r.len() == 0,
        Some(out) => {
            let es = device_entries(lines(out.stdout@));
            exists|parts: Seq<Seq<Call>>, infos: Seq<Option<BluetoothDeviceView>>, inp: Seq<BluetoothDevice>|
                #![trigger is_stable_sort(r, inp, device_order()), concat_calls(parts), infos.len()]
                {
                    &&& parts.len() == es.len()
                    &&& infos.len() == es.len()
                    &&& inp.len() == es.len()
                    &&& calls.skip(1) == concat_calls(parts)
                    &&& forall|k: int| 0 <= k < es.len() ==> device_info_result(#[trigger] parts[k], es[k].0, infos[k])
                    &&& forall|k: int| 0 <= k < es.len() ==> (#[trigger] inp[k])@ == listed_device_of(es[k].0, es[k].1, infos[k])
                    &&& is_stable_sort(r, inp, device_order())
                }
        },
    }
}

/// Every device `bluetoothctl devices` knows, with its full record, in
/// display order.
pub fn list_devices<F: Fn(Invocation) -> Option<ProcessOutput>>(run: &mut Runner<F>) -> (r: Vec<BluetoothDevice>)
    requires
        accepts_all(old(run).runs()),
        info_answers_readable(old(run).runs()),
    ensures
        grows(*old(run), *final(run)),
        device_list_result(added(*old(run), *final(run)), r@),
{
    let ghost r0 = *run;
    let inv = invocation1("bluetoothctl", "devices");
    let ghost args = seq!["devices"@];
    let out = run_it(run, inv, Ghost("bluetoothctl"@), Ghost(args));
    let ghost r1 = *run;
    let ghost o = out;
    let text = match stdout_text(out) {
        Some(t) => t,
        None => {
            let r: Vec<BluetoothDevice> = Vec::new();
            return r;
        },
    };
    let entries = device_entries_in(text.as_str());
    let ghost es = entry_views(entries@);
    let mut devices: Vec<BluetoothDevice> = Vec::new();
    let ghost mut infos: Seq<Option<BluetoothDeviceView>> = Seq::empty();
    let ghost mut parts: Seq<Seq<Call>> = Seq::empty();
    let mut entries = entries;
    let ghost all = entries@;
    let mut k: usize = 0;
    let n = entries.len();
    proof {
        lemma_grows_refl(r1);
    }
    while entries.len() > 0
        invariant
            accepts_all(r1.runs()),
            info_answers_readable(r1.runs()),
            grows(r1, *run),
            n == all.len(),
            es == entry_views(all),
            k + entries.len() == n,
            entries@ == all.skip(k as int),
            infos.len() == k,
            parts.len() == k,
            devices.len() == k,
            added(r1, *run) == concat_calls(parts),
            forall|j: int| 0 <= j < k ==> device_info_result(#[trigger] parts[j], es[j].0, infos[j]),
            forall|j: int|
                0 <= j < k ==> (#[trigger] devices@[j])@ == listed_device_of(es[j].0, es[j].1, infos[j]),
        decreases entries.len(),
    {
        let e = entries.remove(0);
        assert(e == all[k as int]);
        assert(entries@ =~= all.skip(k + 1));
        let ghost rb = *run;
        let info = get_device_info(e.address.as_str(), run);
        let ghost gi = device_opt_view(info);
        assert(es[k as int] == (e.address@, e.name@));
        let dev = listed_device(e, info);
        proof {
            lemma_grows_trans(r1, rb, *run);
            let np = parts.push(added(rb, *run));
            assert(np.drop_last() =~= parts);
            parts = np;
            infos = infos.push(gi);
        }
        devices.push(dev);
        k += 1;
    }
    let ghost inp = devices@;
    let r = sort_devices(devices);
    proof {
        lemma_grows_trans(r0, r1, *run);
        assert(added(r0, *run).skip(1) =~= added(r1, *run));
        assert(es == device_entries(lines(stdout_of(o)->0)));
        assert(es.len() == n);
        assert(infos.len() == es.len() && inp.len() == es.len() && parts.len() == es.len());
    }
    r
}

/// Keeps the values of the present options, in order.
pub open spec fn present<V>(s: Seq<Option<V>>) -> Seq<V>
    decreases s.len(),
{
    if s.len() == 0 {
        Seq::empty()
    } else {
        match s.last() {
            Some(v) => present(s.drop_last()).push(v),
            None => present(s.drop_last()),
        }
    }
}

/// `calls` are the runs of the connected-device listing, and `r` its
/// result: `bluetoothctl devices Connected`, then the lookup of each listed
/// device in listing order; the records of those whose lookup succeeds.
pub open spec fn connected_list_result(calls: Seq<Call>, r: Seq<BluetoothDeviceView>) -> bool {
    &&& calls.len() >= 1
    &&& lookup(calls[0])
    &&& match stdout_of(calls[0].out) {
        None => calls.len() == 1 && r.len() == 0,
        Some(t) => {
            let es = device_entries(lines(t));
            exists|parts: Seq<Seq<Call>>, infos: Seq<Option<BluetoothDeviceView>>|
                #![trigger present(infos), concat_calls(parts)]
                {
                    &&& parts.len() == es.len()
                    &&& infos.len() == es.len()
                    &&& calls.skip(1) == concat_calls(parts)
                    &&& forall|k: int| 0 <= k < es.len() ==> device_info_result(#[trigger] parts[k], es[k].0, infos[k])
                    &&& r == present(infos)
                }
        },
    }
}

/// The full records of the devices `bluetoothctl devices Connected` lists,
/// in listing order, leaving out those whose lookup fails.
pub fn list_connected_devices<F: Fn(Invocation) -> Option<ProcessOutput>>(run: &mut Runner<F>) -> (r: Vec<BluetoothDevice>)
    requires
        accepts_all(old(run).runs()),
        info_answers_readable(old(run).runs()),
    ensures
        grows(*old(run), *final(run)),
        connected_list_result(added(*old(run), *final(run)), r@.map_values(|d: BluetoothDevice| d@)),
{
    let ghost r0 = *run;
    let inv = crate::process::invocation2("bluetoothctl", "devices", "Connected");
    let ghost args = seq!["devices"@, "Connected"@];
    let out = run_it(run, inv, Ghost("bluetoothctl"@), Ghost(args));
    let ghost r1 = *run;
    let ghost o = out;
    let text = match stdout_text(out) {
        Some(t) => t,
        None => {
            let r: Vec<BluetoothDevice> = Vec::new();
            assert(r@.map_values(|d: BluetoothDevice| d@) =~= Seq::<BluetoothDeviceView>::empty());
            return r;
        },
    };
    let entries = device_entries_in(text.as_str());
    let ghost es = entry_views(entries@);
    let mut devices: Vec<BluetoothDevice> = Vec::new();
    let ghost mut infos: Seq<Option<BluetoothDeviceView>> = Seq::empty();
    let ghost mut parts: Seq<Seq<Call>> = Seq::empty();
    let mut k: usize = 0;
    assert(devices@.map_values(|d: BluetoothDevice| d@) =~= present(infos));
    proof {
        lemma_grows_refl(r1);
    }
    while k < entries.len()
        invariant
            accepts_all(r1.runs()),
            info_answers_readable(r1.runs()),
            grows(r1, *run),
            es == entry_views(entries@),
            k <= entries.len(),
            infos.len() == k,
            parts.len() == k,
            added(r1, *run) == concat_calls(parts),
            forall|j: int| 0 <= j < k ==> device_info_result(#[trigger] parts[j], es[j].0, infos[j]),
            devices@.map_values(|d: BluetoothDevice| d@) == present(infos),
        decreases entries.len() - k,
    {
        let ghost rb = *run;
        let info = get_device_info(entries[k].address.as_str(), run);
        let ghost gi = device_opt_view(info);
        let ghost before = devices@.map_values(|d: BluetoothDevice| d@);
        match info {
            Some(d) => {
                let ghost dv = d@;
                devices.push(d);
                assert(devices@.map_values(|d: BluetoothDevice| d@) =~= before.push(dv));
            },
            None => {},
        }
        proof {
            lemma_grows_trans(r1, rb, *run);
            let np = parts.push(added(rb, *run));
            assert(np.drop_last() =~= parts);
            parts = np;
            let ni = infos.push(gi);
            assert(ni.drop_last() =~= infos);
            infos = ni;
        }
        k += 1;
    }
    proof {
        lemma_grows_trans(r0, r1, *run);
        assert(added(r0, *run).skip(1) =~= added(r1, *run));
        assert(es == device_entries(lines(stdout_of(o)->0)));
    }
    devices
}

} // verus!
