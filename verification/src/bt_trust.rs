//! The trusted devices of every Bluetooth adapter, read over D-Bus with
//! `dbus-send`.
use vstd::prelude::*;
use crate::text::{
    chars_of, string_of, contains, includes, find, find_in, starts_with, begins_with, split,
    split_on, same, slice, views, replace_char, replaced, concat,
};
use crate::process::{
    Invocation, ProcessOutput, accepts_all, invokes, Call, Runner, grows, added, only, made,
    lemma_grows_trans, lemma_grows_refl, stdout_of, opt_view, owned, run_it,
    stdout_text, string_views,
};
use crate::bluetooth::valid_mac;

verus! {

/// `dbus-send` arguments for a method call on a BlueZ object.
pub open spec fn dbus_args(path: Seq<char>, method: Seq<Seq<char>>) -> Seq<Seq<char>> {
    seq!["--system"@, "--dest=org.bluez"@, "--print-reply"@, path] + method
}

/// The `dbus-send` arguments that introspect an object.
pub open spec fn introspect_args(path: Seq<char>) -> Seq<Seq<char>> {
    dbus_args(path, seq!["org.freedesktop.DBus.Introspectable.Introspect"@])
}

/// The `dbus-send` arguments that read a device's `Trusted` property.
pub open spec fn trusted_args(path: Seq<char>) -> Seq<Seq<char>> {
    dbus_args(
        path,
        seq!["org.freedesktop.DBus.Properties.Get"@, "string:org.bluez.Device1"@, "string:Trusted"@],
    )
}

/// The object path of an adapter.
pub open spec fn adapter_path(adapter: Seq<char>) -> Seq<char> {
    "/org/bluez/"@ + adapter
}

/// The object path of a device under an adapter.
pub open spec fn device_path(adapter: Seq<char>, address: Seq<char>) -> Seq<char> {
    "/org/bluez/"@ + adapter + "/dev_"@ + replace_char(address, ':', '_')
}

/// The names of the `node name="..."` entries that start with "hci", in
/// order.
pub open spec fn hci_nodes(parts: Seq<Seq<char>>) -> Seq<Seq<char>>
    decreases parts.len(),
{
    if parts.len() == 0 {
        Seq::empty()
    } else {
        let acc = hci_nodes(parts.drop_last());
        match find(parts.last(), "\""@) {
            Some(end) => if starts_with(parts.last().take(end), "hci"@) {
                acc.push(parts.last().take(end))
            } else {
                acc
            },
            None => acc,
        }
    }
}

/// The adapters an introspection of `/org/bluez` lists; `hci0` when it
/// lists none or could not run.
pub open spec fn adapters_from(out: Option<ProcessOutput>) -> Seq<Seq<char>> {
    let found = match stdout_of(out) {
        Some(xml) => hci_nodes(split(xml, "node name=\""@).skip(1)),
        None => Seq::empty(),
    };
    if found.len() == 0 {
        seq!["hci0"@]
    } else {
        found
    }
}

/// The device addresses in an adapter's introspection: each
/// `node name="dev_..."` entry with `'_'` read as `':'`, kept when it is a
/// valid MAC address.
pub open spec fn dev_nodes(parts: Seq<Seq<char>>) -> Seq<Seq<char>>
    decreases parts.len(),
{
    if parts.len() == 0 {
        Seq::empty()
    } else {
        let acc = dev_nodes(parts.drop_last());
        match find(parts.last(), "\""@) {
            Some(end) => {
                let addr = replace_char(parts.last().take(end), '_', ':');
                if valid_mac(replace_char(addr, '_', ':')) {
                    acc.push(addr)
                } else {
                    acc
                }
            },
            None => acc,
        }
    }
}

/// The device addresses named in an adapter's introspection.
pub open spec fn dev_candidates(xml: Seq<char>) -> Seq<Seq<char>> {
    dev_nodes(split(xml, "node name=\"dev_"@).skip(1))
}

/// The `Trusted` property read says `true`.
pub open spec fn reports_trusted(out: Option<ProcessOutput>) -> bool {
    match stdout_of(out) {
        Some(t) => contains(t, "boolean true"@),
        None => false,
    }
}

/// Going through one adapter's candidates: a candidate already found trusted
/// is skipped; any other is asked about (the `answers` hold the replies, the
/// `base`-th onwards for this adapter) and kept when trusted. Yields the
/// trusted addresses and the device paths asked about, in order.
pub open spec fn adapter_pass(
    found: Seq<Seq<char>>,
    adapter: Seq<char>,
    cands: Seq<Seq<char>>,
    answers: Seq<Option<ProcessOutput>>,
    base: int,
) -> (Seq<Seq<char>>, Seq<Seq<char>>)
    decreases cands.len(),
{
    if cands.len() == 0 {
        (found, Seq::empty())
    } else {
        let (res, paths) = adapter_pass(found, adapter, cands.drop_last(), answers, base);
        let c = cands.last();
        if res.contains(c) {
            (res, paths)
        } else {
            let ans = answers[base + paths.len()];
            (
                if reports_trusted(ans) {
                    res.push(c)
                } else {
                    res
                },
                paths.push(device_path(adapter, c)),
            )
        }
    }
}

/// Going through the adapters: an adapter whose introspection could not run
/// is skipped. Yields the trusted addresses and every device path asked
/// about, in order.
pub open spec fn trusted_fold(
    adapters: Seq<Seq<char>>,
    intros: Seq<Option<ProcessOutput>>,
    answers: Seq<Option<ProcessOutput>>,
) -> (Seq<Seq<char>>, Seq<Seq<char>>)
    decreases adapters.len(),
{
    if adapters.len() == 0 {
        (Seq::empty(), Seq::empty())
    } else {
        let (res, paths) = trusted_fold(adapters.drop_last(), intros, answers);
        match stdout_of(intros[adapters.len() - 1]) {
            None => (res, paths),
            Some(xml) => {
                let (res2, more) = adapter_pass(
                    res,
                    adapters.last(),
                    dev_candidates(xml),
                    answers,
                    paths.len() as int,
                );
                (res2, paths + more)
            },
        }
    }
}

/// The `Trusted` property reads of the device paths `more`, answered by
/// `answers` from index `base` on.
pub open spec fn query_calls(more: Seq<Seq<char>>, answers: Seq<Option<ProcessOutput>>, base: int) -> Seq<Call> {
    Seq::new(
        more.len(),
        |j: int|
            Call {
                program: "dbus-send"@,
                args: trusted_args(more[j]),
                spawned: false,
                out: answers[base + j],
            },
    )
}

/// The runs of the fold over the adapters, in order: for each adapter its
/// introspection, then the `Trusted` reads of the device paths it asks
/// about.
pub open spec fn fold_calls(
    adapters: Seq<Seq<char>>,
    intros: Seq<Option<ProcessOutput>>,
    answers: Seq<Option<ProcessOutput>>,
) -> Seq<Call>
    decreases adapters.len(),
{
    if adapters.len() == 0 {
        Seq::empty()
    } else {
        let (res, paths) = trusted_fold(adapters.drop_last(), intros, answers);
        let intro = Call {
            program: "dbus-send"@,
            args: introspect_args(adapter_path(adapters.last())),
            spawned: false,
            out: intros[adapters.len() - 1],
        };
        let more = match stdout_of(intros[adapters.len() - 1]) {
            None => Seq::empty(),
            Some(xml) => adapter_pass(res, adapters.last(), dev_candidates(xml), answers, paths.len() as int).1,
        };
        fold_calls(adapters.drop_last(), intros, answers).push(intro) + query_calls(more, answers, paths.len() as int)
    }
}

fn dbus_invocation(path: &str, method: &str) -> (i: Invocation)
    ensures
        invokes(i, "dbus-send"@, dbus_args(path@, seq![method@])),
{
    let mut args: Vec<String> = Vec::new();
    args.push(owned("--system"));
    args.push(owned("--dest=org.bluez"));
    args.push(owned("--print-reply"));
    args.push(owned(path));
    args.push(owned(method));
    let i = Invocation { program: owned("dbus-send"), args };
    assert(string_views(i.args@) =~= dbus_args(path@, seq![method@]));
    i
}

fn trusted_invocation(path: &str) -> (i: Invocation)
    ensures
        invokes(i, "dbus-send"@, trusted_args(path@)),
{
    let mut args: Vec<String> = Vec::new();
    args.push(owned("--system"));
    args.push(owned("--dest=org.bluez"));
    args.push(owned("--print-reply"));
    args.push(owned(path));
    args.push(owned("org.freedesktop.DBus.Properties.Get"));
    args.push(owned("string:org.bluez.Device1"));
    args.push(owned("string:Trusted"));
    let i = Invocation { program: owned("dbus-send"), args };
    assert(string_views(i.args@) =~= trusted_args(path@));
    i
}

/// A pass reads only the answers before `base` plus the number of paths it
/// asks about, so extending the answers does not change it.
pub proof fn lemma_adapter_pass_prefix(
    found: Seq<Seq<char>>,
    adapter: Seq<char>,
    cands: Seq<Seq<char>>,
    ans1: Seq<Option<ProcessOutput>>,
    ans2: Seq<Option<ProcessOutput>>,
    base: int,
)
    requires
        0 <= base,
        ans1.len() <= ans2.len(),
        ans2.take(ans1.len() as int) == ans1,
        base + adapter_pass(found, adapter, cands, ans1, base).1.len() <= ans1.len(),
    ensures
        adapter_pass(found, adapter, cands, ans2, base) == adapter_pass(found, adapter, cands, ans1, base),
    decreases cands.len(),
{
    if cands.len() > 0 {
        let p1 = adapter_pass(found, adapter, cands.drop_last(), ans1, base);
        lemma_adapter_pass_prefix(found, adapter, cands.drop_last(), ans1, ans2, base);
        let idx = base + p1.1.len();
        if !p1.0.contains(cands.last()) {
            assert(ans2.take(ans1.len() as int)[idx] == ans2[idx]);
        }
    }
}

/// Extending the introspection replies past the adapters gone through, or
/// the answers past those read, does not change the fold.
pub proof fn lemma_trusted_fold_prefix(
    ads: Seq<Seq<char>>,
    intros1: Seq<Option<ProcessOutput>>,
    intros2: Seq<Option<ProcessOutput>>,
    ans1: Seq<Option<ProcessOutput>>,
    ans2: Seq<Option<ProcessOutput>>,
)
    requires
        intros1.len() >= ads.len(),
        intros2.len() >= ads.len(),
        forall|k: int| 0 <= k < ads.len() ==> intros1[k] == intros2[k],
        ans1.len() <= ans2.len(),
        ans2.take(ans1.len() as int) == ans1,
        trusted_fold(ads, intros1, ans1).1.len() <= ans1.len(),
    ensures
        trusted_fold(ads, intros2, ans2) == trusted_fold(ads, intros1, ans1),
        fold_calls(ads, intros2, ans2) == fold_calls(ads, intros1, ans1),
    decreases ads.len(),
{
    if ads.len() > 0 {
        let pre = trusted_fold(ads.drop_last(), intros1, ans1);
        lemma_trusted_fold_prefix(ads.drop_last(), intros1, intros2, ans1, ans2);
        assert(intros1[ads.len() - 1] == intros2[ads.len() - 1]);
        match stdout_of(intros1[ads.len() - 1]) {
            None => {},
            Some(xml) => {
                lemma_adapter_pass_prefix(
                    pre.0,
                    ads.last(),
                    dev_candidates(xml),
                    ans1,
                    ans2,
                    pre.1.len() as int,
                );
                let more = adapter_pass(pre.0, ads.last(), dev_candidates(xml), ans1, pre.1.len() as int).1;
                assert forall|j: int| 0 <= j < more.len() implies #[trigger] query_calls(more, ans2, pre.1.len() as int)[j]
                    == query_calls(more, ans1, pre.1.len() as int)[j] by {
                    assert(ans2.take(ans1.len() as int)[pre.1.len() + j] == ans2[pre.1.len() + j]);
                }
                assert(query_calls(more, ans2, pre.1.len() as int) =~= query_calls(more, ans1, pre.1.len() as int));
            },
        }
    }
}

/// A pass adds an address only when it is not yet listed, so a list
/// without repeats stays without repeats.
pub proof fn lemma_adapter_pass_distinct(
    found: Seq<Seq<char>>,
    adapter: Seq<char>,
    cands: Seq<Seq<char>>,
    answers: Seq<Option<ProcessOutput>>,
    base: int,
)
    requires
        found.no_duplicates(),
    ensures
        adapter_pass(found, adapter, cands, answers, base).0.no_duplicates(),
    decreases cands.len(),
{
    if cands.len() > 0 {
        lemma_adapter_pass_distinct(found, adapter, cands.drop_last(), answers, base);
        let res = adapter_pass(found, adapter, cands.drop_last(), answers, base).0;
        let c = cands.last();
        if !res.contains(c) {
            assert forall|i: int, j: int| 0 <= i < res.push(c).len() && 0 <= j < res.push(c).len() && i != j implies res.push(c)[i] != res.push(c)[j] by {
                if i < res.len() && j < res.len() {
                } else if i < res.len() {
                    assert(res.contains(res[i]));
                } else {
                    assert(res.contains(res[j]));
                }
            }
        }
    }
}

/// The trusted addresses found over all adapters hold no repeats.
pub proof fn lemma_trusted_fold_distinct(
    adapters: Seq<Seq<char>>,
    intros: Seq<Option<ProcessOutput>>,
    answers: Seq<Option<ProcessOutput>>,
)
    ensures
        trusted_fold(adapters, intros, answers).0.no_duplicates(),
    decreases adapters.len(),
{
    if adapters.len() > 0 {
        lemma_trusted_fold_distinct(adapters.drop_last(), intros, answers);
        let (res, paths) = trusted_fold(adapters.drop_last(), intros, answers);
        match stdout_of(intros[adapters.len() - 1]) {
            None => {},
            Some(xml) => {
                lemma_adapter_pass_distinct(res, adapters.last(), dev_candidates(xml), answers, paths.len() as int);
            },
        }
    } else {
        assert(Seq::<Seq<char>>::empty().no_duplicates());
    }
}

/// The adapter names in an introspection of `/org/bluez`.
pub fn adapters_in(xml: &str) -> (r: Vec<Vec<char>>)
    ensures
        views(r@) == hci_nodes(split(xml@, "node name=\""@).skip(1)),
{
    proof {
        reveal_strlit("node name=\"");
    }
    let parts = split_on(&chars_of(xml), &chars_of("node name=\""));
    let ghost ps = views(parts@).skip(1);
    let quote = chars_of("\"");
    let hci = chars_of("hci");
    let mut r: Vec<Vec<char>> = Vec::new();
    let mut i: usize = 1;
    assert(ps.take(0) =~= Seq::<Seq<char>>::empty());
    while i < parts.len()
        invariant
            1 <= i <= parts.len(),
            ps == views(parts@).skip(1),
            quote@ == "\""@,
            hci@ == "hci"@,
            views(r@) == hci_nodes(ps.take(i - 1)),
        decreases parts.len() - i,
    {
        assert(ps.take(i as int).drop_last() =~= ps.take(i - 1));
        assert(ps.take(i as int).last() == parts@[i as int]@);
        match find_in(&parts[i], &quote) {
            Some(end) => {
                proof {
                    crate::text::lemma_find_from(parts@[i as int]@, "\""@, 0int);
                }
                let name = slice(&parts[i], 0, end);
                assert(name@ =~= parts@[i as int]@.take(end as int));
                if begins_with(&name, &hci) {
                    let ghost before = views(r@);
                    let ghost nv = name@;
                    r.push(name);
                    assert(views(r@) =~= before.push(nv));
                }
            },
            None => {},
        }
        i += 1;
    }
    assert(ps.take(parts.len() - 1) =~= ps);
    r
}

/// The candidate device addresses in an adapter's introspection.
pub fn dev_candidates_in(xml: &Vec<char>) -> (r: Vec<Vec<char>>)
    ensures
        views(r@) == dev_candidates(xml@),
{
    proof {
        reveal_strlit("node name=\"dev_");
    }
    let parts = split_on(xml, &chars_of("node name=\"dev_"));
    let ghost ps = views(parts@).skip(1);
    let quote = chars_of("\"");
    let mut r: Vec<Vec<char>> = Vec::new();
    let mut i: usize = 1;
    assert(ps.take(0) =~= Seq::<Seq<char>>::empty());
    while i < parts.len()
        invariant
            1 <= i <= parts.len(),
            ps == views(parts@).skip(1),
            quote@ == "\""@,
            views(r@) == dev_nodes(ps.take(i - 1)),
        decreases parts.len() - i,
    {
        assert(ps.take(i as int).drop_last() =~= ps.take(i - 1));
        assert(ps.take(i as int).last() == parts@[i as int]@);
        match find_in(&parts[i], &quote) {
            Some(end) => {
                proof {
                    crate::text::lemma_find_from(parts@[i as int]@, "\""@, 0int);
                }
                let hex = slice(&parts[i], 0, end);
                assert(hex@ =~= parts@[i as int]@.take(end as int));
                let addr = replaced(&hex, '_', ':');
                if crate::bluetooth::is_valid_hex_addr(string_of(&addr).as_str()) {
                    let ghost before = views(r@);
                    let ghost av = addr@;
                    r.push(addr);
                    assert(views(r@) =~= before.push(av));
                }
            },
            None => {},
        }
        i += 1;
    }
    assert(ps.take(parts.len() - 1) =~= ps);
    r
}

fn listed_already(found: &Vec<Vec<char>>, c: &Vec<char>) -> (r: bool)
    ensures
        r == views(found@).contains(c@),
{
    let mut j: usize = 0;
    while j < found.len()
        invariant
            j <= found.len(),
            forall|w: int| 0 <= w < j ==> found@[w]@ != c@,
        decreases found.len() - j,
    {
        if same(&found[j], c) {
            assert(views(found@)[j as int] == c@);
            return true;
        }
        j += 1;
    }
    assert forall|w: int| 0 <= w < views(found@).len() implies views(found@)[w] != c@ by {
        assert(views(found@)[w] == found@[w]@);
    }
    false
}

/// Every Bluetooth adapter BlueZ exposes, from an introspection of
/// `/org/bluez`; `hci0` when none can be found.
pub fn list_adapters<F: Fn(Invocation) -> Option<ProcessOutput>>(run: &mut Runner<F>) -> (r: Vec<String>)
    requires
        accepts_all(old(run).runs()),
    ensures
        grows(*old(run), *final(run)),
        only(added(*old(run), *final(run)), "dbus-send"@, introspect_args("/org/bluez"@)),
        string_views(r@) == adapters_from(added(*old(run), *final(run))[0].out),
{
    let root = dbus_invocation("/org/bluez", "org.freedesktop.DBus.Introspectable.Introspect");
    let ghost rargs = introspect_args("/org/bluez"@);
    let out0 = run_it(run, root, Ghost("dbus-send"@), Ghost(rargs));
    let ghost o0 = out0;
    let found: Vec<Vec<char>> = match stdout_text(out0) {
        Some(t) => adapters_in(t.as_str()),
        None => Vec::new(),
    };
    let mut r: Vec<String> = Vec::new();
    let mut k: usize = 0;
    while k < found.len()
        invariant
            k <= found.len(),
            string_views(r@) == views(found@).take(k as int),
        decreases found.len() - k,
    {
        let ghost before = string_views(r@);
        r.push(string_of(&found[k]));
        assert(string_views(r@) =~= before.push(found@[k as int]@));
        assert(views(found@).take(k + 1) =~= views(found@).take(k as int).push(found@[k as int]@));
        k += 1;
    }
    assert(views(found@).take(found.len() as int) =~= views(found@));
    if r.len() == 0 {
        r.push(owned("hci0"));
        assert(string_views(r@) =~= seq!["hci0"@]);
    }
    assert(string_views(r@) =~= adapters_from(o0));
    r
}

fn char_vecs(v: &Vec<String>) -> (r: Vec<Vec<char>>)
    ensures
        views(r@) == string_views(v@),
{
    let mut r: Vec<Vec<char>> = Vec::new();
    let mut k: usize = 0;
    while k < v.len()
        invariant
            k <= v.len(),
            views(r@) == string_views(v@).take(k as int),
        decreases v.len() - k,
    {
        let ghost before = views(r@);
        r.push(chars_of(v[k].as_str()));
        assert(views(r@) =~= before.push(v@[k as int]@));
        assert(string_views(v@).take(k + 1) =~= string_views(v@).take(k as int).push(v@[k as int]@));
        k += 1;
    }
    assert(string_views(v@).take(v.len() as int) =~= string_views(v@));
    r
}

/// `calls` are the runs of the trusted-device search, and `found` its
/// result: an introspection of `/org/bluez` for the adapters, then for each
/// adapter in order its introspection followed by a `Trusted` property read
/// of each device address found there that is not listed yet.
pub open spec fn trusted_from(calls: Seq<Call>, found: Seq<Seq<char>>) -> bool {
    &&& calls.len() >= 1
    &&& made(calls[0], "dbus-send"@, introspect_args("/org/bluez"@))
    &&& exists|intros: Seq<Option<ProcessOutput>>, answers: Seq<Option<ProcessOutput>>|
        #![trigger trusted_fold(adapters_from(calls[0].out), intros, answers)]
        {
            let adapters = adapters_from(calls[0].out);
            &&& calls.skip(1) == fold_calls(adapters, intros, answers)
            &&& found == trusted_fold(adapters, intros, answers).0
        }
}

/// The addresses of the trusted devices of every adapter, each once.
pub fn list_trusted<F: Fn(Invocation) -> Option<ProcessOutput>>(run: &mut Runner<F>) -> (r: Vec<String>)
    requires
        accepts_all(old(run).runs()),
    ensures
        grows(*old(run), *final(run)),
        trusted_from(added(*old(run), *final(run)), string_views(r@)),
        string_views(r@).no_duplicates(),
{
    let ghost r0 = *run;
    let names = list_adapters(run);
    let ghost r1 = *run;
    let ghost o0 = added(r0, r1)[0].out;
    let adapters = char_vecs(&names);
    let ghost ads = views(adapters@);
    let mut found: Vec<Vec<char>> = Vec::new();
    let ghost mut intros: Seq<Option<ProcessOutput>> = Seq::empty();
    let ghost mut answers: Seq<Option<ProcessOutput>> = Seq::empty();
    let ghost mut paths: Seq<Seq<char>> = Seq::empty();
    let prefix = chars_of("/org/bluez/");
    let dev_prefix = chars_of("/dev_");
    let mut a: usize = 0;
    proof {
        lemma_grows_refl(r1);
        assert(ads.take(0) =~= Seq::<Seq<char>>::empty());
    }
    while a < adapters.len()
        invariant
            accepts_all(r1.runs()),
            grows(r1, *run),
            a <= adapters.len(),
            ads == views(adapters@),
            prefix@ == "/org/bluez/"@,
            dev_prefix@ == "/dev_"@,
            intros.len() == a,
            answers.len() == paths.len(),
            trusted_fold(ads.take(a as int), intros, answers) == (views(found@), paths),
            added(r1, *run) == fold_calls(ads.take(a as int), intros, answers),
        decreases adapters.len() - a,
    {
        let ghost rb = *run;
        let apath = concat(&prefix, &adapters[a]);
        let apath_s = string_of(&apath);
        let inv = dbus_invocation(apath_s.as_str(), "org.freedesktop.DBus.Introspectable.Introspect");
        let ghost iargs = introspect_args(adapter_path(ads[a as int]));
        let out = run_it(run, inv, Ghost("dbus-send"@), Ghost(iargs));
        let ghost oa = out;
        let ghost ra = *run;
        let ghost found0 = views(found@);
        let ghost paths0 = paths;
        let ghost ans0 = answers;
        let ghost intro = Call { program: "dbus-send"@, args: iargs, spawned: false, out: oa };
        let ghost mut more: Seq<Seq<char>> = Seq::empty();
        proof {
            lemma_grows_trans(r1, rb, ra);
            assert(added(r1, ra) =~= fold_calls(ads.take(a as int), intros, ans0).push(intro) + query_calls(more, answers, paths0.len() as int));
        }
        match stdout_text(out) {
            None => {},
            Some(xml_s) => {
                let xml = chars_of(xml_s.as_str());
                let cands = dev_candidates_in(&xml);
                let ghost cs = views(cands@);
                let mut c: usize = 0;
                assert(cs.take(0) =~= Seq::<Seq<char>>::empty());
                while c < cands.len()
                    invariant
                        accepts_all(r1.runs()),
                        grows(r1, *run),
                        c <= cands.len(),
                        cs == views(cands@),
                        a < adapters.len(),
                        ads == views(adapters@),
                        prefix@ == "/org/bluez/"@,
                        dev_prefix@ == "/dev_"@,
                        apath@ == "/org/bluez/"@ + ads[a as int],
                        paths == paths0 + more,
                        answers.len() == paths.len(),
                        ans0 == answers.take(paths0.len() as int),
                        adapter_pass(found0, ads[a as int], cs.take(c as int), answers, paths0.len() as int) == (views(found@), more),
                        added(r1, *run) == fold_calls(ads.take(a as int), intros, ans0).push(intro) + query_calls(more, answers, paths0.len() as int),
                    decreases cands.len() - c,
                {
                    assert(cs.take(c + 1).drop_last() =~= cs.take(c as int));
                    assert(cs.take(c + 1).last() == cands@[c as int]@);
                    if !listed_already(&found, &cands[c]) {
                        let fmt = replaced(&cands[c], ':', '_');
                        let p1 = concat(&apath, &dev_prefix);
                        let dpath = concat(&p1, &fmt);
                        assert(dpath@ =~= device_path(ads[a as int], cs[c as int]));
                        let dpath_s = string_of(&dpath);
                        let tinv = trusted_invocation(dpath_s.as_str());
                        let ghost targs = trusted_args(dpath@);
                        let ghost rc = *run;
                        let tout = run_it(run, tinv, Ghost("dbus-send"@), Ghost(targs));
                        let ghost ot = tout;
                        let yes = match stdout_text(tout) {
                            Some(t) => includes(&chars_of(t.as_str()), &chars_of("boolean true")),
                            None => false,
                        };
                        assert(yes == reports_trusted(ot));
                        proof {
                            lemma_grows_trans(r1, rc, *run);
                            let na = answers.push(ot);
                            assert(na.take(paths0.len() as int) =~= answers.take(paths0.len() as int));
                            assert(na.take(answers.len() as int) =~= answers);
                            assert(na[(paths0.len() + more.len()) as int] == ot);
                            // earlier steps read only earlier answers
                            lemma_adapter_pass_prefix(found0, ads[a as int], cs.take(c as int), answers, na, paths0.len() as int);
                            let nm = more.push(dpath@);
                            assert(query_calls(nm, na, paths0.len() as int) =~= query_calls(more, answers, paths0.len() as int).push(
                                Call { program: "dbus-send"@, args: targs, spawned: false, out: ot },
                            ));
                            answers = na;
                            paths = paths.push(dpath@);
                            more = nm;
                        }
                        if yes {
                            let ghost before = views(found@);
                            let ghost cv = cands@[c as int]@;
                            let copy = slice(&cands[c], 0, cands[c].len());
                            assert(copy@ =~= cv);
                            found.push(copy);
                            assert(views(found@) =~= before.push(cv));
                        }
                    }
                    c += 1;
                }
                assert(cs.take(cands.len() as int) =~= cs);
                assert(cs == dev_candidates(stdout_of(oa)->0));
            },
        }
        proof {
            let ni = intros.push(oa);
            assert(ads.take(a + 1).drop_last() =~= ads.take(a as int));
            assert(ads.take(a + 1).last() == ads[a as int]);
            assert(ans0.len() == paths0.len());
            assert(answers.take(ans0.len() as int) =~= ans0);
            lemma_trusted_fold_prefix(ads.take(a as int), intros, ni, ans0, answers);
            assert(ni[a as int] == oa);
            intros = ni;
        }
        a += 1;
    }
    assert(ads.take(adapters.len() as int) =~= ads);
    let mut r: Vec<String> = Vec::new();
    let mut k: usize = 0;
    while k < found.len()
        invariant
            k <= found.len(),
            string_views(r@) == views(found@).take(k as int),
        decreases found.len() - k,
    {
        let ghost before = string_views(r@);
        r.push(string_of(&found[k]));
        assert(string_views(r@) =~= before.push(found@[k as int]@));
        assert(views(found@).take(k + 1) =~= views(found@).take(k as int).push(found@[k as int]@));
        k += 1;
    }
    assert(views(found@).take(found.len() as int) =~= views(found@));
    proof {
        lemma_trusted_fold_distinct(ads, intros, answers);
        lemma_grows_trans(r0, r1, *run);
        assert(added(r0, *run).skip(1) =~= added(r1, *run));
        assert(ads == adapters_from(o0));
    }
    r
}

} // verus!
