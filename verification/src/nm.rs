//! Wi-Fi and VPN connections through NetworkManager's `nmcli` (and a few
//! other helpers): the network list, VPNs, saved-connection settings,
//! connecting and disconnecting.
use vstd::prelude::*;
use crate::text::{
    chars_of, string_of, contains, includes, find, starts_with, begins_with, trim, trimmed, words,
    words_of, lines, lines_of, same, slice, split, split_on, terse_fields, terse_fields_of,
    unescape, unescaped, parse_u8, read_u8, parse_i32, read_i32, parse_u64, read_u64, views,
    rfind_char, rfind_in,
};
use crate::process::{
    Invocation, ProcessOutput, accepts_all, invokes, Runner, grows, added, only, made, lemma_grows_trans, stdout_of, succeeded, opt_view, owned,
    call, str_views, stdout_text, success_of, string_views, decimal, decimal_string,
};
use crate::order::{strict_weak, is_stable_sort, stable_sort, stable_order_by};

verus! {

// ---------------------------------------------------------------------------
// Records
// ---------------------------------------------------------------------------

/// A Wi-Fi network as `nmcli dev wifi list` shows it.
#[derive(Debug, Clone)]
pub struct Network {
    pub ssid: String,
    pub bssid: String,
    pub signal: u8,
    pub security: String,
    pub connected: bool,
    pub ping: Option<u64>,
    pub saved: bool,
}

/// A VPN: a NetworkManager WireGuard/VPN/OpenVPN connection, Cloudflare
/// WARP, or Hiddify.
#[derive(Debug, Clone)]
pub struct VpnConnection {
    pub name: String,
    pub vpn_type: String,
    pub active: bool,
}

/// The editable settings of a saved connection.
#[derive(Debug)]
pub struct NetworkConfig {
    pub autoconnect: bool,
    pub priority: i32,
    pub dns: String,
    pub ip4_method: String,
}

/// What a `Network` holds, as mathematical values.
pub struct NetworkView {
    pub ssid: Seq<char>,
    pub bssid: Seq<char>,
    pub signal: u8,
    pub security: Seq<char>,
    pub connected: bool,
    pub ping: Option<u64>,
    pub saved: bool,
}

impl View for Network {
    type V = NetworkView;

    open spec fn view(&self) -> NetworkView {
        NetworkView {
            ssid: self.ssid@,
            bssid: self.bssid@,
            signal: self.signal,
            security: self.security@,
            connected: self.connected,
            ping: self.ping,
            saved: self.saved,
        }
    }
}

/// What a `VpnConnection` holds, as mathematical values.
pub struct VpnView {
    pub name: Seq<char>,
    pub vpn_type: Seq<char>,
    pub active: bool,
}

impl View for VpnConnection {
    type V = VpnView;

    open spec fn view(&self) -> VpnView {
        VpnView { name: self.name@, vpn_type: self.vpn_type@, active: self.active }
    }
}

/// What a `NetworkConfig` holds, as mathematical values.
pub struct NetworkConfigView {
    pub autoconnect: bool,
    pub priority: i32,
    pub dns: Seq<char>,
    pub ip4_method: Seq<char>,
}

impl View for NetworkConfig {
    type V = NetworkConfigView;

    open spec fn view(&self) -> NetworkConfigView {
        NetworkConfigView {
            autoconnect: self.autoconnect,
            priority: self.priority,
            dns: self.dns@,
            ip4_method: self.ip4_method@,
        }
    }
}

/// The characters of an optional character vector.
pub open spec fn opt_chars(o: Option<Vec<char>>) -> Option<Seq<char>> {
    match o {
        Some(v) => Some(v@),
        None => None,
    }
}

/// The views of a list of VPN connections.
pub open spec fn vpn_views(v: Seq<VpnConnection>) -> Seq<VpnView> {
    v.map_values(|x: VpnConnection| x@)
}

/// The fields of a line cut at each `':'` (no escapes).
pub open spec fn colon_fields(line: Seq<char>) -> Seq<Seq<char>> {
    split(line, ":"@)
}

/// The `':'`-separated fields of a line.
pub fn colon_fields_of(line: &Vec<char>) -> (r: Vec<Vec<char>>)
    ensures
        views(r@) == colon_fields(line@),
{
    proof {
        reveal_strlit(":");
    }
    split_on(line, &chars_of(":"))
}

// ---------------------------------------------------------------------------
// Saved and active networks
// ---------------------------------------------------------------------------

/// The names of the saved wireless connections in
/// `nmcli -t -f NAME,TYPE connection show` lines, in order.
pub open spec fn saved_names(ls: Seq<Seq<char>>) -> Seq<Seq<char>>
    decreases ls.len(),
{
    if ls.len() == 0 {
        Seq::empty()
    } else {
        let acc = saved_names(ls.drop_last());
        let p = colon_fields(ls.last());
        if p.len() >= 2 && contains(p[1], "wireless"@) {
            acc.push(p[0])
        } else {
            acc
        }
    }
}

/// The `nmcli` arguments that list the saved connections.
pub open spec fn saved_args() -> Seq<Seq<char>> {
    seq!["-t"@, "-f"@, "NAME,TYPE"@, "connection"@, "show"@]
}

/// The saved wireless connection names a run reports (none when it could
/// not run).
pub open spec fn saved_from(out: Option<ProcessOutput>) -> Seq<Seq<char>> {
    match stdout_of(out) {
        Some(t) => saved_names(lines(t)),
        None => Seq::empty(),
    }
}

/// The names of the saved wireless connections, as a list that may repeat a
/// name; only membership matters.
pub fn get_saved_ssids<F: Fn(Invocation) -> Option<ProcessOutput>>(run: &mut Runner<F>) -> (r: Vec<Vec<char>>)
    requires
        accepts_all(old(run).runs()),
    ensures
        grows(*old(run), *final(run)),
        only(added(*old(run), *final(run)), "nmcli"@, saved_args()),
        views(r@) == saved_from(added(*old(run), *final(run))[0].out),
{
    let args = vec!["-t", "-f", "NAME,TYPE", "connection", "show"];
    assert(str_views(args@) =~= saved_args());
    let out = call(run, "nmcli", args);
    let ghost o = out;
    let mut r: Vec<Vec<char>> = Vec::new();
    match stdout_text(out) {
        Some(t) => {
            let ls = lines_of(&chars_of(t.as_str()));
            let wireless = chars_of("wireless");
            let mut i: usize = 0;
            while i < ls.len()
                invariant
                    i <= ls.len(),
                    views(ls@) == lines(t@),
                    wireless@ == "wireless"@,
                    views(r@) == saved_names(views(ls@).take(i as int)),
                decreases ls.len() - i,
            {
                assert(views(ls@).take(i + 1).drop_last() =~= views(ls@).take(i as int));
                assert(views(ls@).take(i + 1).last() == ls@[i as int]@);
                let p = colon_fields_of(&ls[i]);
                if p.len() >= 2 && includes(&p[1], &wireless) {
                    let name = slice(&p[0], 0, p[0].len());
                    assert(name@ =~= p@[0]@);
                    let ghost before = views(r@);
                    r.push(name);
                    assert(views(r@) =~= before.push(p@[0]@));
                }
                i += 1;
            }
            assert(views(ls@).take(ls.len() as int) =~= views(ls@));
        },
        None => {
            assert(views(r@) =~= Seq::<Seq<char>>::empty());
        },
    }
    r
}

/// The first line starting with "yes:" in `nmcli -t -f ACTIVE,SSID dev wifi`
/// output, its SSID unescaped.
pub open spec fn active_ssid_in(ls: Seq<Seq<char>>) -> Option<Seq<char>>
    decreases ls.len(),
{
    if ls.len() == 0 {
        None
    } else if starts_with(ls[0], "yes:"@) {
        Some(unescape(ls[0].skip(4)))
    } else {
        active_ssid_in(ls.drop_first())
    }
}

/// The `nmcli` arguments that list the active Wi-Fi network.
pub open spec fn active_args() -> Seq<Seq<char>> {
    seq!["-t"@, "-f"@, "ACTIVE,SSID"@, "dev"@, "wifi"@]
}

/// The active network name a run reported.
pub open spec fn active_from(out: Option<ProcessOutput>) -> Option<Seq<char>> {
    match stdout_of(out) {
        Some(t) => active_ssid_in(lines(t)),
        None => None,
    }
}

/// The SSID of the active Wi-Fi connection.
pub fn get_active_ssid<F: Fn(Invocation) -> Option<ProcessOutput>>(run: &mut Runner<F>) -> (r: Option<Vec<char>>)
    requires
        accepts_all(old(run).runs()),
    ensures
        grows(*old(run), *final(run)),
        only(added(*old(run), *final(run)), "nmcli"@, active_args()),
        opt_chars(r) == active_from(added(*old(run), *final(run))[0].out),
{
    let args = vec!["-t", "-f", "ACTIVE,SSID", "dev", "wifi"];
    assert(str_views(args@) =~= active_args());
    let out = call(run, "nmcli", args);
    let ghost o = out;
    let t = match stdout_text(out) {
        Some(t) => t,
        None => {
            return None;
        },
    };
    proof {
        reveal_strlit("yes:");
    }
    let ls = lines_of(&chars_of(t.as_str()));
    let yes = chars_of("yes:");
    let mut i: usize = 0;
    assert(views(ls@).skip(0) =~= views(ls@));
    let ghost rr = *run;
    while i < ls.len()
        invariant
            *run == rr,
            grows(*old(run), rr),
            only(added(*old(run), rr), "nmcli"@, active_args()),
            added(*old(run), rr)[0].out == o,
            i <= ls.len(),
            views(ls@) == lines(t@),
            yes@ == "yes:"@,
            yes@.len() == 4,
            stdout_of(o) == Some(t@),
            active_ssid_in(views(ls@)) == active_ssid_in(views(ls@).skip(i as int)),
        decreases ls.len() - i,
    {
        assert(views(ls@).skip(i as int)[0] == ls@[i as int]@);
        assert(views(ls@).skip(i as int).drop_first() =~= views(ls@).skip(i + 1));
        if begins_with(&ls[i], &yes) {
            let rest = slice(&ls[i], 4, ls[i].len());
            assert(rest@ =~= ls@[i as int]@.skip(4));
            let u = unescaped(&rest);
            assert(active_from(o) == Some(u@));
            return Some(u);
        }
        i += 1;
    }
    assert(views(ls@).skip(i as int) =~= Seq::<Seq<char>>::empty());
    None
}


// ---------------------------------------------------------------------------
// The network list
// ---------------------------------------------------------------------------

/// The network on one `nmcli -t -f SSID,BSSID,SIGNAL,SECURITY,IN-USE dev
/// wifi list` line: at least five fields and a non-empty SSID; connected
/// when marked in use or when it is the active SSID; saved when a saved
/// connection has its name; an unreadable signal is 0.
pub open spec fn network_on_line(line: Seq<char>, active: Option<Seq<char>>, saved: Seq<Seq<char>>) -> Option<NetworkView> {
    let p = terse_fields(line);
    if p.len() >= 5 && p[0].len() > 0 {
        Some(
            NetworkView {
                ssid: p[0],
                bssid: p[1],
                signal: match parse_u8(p[2]) {
                    Some(v) => v,
                    None => 0,
                },
                security: p[3],
                connected: p[4] == "*"@ || active == Some(p[0]),
                ping: None,
                saved: saved.contains(p[0]),
            },
        )
    } else {
        None
    }
}

/// The views of a list of networks.
pub open spec fn network_views(s: Seq<Network>) -> Seq<NetworkView> {
    s.map_values(|n: Network| n@)
}

/// The names of a list of networks.
pub open spec fn network_ssids(ns: Seq<NetworkView>) -> Seq<Seq<char>> {
    ns.map_values(|n: NetworkView| n.ssid)
}

/// The networks of the listed lines, the first line of each SSID only.
pub open spec fn networks_in(ls: Seq<Seq<char>>, active: Option<Seq<char>>, saved: Seq<Seq<char>>) -> Seq<NetworkView>
    decreases ls.len(),
{
    if ls.len() == 0 {
        Seq::empty()
    } else {
        let acc = networks_in(ls.drop_last(), active, saved);
        match network_on_line(ls.last(), active, saved) {
            Some(n) => if network_ssids(acc).contains(n.ssid) {
                acc
            } else {
                acc.push(n)
            },
            None => acc,
        }
    }
}

/// Connected networks first, then saved ones, then by falling signal.
pub open spec fn network_before(a: NetworkView, b: NetworkView) -> bool {
    ||| a.connected && !b.connected
    ||| a.connected == b.connected && a.saved && !b.saved
    ||| a.connected == b.connected && a.saved == b.saved && a.signal > b.signal
}

/// The display order of networks.
pub open spec fn network_order() -> spec_fn(Network, Network) -> bool {
    |a: Network, b: Network| network_before(a@, b@)
}

/// `nets` is a stable sort, in display order, of networks whose views are
/// `expected`.
pub open spec fn sorted_networks_of(nets: Seq<Network>, expected: Seq<NetworkView>) -> bool {
    exists|inp: Seq<Network>| network_views(inp) == expected && #[trigger] is_stable_sort(nets, inp, network_order())
}

/// The `nmcli` arguments of a Wi-Fi scan listing.
pub open spec fn list_args() -> Seq<Seq<char>> {
    seq!["-t"@, "-f"@, "SSID,BSSID,SIGNAL,SECURITY,IN-USE"@, "dev"@, "wifi"@, "list"@]
}

fn contains_name(names: &Vec<Vec<char>>, s: &Vec<char>) -> (r: bool)
    ensures
        r == views(names@).contains(s@),
{
    let mut j: usize = 0;
    while j < names.len()
        invariant
            j <= names.len(),
            forall|w: int| 0 <= w < j ==> names@[w]@ != s@,
        decreases names.len() - j,
    {
        if same(&names[j], s) {
            assert(views(names@)[j as int] == s@);
            return true;
        }
        j += 1;
    }
    assert forall|w: int| 0 <= w < views(names@).len() implies views(names@)[w] != s@ by {
        assert(views(names@)[w] == names@[w]@);
    }
    false
}

fn seen_ssid(ns: &Vec<Network>, s: &Vec<char>) -> (r: bool)
    ensures
        r == network_ssids(network_views(ns@)).contains(s@),
{
    let ghost ids = network_ssids(network_views(ns@));
    let mut j: usize = 0;
    while j < ns.len()
        invariant
            j <= ns.len(),
            ids == network_ssids(network_views(ns@)),
            forall|w: int| 0 <= w < j ==> ns@[w].ssid@ != s@,
        decreases ns.len() - j,
    {
        if same(&chars_of(ns[j].ssid.as_str()), s) {
            assert(ids[j as int] == s@);
            return true;
        }
        j += 1;
    }
    assert forall|w: int| 0 <= w < ids.len() implies ids[w] != s@ by {
        assert(ids[w] == ns@[w].ssid@);
    }
    false
}

/// A network name read from the scan is listed once, at its first line.
pub proof fn lemma_networks_in_distinct(ls: Seq<Seq<char>>, active: Option<Seq<char>>, saved: Seq<Seq<char>>)
    ensures
        network_ssids(networks_in(ls, active, saved)).no_duplicates(),
    decreases ls.len(),
{
    if ls.len() > 0 {
        lemma_networks_in_distinct(ls.drop_last(), active, saved);
        let acc = networks_in(ls.drop_last(), active, saved);
        match network_on_line(ls.last(), active, saved) {
            Some(n) => {
                if !network_ssids(acc).contains(n.ssid) {
                    let ids = network_ssids(acc);
                    assert(network_ssids(acc.push(n)) =~= ids.push(n.ssid));
                    assert forall|i: int, j: int|
                        0 <= i < ids.push(n.ssid).len() && 0 <= j < ids.push(n.ssid).len() && i != j implies ids.push(
                        n.ssid,
                    )[i] != ids.push(n.ssid)[j] by {
                        if i == ids.len() {
                            assert(ids.contains(ids[j]));
                        } else if j == ids.len() {
                            assert(ids.contains(ids[i]));
                        }
                    }
                }
            },
            None => {},
        }
    } else {
        assert(network_ssids(Seq::<NetworkView>::empty()) =~= Seq::<Seq<char>>::empty());
    }
}

/// Line `i` of the scan lists a network whose SSID no earlier line lists.
pub open spec fn first_of_ssid(ls: Seq<Seq<char>>, active: Option<Seq<char>>, saved: Seq<Seq<char>>, i: int) -> bool {
    &&& network_on_line(ls[i], active, saved) is Some
    &&& forall|h: int|
        0 <= h < i ==> !(#[trigger] network_on_line(ls[h], active, saved) matches Some(m) && m.ssid == network_on_line(
            ls[i],
            active,
            saved,
        )->0.ssid)
}

/// Each network read from a scan is the one of the first line of its SSID,
/// and every SSID that some line lists is read.
pub proof fn lemma_networks_in_first_of_each(ls: Seq<Seq<char>>, active: Option<Seq<char>>, saved: Seq<Seq<char>>)
    ensures
        forall|k: int|
            0 <= k < networks_in(ls, active, saved).len() ==> exists|i: int|
                0 <= i < ls.len() && first_of_ssid(ls, active, saved, i) && network_on_line(ls[i], active, saved) == Some(
                    #[trigger] networks_in(ls, active, saved)[k],
                ),
        forall|i: int|
            0 <= i < ls.len() ==> (#[trigger] network_on_line(ls[i], active, saved) matches Some(n) ==> network_ssids(
                networks_in(ls, active, saved),
            ).contains(n.ssid)),
    decreases ls.len(),
{
    if ls.len() > 0 {
        let n1 = ls.len() - 1;
        let ls2 = ls.drop_last();
        lemma_networks_in_first_of_each(ls2, active, saved);
        let acc = networks_in(ls2, active, saved);
        let r = networks_in(ls, active, saved);
        assert forall|i: int| 0 <= i < n1 implies ls2[i] == ls[i] by {}
        assert forall|i: int| 0 <= i < n1 && #[trigger] first_of_ssid(ls2, active, saved, i) implies first_of_ssid(ls, active, saved, i) by {
            assert forall|h: int| 0 <= h < i implies ls2[h] == ls[h] by {}
        }
        assert(network_ssids(acc).len() == acc.len());
        match network_on_line(ls.last(), active, saved) {
            Some(n) => {
                if !network_ssids(acc).contains(n.ssid) {
                    assert(network_ssids(r) =~= network_ssids(acc).push(n.ssid));
                    assert forall|h: int| 0 <= h < n1 implies !(#[trigger] network_on_line(ls[h], active, saved) matches Some(m) && m.ssid
                        == n.ssid) by {
                        assert(ls2[h] == ls[h]);
                    }
                    assert(first_of_ssid(ls, active, saved, n1));
                    assert forall|k: int| 0 <= k < r.len() implies exists|i: int|
                        0 <= i < ls.len() && first_of_ssid(ls, active, saved, i) && network_on_line(ls[i], active, saved) == Some(
                            #[trigger] r[k],
                        ) by {
                        if k < acc.len() {
                            assert(r[k] == acc[k]);
                            let i = choose|i: int|
                                0 <= i < ls2.len() && first_of_ssid(ls2, active, saved, i) && network_on_line(ls2[i], active, saved)
                                    == Some(#[trigger] acc[k]);
                            assert(first_of_ssid(ls, active, saved, i));
                        } else {
                            assert(network_on_line(ls[n1], active, saved) == Some(r[k]));
                        }
                    }
                    assert forall|i: int| 0 <= i < ls.len() implies (#[trigger] network_on_line(ls[i], active, saved) matches Some(m)
                        ==> network_ssids(r).contains(m.ssid)) by {
                        if i < n1 {
                            assert(ls2[i] == ls[i]);
                            if let Some(m) = network_on_line(ls[i], active, saved) {
                                assert(network_on_line(ls2[i], active, saved) == Some(m));
                                let w = choose|w: int| 0 <= w < network_ssids(acc).len() && network_ssids(acc)[w] == m.ssid;
                                assert(network_ssids(r)[w] == m.ssid);
                            }
                        } else {
                            assert(network_ssids(r)[acc.len() as int] == n.ssid);
                        }
                    }
                } else {
                    assert forall|i: int| 0 <= i < ls.len() implies (#[trigger] network_on_line(ls[i], active, saved) matches Some(m)
                        ==> network_ssids(r).contains(m.ssid)) by {
                        if i < n1 {
                            assert(ls2[i] == ls[i]);
                            assert(network_on_line(ls2[i], active, saved) == network_on_line(ls[i], active, saved));
                        }
                    }
                    assert forall|k: int| 0 <= k < r.len() implies exists|i: int|
                        0 <= i < ls.len() && first_of_ssid(ls, active, saved, i) && network_on_line(ls[i], active, saved) == Some(
                            #[trigger] r[k],
                        ) by {
                        let i = choose|i: int|
                            0 <= i < ls2.len() && first_of_ssid(ls2, active, saved, i) && network_on_line(ls2[i], active, saved)
                                == Some(#[trigger] acc[k]);
                        assert(first_of_ssid(ls, active, saved, i));
                    }
                }
            },
            None => {
                assert forall|i: int| 0 <= i < ls.len() implies (#[trigger] network_on_line(ls[i], active, saved) matches Some(m)
                    ==> network_ssids(r).contains(m.ssid)) by {
                    if i < n1 {
                        assert(ls2[i] == ls[i]);
                        assert(network_on_line(ls2[i], active, saved) == network_on_line(ls[i], active, saved));
                    }
                }
                assert forall|k: int| 0 <= k < r.len() implies exists|i: int|
                    0 <= i < ls.len() && first_of_ssid(ls, active, saved, i) && network_on_line(ls[i], active, saved) == Some(
                        #[trigger] r[k],
                    ) by {
                    let i = choose|i: int|
                        0 <= i < ls2.len() && first_of_ssid(ls2, active, saved, i) && network_on_line(ls2[i], active, saved)
                            == Some(#[trigger] acc[k]);
                    assert(first_of_ssid(ls, active, saved, i));
                }
            },
        }
    }
}

/// Reordering networks keeps their names free of repeats.
pub proof fn lemma_sort_keeps_ssids_distinct(out: Seq<Network>, inp: Seq<Network>)
    requires
        is_stable_sort(out, inp, network_order()),
        network_ssids(network_views(inp)).no_duplicates(),
    ensures
        network_ssids(network_views(out)).no_duplicates(),
{
    let perm = choose|perm: Seq<int>| stable_order_by(out, inp, perm, network_order());
    let a = network_ssids(network_views(out));
    let b = network_ssids(network_views(inp));
    assert forall|i: int, j: int| 0 <= i < a.len() && 0 <= j < a.len() && i != j implies a[i] != a[j] by {
        assert(out[i] == inp[perm[i]]);
        assert(out[j] == inp[perm[j]]);
        if i < j {
            assert(perm[i] != perm[j]);
        } else {
            assert(perm[j] != perm[i]);
        }
        assert(a[i] == b[perm[i]]);
        assert(a[j] == b[perm[j]]);
    }
}

/// The display order of networks is a strict weak order.
pub proof fn lemma_network_order()
    ensures
        strict_weak(network_order()),
{
}

/// Orders networks for display: connected first, then saved, then by
/// falling signal; networks that tie keep their order.
pub fn sort_networks(networks: Vec<Network>) -> (r: Vec<Network>)
    ensures
        is_stable_sort(r@, networks@, network_order()),
{
    proof {
        lemma_network_order();
    }
    let lt = |a: &Network, b: &Network| -> (r: bool)
        ensures
            r == network_before(a@, b@),
        {
            if a.connected != b.connected {
                a.connected && !b.connected
            } else if a.saved != b.saved {
                a.saved && !b.saved
            } else {
                a.signal > b.signal
            }
        };
    stable_sort(networks, lt, Ghost(network_order()))
}

/// The Wi-Fi networks in range, one per SSID, in display order; `None` when
/// `nmcli` could not be run for the list.
pub fn list_networks<F: Fn(Invocation) -> Option<ProcessOutput>>(run: &mut Runner<F>) -> (r: Option<Vec<Network>>)
    requires
        accepts_all(old(run).runs()),
    ensures
        grows(*old(run), *final(run)),
        added(*old(run), *final(run)).len() == 3,
        ({
            let calls = added(*old(run), *final(run));
            let o1 = calls[0].out;
            let o2 = calls[1].out;
            let o3 = calls[2].out;
            {
                &&& made(calls[0], "nmcli"@, saved_args())
                &&& made(calls[1], "nmcli"@, active_args())
                &&& made(calls[2], "nmcli"@, list_args())
                &&& (r is None <==> o3 is None)
                &&& (r matches Some(nets) ==> network_ssids(network_views(nets@)).no_duplicates())
                &&& (r matches Some(nets) ==> sorted_networks_of(
                    nets@,
                    networks_in(lines(stdout_of(o3)->0), active_from(o2), saved_from(o1)),
                ))
            }
        }),
{
    let ghost r0 = *run;
    let saved = get_saved_ssids(run);
    let ghost r1 = *run;
    let ghost o1 = added(r0, r1)[0].out;
    let active = get_active_ssid(run);
    let ghost r2 = *run;
    let ghost o2 = added(r1, r2)[0].out;
    let args = vec!["-t", "-f", "SSID,BSSID,SIGNAL,SECURITY,IN-USE", "dev", "wifi", "list"];
    assert(str_views(args@) =~= list_args());
    let out = call(run, "nmcli", args);
    let ghost o3 = out;
    proof {
        lemma_grows_trans(r0, r1, r2);
        lemma_grows_trans(r0, r2, *run);
        assert(added(r0, *run) =~= added(r0, r1) + added(r1, r2) + added(r2, *run));
    }
    let ghost gsaved = views(saved@);
    let ghost gactive = opt_chars(active);
    let t = match stdout_text(out) {
        Some(t) => t,
        None => {
            return None;
        },
    };
    proof {
        reveal_strlit("*");
    }
    let ls = lines_of(&chars_of(t.as_str()));
    let star = chars_of("*");
    let mut nets: Vec<Network> = Vec::new();
    let mut i: usize = 0;
    assert(network_views(nets@) =~= Seq::<NetworkView>::empty());
    while i < ls.len()
        invariant
            i <= ls.len(),
            views(ls@) == lines(t@),
            star@ == "*"@,
            gsaved == views(saved@),
            gactive == opt_chars(active),
            network_views(nets@) == networks_in(views(ls@).take(i as int), gactive, gsaved),
        decreases ls.len() - i,
    {
        assert(views(ls@).take(i + 1).drop_last() =~= views(ls@).take(i as int));
        assert(views(ls@).take(i + 1).last() == ls@[i as int]@);
        let p = terse_fields_of(&ls[i]);
        if p.len() >= 5 && p[0].len() > 0 {
            if !seen_ssid(&nets, &p[0]) {
                let is_active = match &active {
                    Some(a) => same(a, &p[0]),
                    None => false,
                };
                let connected = same(&p[4], &star) || is_active;
                let n = Network {
                    ssid: string_of(&p[0]),
                    bssid: string_of(&p[1]),
                    signal: match read_u8(&p[2]) {
                        Some(v) => v,
                        None => 0,
                    },
                    security: string_of(&p[3]),
                    connected,
                    ping: None,
                    saved: contains_name(&saved, &p[0]),
                };
                let ghost before = network_views(nets@);
                let ghost nv = n@;
                assert(network_on_line(ls@[i as int]@, gactive, gsaved) == Some(nv));
                nets.push(n);
                assert(network_views(nets@) =~= before.push(nv));
            }
        }
        i += 1;
    }
    assert(views(ls@).take(ls.len() as int) =~= views(ls@));
    let ghost inp = nets@;
    let sorted = sort_networks(nets);
    assert(t@ == stdout_of(o3)->0);
    assert(network_views(inp) == networks_in(lines(stdout_of(o3)->0), active_from(o2), saved_from(o1)));
    assert(is_stable_sort(sorted@, inp, network_order()));
    proof {
        lemma_networks_in_distinct(lines(stdout_of(o3)->0), active_from(o2), saved_from(o1));
        lemma_sort_keeps_ssids_distinct(sorted@, inp);
    }
    assert(sorted_networks_of(sorted@, networks_in(lines(stdout_of(o3)->0), active_from(o2), saved_from(o1))));
    Some(sorted)
}

/// In networks sorted for display, a connected network never follows a
/// disconnected one; among networks of the same connected state, a saved
/// network never follows an unsaved one; among networks alike in both, the
/// signal never rises.
pub proof fn lemma_sorted_networks_order(out: Seq<Network>, inp: Seq<Network>)
    requires
        is_stable_sort(out, inp, network_order()),
    ensures
        out.len() == inp.len(),
        forall|i: int, j: int|
            0 <= i < j < out.len() ==> {
                &&& (#[trigger] out[j])@.connected ==> (#[trigger] out[i])@.connected
                &&& out[i]@.connected == out[j]@.connected && out[j]@.saved ==> out[i]@.saved
                &&& out[i]@.connected == out[j]@.connected && out[i]@.saved == out[j]@.saved ==> out[j]@.signal
                    <= out[i]@.signal
            },
{
    let perm = choose|perm: Seq<int>| stable_order_by(out, inp, perm, network_order());
    assert forall|i: int, j: int| 0 <= i < j < out.len() implies !network_before((#[trigger] out[j])@, (#[trigger] out[i])@) by {
        assert(!network_order()(out[j], out[i]));
    }
}

} // verus!
