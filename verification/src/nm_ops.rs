//! NetworkManager operations: rescanning, VPNs, saved-connection settings,
//! interface statistics, connecting and disconnecting.
use vstd::prelude::*;
use crate::text::{
    chars_of, string_of, contains, includes, find, find_in, starts_with, begins_with, trim,
    trimmed, words, words_of, lines, lines_of, same, slice, split, split_on, parse_i32, read_i32,
    parse_u64, read_u64, views, rfind_char, rfind_in, concat,
};
use crate::process::{
    Invocation, ProcessOutput, accepts_all, invokes, stdout_of, succeeded, opt_view, owned,
    call, str_views, stdout_text, success_of, string_views, decimal, decimal_string, Call, Runner,
    grows, added, only, made, started, lemma_grows_trans, lemma_grows_refl,
};
use crate::nm::{
    VpnConnection, VpnView, vpn_views, NetworkConfig, NetworkConfigView, colon_fields, colon_fields_of,
};

verus! {

/// Asks NetworkManager to rescan for Wi-Fi networks, without waiting:
/// `spawn` starts `nmcli dev wifi rescan` in the background.
pub fn trigger_rescan<S: FnOnce(Invocation), F: Fn(Invocation) -> Option<ProcessOutput>>(spawn: S, run: &mut Runner<F>)
    requires
        forall|i: Invocation| #[trigger] call_requires(spawn, (i,)),
    ensures
        grows(*old(run), *final(run)),
        added(*old(run), *final(run)).len() == 1,
        started(added(*old(run), *final(run))[0], "nmcli"@, seq!["dev"@, "wifi"@, "rescan"@]),
        exists|i: Invocation|
            invokes(i, "nmcli"@, seq!["dev"@, "wifi"@, "rescan"@]) && #[trigger] call_ensures(
                spawn,
                (i,),
                (),
            ),
{
    let i = crate::process::invocation3("nmcli", "dev", "wifi", "rescan");
    let ghost g = i;
    let ghost r0 = *run;
    run.start(spawn, i);
    proof {
        assert(run.history().take(r0.history().len() as int) =~= r0.history());
        assert(added(r0, *run) =~= seq![Call { program: g.program@, args: string_views(g.args@), spawned: true, out: None }]);
    }
}

// ---------------------------------------------------------------------------
// VPNs
// ---------------------------------------------------------------------------

/// NetworkManager connections of type "wireguard", "vpn" or "openvpn" in
/// `nmcli -t -f NAME,TYPE,STATE c show` lines; active when "activated".
pub open spec fn nm_vpns(ls: Seq<Seq<char>>) -> Seq<VpnView>
    decreases ls.len(),
{
    if ls.len() == 0 {
        Seq::empty()
    } else {
        let acc = nm_vpns(ls.drop_last());
        let p = colon_fields(ls.last());
        if p.len() >= 3 && (p[1] == "wireguard"@ || p[1] == "vpn"@ || p[1] == "openvpn"@) {
            acc.push(VpnView { name: p[0], vpn_type: p[1], active: p[2] == "activated"@ })
        } else {
            acc
        }
    }
}

/// The VPN connection a `NAME:TYPE:STATE` line names: its type is one of
/// "wireguard", "vpn" and "openvpn", and it is active when its state is
/// "activated".
pub open spec fn vpn_line_entry(line: Seq<char>) -> Option<VpnView> {
    let p = colon_fields(line);
    if p.len() >= 3 && (p[1] == "wireguard"@ || p[1] == "vpn"@ || p[1] == "openvpn"@) {
        Some(VpnView { name: p[0], vpn_type: p[1], active: p[2] == "activated"@ })
    } else {
        None
    }
}

/// `line_of` maps each NetworkManager VPN read from `ls`, in order, to the
/// line it comes from, and reaches every VPN line.
pub open spec fn vpn_lines_match(ls: Seq<Seq<char>>, line_of: Seq<int>) -> bool {
    &&& line_of.len() == nm_vpns(ls).len()
    &&& forall|k: int|
        0 <= k < line_of.len() ==> 0 <= #[trigger] line_of[k] < ls.len() && vpn_line_entry(ls[line_of[k]]) == Some(
            nm_vpns(ls)[k],
        )
    &&& forall|k: int, m: int| 0 <= k < m < line_of.len() ==> #[trigger] line_of[k] < #[trigger] line_of[m]
    &&& forall|i: int|
        0 <= i < ls.len() && (#[trigger] vpn_line_entry(ls[i])) is Some ==> exists|k: int|
            0 <= k < line_of.len() && #[trigger] line_of[k] == i
}

/// The NetworkManager VPNs read from the connection lines are exactly the
/// VPN lines' entries, in the lines' order: entry `k` comes from line
/// `line_of(k)`, later entries from later lines, and every VPN line gives
/// an entry.
pub proof fn lemma_nm_vpns_are_vpn_lines(ls: Seq<Seq<char>>)
    ensures
        exists|line_of: Seq<int>| #[trigger] vpn_lines_match(ls, line_of),
    decreases ls.len(),
{
    if ls.len() == 0 {
        let line_of = Seq::<int>::empty();
        assert(vpn_lines_match(ls, line_of));
    } else {
        let n1 = ls.len() - 1;
        let ls2 = ls.drop_last();
        lemma_nm_vpns_are_vpn_lines(ls2);
        let lo = choose|line_of: Seq<int>| #[trigger] vpn_lines_match(ls2, line_of);
        assert forall|i: int| 0 <= i < n1 implies ls2[i] == ls[i] by {}
        let acc = nm_vpns(ls2);
        let r = nm_vpns(ls);
        let line_of = if vpn_line_entry(ls.last()) is Some {
            lo.push(n1)
        } else {
            lo
        };
        assert(line_of.len() == r.len());
        assert forall|k: int| 0 <= k < line_of.len() implies 0 <= #[trigger] line_of[k] < ls.len() && vpn_line_entry(
            ls[line_of[k]],
        ) == Some(r[k]) by {
            if k < lo.len() {
                assert(line_of[k] == lo[k]);
                assert(r[k] == acc[k]);
                assert(ls2[lo[k]] == ls[lo[k]]);
            }
        }
        assert forall|k: int, m: int| 0 <= k < m < line_of.len() implies #[trigger] line_of[k] < #[trigger] line_of[m] by {
            if m < lo.len() {
                assert(line_of[k] == lo[k] && line_of[m] == lo[m]);
            } else {
                assert(line_of[k] == lo[k]);
            }
        }
        assert forall|i: int| 0 <= i < ls.len() && (#[trigger] vpn_line_entry(ls[i])) is Some implies exists|k: int|
            0 <= k < line_of.len() && #[trigger] line_of[k] == i by {
            if i < n1 {
                assert(ls2[i] == ls[i]);
                assert(vpn_line_entry(ls2[i]) is Some);
                let k = choose|k: int| 0 <= k < lo.len() && #[trigger] lo[k] == i;
                assert(line_of[k] == i);
            } else {
                assert(line_of[lo.len() as int] == i);
            }
        }
        assert(vpn_lines_match(ls, line_of));
    }
}

/// The `nmcli` arguments that list the connections with their state.
pub open spec fn vpn_list_args() -> Seq<Seq<char>> {
    seq!["-t"@, "-f"@, "NAME,TYPE,STATE"@, "c"@, "show"@]
}

/// The Cloudflare WARP entry for a `warp-cli status` text.
pub open spec fn warp_entry(status: Seq<char>) -> VpnView {
    VpnView {
        name: "Cloudflare WARP"@,
        vpn_type: "warp"@,
        active: contains(status, "Status update: Connected"@) || contains(status, "Connected"@),
    }
}

/// The Hiddify entry.
pub open spec fn hiddify_entry() -> VpnView {
    VpnView { name: "Hiddify"@, vpn_type: "hiddify"@, active: true }
}

/// The runs and the VPN list: the NetworkManager VPN connections
/// (`nmcli ... c show`); `systemctl is-active warp-svc`, and when that
/// reports active, `warp-cli status`, whose answer adds Cloudflare WARP
/// (active when it reports "Connected"); then `ip link show hiddify-tun`,
/// which adds Hiddify when it succeeds, and when it runs without success,
/// `pgrep -x hiddify`, which adds Hiddify when it succeeds.
pub open spec fn vpn_list(calls: Seq<Call>, r: Seq<VpnView>) -> bool {
    let base = match stdout_of(calls[0].out) {
        Some(t) => nm_vpns(lines(t)),
        None => Seq::empty(),
    };
    let warp_active = match stdout_of(calls[1].out) {
        Some(t) => trim(t) == "active"@,
        None => false,
    };
    let w: int = if warp_active { 1 } else { 0 };
    let with_warp = if warp_active {
        match stdout_of(calls[2].out) {
            Some(s) => base.push(warp_entry(s)),
            None => base,
        }
    } else {
        base
    };
    let link = calls[2 + w];
    &&& calls.len() >= 3 + w
    &&& made(calls[0], "nmcli"@, vpn_list_args())
    &&& made(calls[1], "systemctl"@, seq!["is-active"@, "warp-svc"@])
    &&& warp_active ==> made(calls[2], "warp-cli"@, seq!["status"@])
    &&& made(link, "ip"@, seq!["link"@, "show"@, "hiddify-tun"@])
    &&& match link.out {
        None => calls.len() == 3 + w && r == with_warp,
        Some(l) => if l.success {
            calls.len() == 3 + w && r == with_warp.push(hiddify_entry())
        } else {
            &&& calls.len() == 4 + w
            &&& made(calls[3 + w], "pgrep"@, seq!["-x"@, "hiddify"@])
            &&& r == if succeeded(calls[3 + w].out) {
                with_warp.push(hiddify_entry())
            } else {
                with_warp
            }
        },
    }
}

fn vpn_entry(name: &str, vpn_type: &str, active: bool) -> (v: VpnConnection)
    ensures
        v@ == (VpnView { name: name@, vpn_type: vpn_type@, active }),
{
    VpnConnection { name: owned(name), vpn_type: owned(vpn_type), active }
}

fn push_vpn(v: &mut Vec<VpnConnection>, e: VpnConnection)
    ensures
        vpn_views(final(v)@) == vpn_views(old(v)@).push(e@),
{
    let ghost before = vpn_views(v@);
    let ghost ev = e@;
    v.push(e);
    assert(vpn_views(v@) =~= before.push(ev));
}

/// Every VPN the machine knows, with whether it is active.
pub fn list_vpns<F: Fn(Invocation) -> Option<ProcessOutput>>(run: &mut Runner<F>) -> (r: Vec<VpnConnection>)
    requires
        accepts_all(old(run).runs()),
    ensures
        grows(*old(run), *final(run)),
        vpn_list(added(*old(run), *final(run)), vpn_views(r@)),
{
    let ghost r0 = *run;
    let mut vpns: Vec<VpnConnection> = Vec::new();
    let args1 = vec!["-t", "-f", "NAME,TYPE,STATE", "c", "show"];
    assert(str_views(args1@) =~= vpn_list_args());
    let out1 = call(run, "nmcli", args1);
    let ghost o1 = out1;
    let ghost r1 = *run;
    assert(vpn_views(vpns@) =~= Seq::<VpnView>::empty());
    match stdout_text(out1) {
        Some(t) => {
            let ls = lines_of(&chars_of(t.as_str()));
            let mut i: usize = 0;
            while i < ls.len()
                invariant
                    i <= ls.len(),
                    views(ls@) == lines(t@),
                    vpn_views(vpns@) == nm_vpns(views(ls@).take(i as int)),
                decreases ls.len() - i,
            {
                assert(views(ls@).take(i + 1).drop_last() =~= views(ls@).take(i as int));
                assert(views(ls@).take(i + 1).last() == ls@[i as int]@);
                let p = colon_fields_of(&ls[i]);
                if p.len() >= 3 {
                    let ty = &p[1];
                    if same(ty, &chars_of("wireguard")) || same(ty, &chars_of("vpn")) || same(
                        ty,
                        &chars_of("openvpn"),
                    ) {
                        let e = VpnConnection {
                            name: string_of(&p[0]),
                            vpn_type: string_of(&p[1]),
                            active: same(&p[2], &chars_of("activated")),
                        };
                        push_vpn(&mut vpns, e);
                    }
                }
                i += 1;
            }
            assert(views(ls@).take(ls.len() as int) =~= views(ls@));
        },
        None => {},
    }
    let ghost base = vpn_views(vpns@);
    let args2 = vec!["is-active", "warp-svc"];
    assert(str_views(args2@) =~= seq!["is-active"@, "warp-svc"@]);
    let out2 = call(run, "systemctl", args2);
    let ghost o2 = out2;
    proof {
        lemma_grows_trans(r0, r1, *run);
    }
    let ghost r2 = *run;
    let ghost mut g3: Option<ProcessOutput> = None;
    let ghost mut g5: Option<ProcessOutput> = None;
    let warp_active = match stdout_text(out2) {
        Some(t) => same(&trimmed(&chars_of(t.as_str())), &chars_of("active")),
        None => false,
    };
    if warp_active {
        let args3 = vec!["status"];
        assert(str_views(args3@) =~= seq!["status"@]);
        let out3 = call(run, "warp-cli", args3);
        let ghost o3 = out3;
        match stdout_text(out3) {
            Some(s) => {
                let sc = chars_of(s.as_str());
                let active = includes(&sc, &chars_of("Status update: Connected")) || includes(
                    &sc,
                    &chars_of("Connected"),
                );
                push_vpn(&mut vpns, vpn_entry("Cloudflare WARP", "warp", active));
            },
            None => {},
        }
        proof {
            lemma_grows_trans(r0, r2, *run);
            g3 = o3;
        }
        assert(vpn_views(vpns@) == match stdout_of(g3) {
            Some(s) => base.push(warp_entry(s)),
            None => base,
        });
    }
    let ghost with_warp = vpn_views(vpns@);
    let ghost r3 = *run;
    let ghost pre = added(r0, r3);
    let args4 = vec!["link", "show", "hiddify-tun"];
    assert(str_views(args4@) =~= seq!["link"@, "show"@, "hiddify-tun"@]);
    let out4 = call(run, "ip", args4);
    let ghost o4 = out4;
    proof {
        lemma_grows_trans(r0, r3, *run);
    }
    let ghost r4 = *run;
    match &out4 {
        Some(link) => {
            if link.success {
                push_vpn(&mut vpns, vpn_entry("Hiddify", "hiddify", true));
            } else {
                let args5 = vec!["-x", "hiddify"];
                assert(str_views(args5@) =~= seq!["-x"@, "hiddify"@]);
                let out5 = call(run, "pgrep", args5);
                let ghost o5 = out5;
                if success_of(&out5) {
                    push_vpn(&mut vpns, vpn_entry("Hiddify", "hiddify", true));
                }
                proof {
                    lemma_grows_trans(r0, r4, *run);
                    g5 = o5;
                }
            }
        },
        None => {},
    }
    assert(warp_active == match stdout_of(o2) {
        Some(t) => trim(t) == "active"@,
        None => false,
    });
    assert(base == match stdout_of(o1) {
        Some(t) => nm_vpns(lines(t)),
        None => Seq::<VpnView>::empty(),
    });
    vpns
}

/// Turns a VPN on or off: WARP through `warp-cli connect|disconnect`,
/// NetworkManager connections through `nmcli c up|down <name>`; Hiddify
/// cannot be switched from here.
pub fn toggle_vpn<F: Fn(Invocation) -> Option<ProcessOutput>>(
    name: &str,
    vpn_type: &str,
    enable: bool,
    run: &mut Runner<F>,
) -> (r: bool)
    requires
        accepts_all(old(run).runs()),
    ensures
        grows(*old(run), *final(run)),
        vpn_type@ == "warp"@ ==> only(
            added(*old(run), *final(run)),
            "warp-cli"@,
            seq![if enable { "connect"@ } else { "disconnect"@ }],
        ) && r == succeeded(added(*old(run), *final(run))[0].out),
        vpn_type@ == "hiddify"@ ==> added(*old(run), *final(run)).len() == 0 && !r,
        vpn_type@ != "warp"@ && vpn_type@ != "hiddify"@ ==> only(
            added(*old(run), *final(run)),
            "nmcli"@,
            seq!["c"@, if enable { "up"@ } else { "down"@ }, name@],
        ) && r == succeeded(added(*old(run), *final(run))[0].out),
{
    proof {
        reveal_strlit("warp");
        reveal_strlit("hiddify");
        assert("hiddify"@.len() != "warp"@.len());
        lemma_grows_refl(*run);
    }
    let ty = chars_of(vpn_type);
    if same(&ty, &chars_of("warp")) {
        let arg = if enable {
            "connect"
        } else {
            "disconnect"
        };
        let args = vec![arg];
        assert(str_views(args@) =~= seq![if enable { "connect"@ } else { "disconnect"@ }]);
        let out = call(run, "warp-cli", args);
        success_of(&out)
    } else if same(&ty, &chars_of("hiddify")) {
        false
    } else {
        let arg = if enable {
            "up"
        } else {
            "down"
        };
        let args = vec!["c", arg, name];
        assert(str_views(args@) =~= seq!["c"@, if enable { "up"@ } else { "down"@ }, name@]);
        let out = call(run, "nmcli", args);
        success_of(&out)
    }
}

// ---------------------------------------------------------------------------
// Importing a VPN configuration
// ---------------------------------------------------------------------------

/// The components of a path that name something: the pieces between
/// `'/'`, without empty and `"."` pieces.
pub open spec fn named_components(pieces: Seq<Seq<char>>) -> Seq<Seq<char>>
    decreases pieces.len(),
{
    if pieces.len() == 0 {
        Seq::empty()
    } else {
        let acc = named_components(pieces.drop_last());
        if pieces.last().len() == 0 || pieces.last() == "."@ {
            acc
        } else {
            acc.push(pieces.last())
        }
    }
}

/// The final component of a path when it is a name (`Path::file_name`).
pub open spec fn file_name(path: Seq<char>) -> Option<Seq<char>> {
    let c = named_components(split(path, "/"@));
    if c.len() == 0 || c.last() == ".."@ {
        None
    } else {
        Some(c.last())
    }
}

/// The text after the last `'.'` of the file name, when there is a `'.'`
/// that is not the first character of the name (`Path::extension`).
pub open spec fn extension(path: Seq<char>) -> Option<Seq<char>> {
    match file_name(path) {
        None => None,
        Some(name) => match rfind_char(name, '.') {
            None => None,
            Some(k) => if k == 0 {
                None
            } else {
                Some(name.skip(k + 1))
            },
        },
    }
}

/// The connection type a configuration file is imported as: "wireguard"
/// for `.conf`, "openvpn" for `.ovpn`.
pub open spec fn import_type(path: Seq<char>) -> Option<Seq<char>> {
    match extension(path) {
        Some(e) => if e == "conf"@ {
            Some("wireguard"@)
        } else if e == "ovpn"@ {
            Some("openvpn"@)
        } else {
            None
        },
        None => None,
    }
}

/// The last `c` of `s` is at the index `rfind_char` gives.
proof fn lemma_rfind_char(s: Seq<char>, c: char)
    ensures
        rfind_char(s, c) matches Some(k) ==> 0 <= k < s.len() && s[k] == c && forall|j: int| k < j < s.len() ==> s[j] != c,
        rfind_char(s, c) is None ==> forall|j: int| 0 <= j < s.len() ==> s[j] != c,
    decreases s.len(),
{
    if s.len() > 0 {
        lemma_rfind_char(s.drop_last(), c);
        assert forall|j: int| 0 <= j < s.len() - 1 implies s.drop_last()[j] == s[j] by {}
    }
}

/// A path's extension is the text after the last `'.'` of its file name,
/// with a non-empty stem before that `'.'`: it holds no `'.'` itself.
pub proof fn lemma_extension_after_last_dot(path: Seq<char>)
    ensures
        extension(path) matches Some(e) ==> exists|stem: Seq<char>|
            stem.len() > 0 && file_name(path) == Some(stem + seq!['.'] + e)
                && forall|j: int| 0 <= j < e.len() ==> e[j] != '.',
{
    if let Some(e) = extension(path) {
        let name = file_name(path)->0;
        let k = rfind_char(name, '.')->0;
        lemma_rfind_char(name, '.');
        let stem = name.take(k);
        assert(name =~= stem + seq!['.'] + e);
        assert forall|j: int| 0 <= j < e.len() implies e[j] != '.' by {
            assert(e[j] == name[k + 1 + j]);
        }
    }
}

/// A configuration file is imported by its extension alone: a `.ovpn` file
/// as an OpenVPN connection, a `.conf` file as a WireGuard one, and a file
/// with any other extension, or none, not at all.
pub proof fn lemma_import_type_by_extension(path: Seq<char>)
    ensures
        extension(path) == Some("ovpn"@) ==> import_type(path) == Some("openvpn"@),
        extension(path) == Some("conf"@) ==> import_type(path) == Some("wireguard"@),
        extension(path) != Some("ovpn"@) && extension(path) != Some("conf"@) ==> import_type(path) is None,
        forall|other: Seq<char>| extension(other) == extension(path) ==> import_type(other) == import_type(path),
{
    reveal_strlit("ovpn");
    reveal_strlit("conf");
    assert("ovpn"@ != "conf"@) by {
        assert("ovpn"@[0] != "conf"@[0]);
    }
}

fn named_components_of(pieces: &Vec<Vec<char>>) -> (r: Vec<Vec<char>>)
    ensures
        views(r@) == named_components(views(pieces@)),
{
    let dot = chars_of(".");
    let mut r: Vec<Vec<char>> = Vec::new();
    let mut i: usize = 0;
    while i < pieces.len()
        invariant
            i <= pieces.len(),
            dot@ == "."@,
            views(r@) == named_components(views(pieces@).take(i as int)),
        decreases pieces.len() - i,
    {
        assert(views(pieces@).take(i + 1).drop_last() =~= views(pieces@).take(i as int));
        assert(views(pieces@).take(i + 1).last() == pieces@[i as int]@);
        if !(pieces[i].len() == 0 || same(&pieces[i], &dot)) {
            let copy = slice(&pieces[i], 0, pieces[i].len());
            assert(copy@ =~= pieces@[i as int]@);
            let ghost before = views(r@);
            r.push(copy);
            assert(views(r@) =~= before.push(pieces@[i as int]@));
        }
        i += 1;
    }
    assert(views(pieces@).take(pieces.len() as int) =~= views(pieces@));
    r
}

/// The extension of a path, as `Path::extension` gives it.
pub fn path_extension(path: &str) -> (r: Option<Vec<char>>)
    ensures
        crate::nm::opt_chars(r) == extension(path@),
{
    proof {
        reveal_strlit("/");
    }
    let pieces = split_on(&chars_of(path), &chars_of("/"));
    let comps = named_components_of(&pieces);
    if comps.len() == 0 {
        return None;
    }
    let last = &comps[comps.len() - 1];
    if same(last, &chars_of("..")) {
        return None;
    }
    assert(last@ == file_name(path@)->0);
    match rfind_in(last, '.') {
        None => None,
        Some(k) => {
            if k == 0 {
                None
            } else {
                let e = slice(last, k + 1, last.len());
                assert(e@ =~= last@.skip(k + 1));
                Some(e)
            }
        },
    }
}

/// Imports a WireGuard (`.conf`) or OpenVPN (`.ovpn`) configuration file
/// as a NetworkManager connection. False, with nothing run, for any other
/// file.
pub fn import_vpn<F: Fn(Invocation) -> Option<ProcessOutput>>(file_path: &str, run: &mut Runner<F>) -> (r: bool)
    requires
        accepts_all(old(run).runs()),
    ensures
        grows(*old(run), *final(run)),
        import_type(file_path@) is None ==> added(*old(run), *final(run)).len() == 0 && !r,
        import_type(file_path@) matches Some(t) ==> only(
            added(*old(run), *final(run)),
            "nmcli"@,
            seq!["connection"@, "import"@, "type"@, t, "file"@, file_path@],
        ) && r == succeeded(added(*old(run), *final(run))[0].out),
{
    proof {
        lemma_grows_refl(*run);
    }
    let vpn_type = match path_extension(file_path) {
        Some(e) => {
            if same(&e, &chars_of("conf")) {
                "wireguard"
            } else if same(&e, &chars_of("ovpn")) {
                "openvpn"
            } else {
                return false;
            }
        },
        None => {
            return false;
        },
    };
    let args = vec!["connection", "import", "type", vpn_type, "file", file_path];
    assert(str_views(args@) =~= seq!["connection"@, "import"@, "type"@, vpn_type@, "file"@, file_path@]);
    let out = call(run, "nmcli", args);
    success_of(&out)
}


// ---------------------------------------------------------------------------
// Saved connections
// ---------------------------------------------------------------------------

/// Brings a saved connection down (outcome ignored), then deletes it.
pub fn forget_network<F: Fn(Invocation) -> Option<ProcessOutput>>(ssid: &str, run: &mut Runner<F>) -> (r: bool)
    requires
        accepts_all(old(run).runs()),
    ensures
        grows(*old(run), *final(run)),
        added(*old(run), *final(run)).len() == 2,
        made(added(*old(run), *final(run))[0], "nmcli"@, seq!["connection"@, "down"@, "id"@, ssid@]),
        made(added(*old(run), *final(run))[1], "nmcli"@, seq!["connection"@, "delete"@, "id"@, ssid@]),
        r == succeeded(added(*old(run), *final(run))[1].out),
{
    let ghost r0 = *run;
    let a1 = vec!["connection", "down", "id", ssid];
    assert(str_views(a1@) =~= seq!["connection"@, "down"@, "id"@, ssid@]);
    let _ = call(run, "nmcli", a1);
    let ghost r1 = *run;
    let a2 = vec!["connection", "delete", "id", ssid];
    assert(str_views(a2@) =~= seq!["connection"@, "delete"@, "id"@, ssid@]);
    let out = call(run, "nmcli", a2);
    proof {
        lemma_grows_trans(r0, r1, *run);
    }
    success_of(&out)
}

/// The `nmcli` arguments that show a saved connection.
pub open spec fn info_args(ssid: Seq<char>) -> Seq<Seq<char>> {
    seq!["-t"@, "-f"@, "GENERAL,IP4,IP6,PROXY"@, "connection"@, "show"@, ssid]
}

/// The text shown when a connection has no details.
pub open spec fn no_info_text(ssid: Seq<char>) -> Seq<char> {
    "SSID: "@ + ssid + "\nNo detailed connection info available."@
}

/// The details `nmcli` shows for a saved connection, or a short note when it
/// cannot show them.
pub fn get_network_info<F: Fn(Invocation) -> Option<ProcessOutput>>(ssid: &str, run: &mut Runner<F>) -> (r: String)
    requires
        accepts_all(old(run).runs()),
    ensures
        grows(*old(run), *final(run)),
        only(added(*old(run), *final(run)), "nmcli"@, info_args(ssid@)),
        r@ == if succeeded(added(*old(run), *final(run))[0].out) {
            stdout_of(added(*old(run), *final(run))[0].out)->0
        } else {
            no_info_text(ssid@)
        },
{
    let a = vec!["-t", "-f", "GENERAL,IP4,IP6,PROXY", "connection", "show", ssid];
    assert(str_views(a@) =~= info_args(ssid@));
    let out = call(run, "nmcli", a);
    if success_of(&out) {
        return stdout_text(out).unwrap();
    }
    let head = concat(&chars_of("SSID: "), &chars_of(ssid));
    let all = concat(&head, &chars_of("\nNo detailed connection info available."));
    string_of(&all)
}

/// The `nmcli` arguments that show a connection's settings.
pub open spec fn config_args(ssid: Seq<char>) -> Seq<Seq<char>> {
    seq![
        "-t"@,
        "-f"@,
        "connection.autoconnect,connection.autoconnect-priority,ipv4.dns,ipv4.method"@,
        "connection"@,
        "show"@,
        ssid,
    ]
}

/// The settings assumed before any line is read.
pub open spec fn config_start() -> NetworkConfigView {
    NetworkConfigView { autoconnect: true, priority: 0, dns: Seq::empty(), ip4_method: "auto"@ }
}

/// One `key:value` line of the settings: the value is the second field.
pub open spec fn config_step(c: NetworkConfigView, line: Seq<char>) -> NetworkConfigView {
    let p = colon_fields(line);
    if p.len() < 2 {
        c
    } else if p[0] == "connection.autoconnect"@ {
        NetworkConfigView { autoconnect: p[1] == "yes"@, ..c }
    } else if p[0] == "connection.autoconnect-priority"@ {
        NetworkConfigView {
            priority: match parse_i32(p[1]) {
                Some(v) => v,
                None => 0,
            },
            ..c
        }
    } else if p[0] == "ipv4.dns"@ {
        NetworkConfigView { dns: p[1], ..c }
    } else if p[0] == "ipv4.method"@ {
        NetworkConfigView { ip4_method: p[1], ..c }
    } else {
        c
    }
}

/// The settings after reading the lines `ls`.
pub open spec fn config_fold(ls: Seq<Seq<char>>) -> NetworkConfigView
    decreases ls.len(),
{
    if ls.len() == 0 {
        config_start()
    } else {
        config_step(config_fold(ls.drop_last()), ls.last())
    }
}

/// A settings line `key:value...` for `key`.
pub open spec fn is_key_line(line: Seq<char>, key: Seq<char>) -> bool {
    colon_fields(line).len() >= 2 && colon_fields(line)[0] == key
}

/// Line `j` is the last settings line for `key`.
pub open spec fn last_key_line(ls: Seq<Seq<char>>, key: Seq<char>, j: int) -> bool {
    &&& 0 <= j < ls.len()
    &&& is_key_line(ls[j], key)
    &&& forall|k: int| j < k < ls.len() ==> !is_key_line(#[trigger] ls[k], key)
}

/// No settings line is for `key`.
pub open spec fn no_key_line(ls: Seq<Seq<char>>, key: Seq<char>) -> bool {
    forall|k: int| 0 <= k < ls.len() ==> !is_key_line(#[trigger] ls[k], key)
}

/// Removing the last line keeps the last line for a key that the removed
/// line is not for, and the absence of such lines.
proof fn lemma_key_lines_drop_last(ls: Seq<Seq<char>>, key: Seq<char>)
    requires
        ls.len() > 0,
    ensures
        is_key_line(ls.last(), key) ==> forall|j: int| #[trigger] last_key_line(ls, key, j) ==> j == ls.len() - 1,
        is_key_line(ls.last(), key) ==> last_key_line(ls, key, ls.len() - 1),
        !is_key_line(ls.last(), key) ==> forall|j: int| #[trigger] last_key_line(ls, key, j) ==> last_key_line(ls.drop_last(), key, j),
        !is_key_line(ls.last(), key) && no_key_line(ls, key) ==> no_key_line(ls.drop_last(), key),
        !is_key_line(ls.last(), key) ==> (no_key_line(ls.drop_last(), key) ==> no_key_line(ls, key)),
{
    let n1 = ls.len() - 1;
    let ls2 = ls.drop_last();
    assert forall|i: int| 0 <= i < n1 implies ls2[i] == ls[i] by {}
    if is_key_line(ls.last(), key) {
        assert forall|j: int| #[trigger] last_key_line(ls, key, j) implies j == n1 by {
            if j < n1 {
                assert(!is_key_line(ls[n1], key));
            }
        }
    } else {
        assert forall|j: int| #[trigger] last_key_line(ls, key, j) implies last_key_line(ls2, key, j) by {
            assert(j != n1);
            assert forall|k: int| j < k < ls2.len() implies !is_key_line(#[trigger] ls2[k], key) by {
                assert(ls2[k] == ls[k]);
            }
        }
        if no_key_line(ls, key) {
            assert forall|k: int| 0 <= k < ls2.len() implies !is_key_line(#[trigger] ls2[k], key) by {
                assert(ls2[k] == ls[k]);
            }
        }
        if no_key_line(ls2, key) {
            assert forall|k: int| 0 <= k < ls.len() implies !is_key_line(#[trigger] ls[k], key) by {
                if k < n1 {
                    assert(ls2[k] == ls[k]);
                }
            }
        }
    }
}

/// Each setting read from `nmcli` is taken from the last line for its key:
/// autoconnect is on when that line's value is "yes", the priority is its
/// number (0 when unreadable), DNS and the IPv4 method are its text. With no
/// line for a key the setting keeps its default: autoconnect on, priority 0,
/// no DNS, method "auto".
pub proof fn lemma_config_from_last_lines(ls: Seq<Seq<char>>)
    ensures
        ({
            let c = config_fold(ls);
            &&& no_key_line(ls, "connection.autoconnect"@) ==> c.autoconnect
            &&& forall|j: int|
                #[trigger] last_key_line(ls, "connection.autoconnect"@, j) ==> c.autoconnect == (colon_fields(ls[j])[1] == "yes"@)
            &&& no_key_line(ls, "connection.autoconnect-priority"@) ==> c.priority == 0
            &&& forall|j: int|
                #[trigger] last_key_line(ls, "connection.autoconnect-priority"@, j) ==> c.priority == match parse_i32(
                    colon_fields(ls[j])[1],
                ) {
                    Some(v) => v,
                    None => 0,
                }
            &&& no_key_line(ls, "ipv4.dns"@) ==> c.dns == Seq::<char>::empty()
            &&& forall|j: int| #[trigger] last_key_line(ls, "ipv4.dns"@, j) ==> c.dns == colon_fields(ls[j])[1]
            &&& no_key_line(ls, "ipv4.method"@) ==> c.ip4_method == "auto"@
            &&& forall|j: int| #[trigger] last_key_line(ls, "ipv4.method"@, j) ==> c.ip4_method == colon_fields(ls[j])[1]
        }),
    decreases ls.len(),
{
    reveal_strlit("connection.autoconnect");
    reveal_strlit("connection.autoconnect-priority");
    reveal_strlit("ipv4.dns");
    reveal_strlit("ipv4.method");
    if ls.len() > 0 {
        let ls2 = ls.drop_last();
        lemma_config_from_last_lines(ls2);
        lemma_key_lines_drop_last(ls, "connection.autoconnect"@);
        lemma_key_lines_drop_last(ls, "connection.autoconnect-priority"@);
        lemma_key_lines_drop_last(ls, "ipv4.dns"@);
        lemma_key_lines_drop_last(ls, "ipv4.method"@);
        let n1 = ls.len() - 1;
        assert(ls[n1] == ls.last());
        let p = colon_fields(ls.last());
        let a = "connection.autoconnect"@;
        let q = "connection.autoconnect-priority"@;
        let d = "ipv4.dns"@;
        let m = "ipv4.method"@;
        assert(a.len() != q.len() && a.len() != d.len() && a.len() != m.len() && q.len() != d.len() && q.len() != m.len()
            && d.len() != m.len());
        let c2 = config_fold(ls2);
        let c = config_fold(ls);
        if is_key_line(ls.last(), a) {
            assert(c.autoconnect == (p[1] == "yes"@));
            assert(c.priority == c2.priority && c.dns == c2.dns && c.ip4_method == c2.ip4_method);
        } else if is_key_line(ls.last(), q) {
            assert(c.autoconnect == c2.autoconnect && c.dns == c2.dns && c.ip4_method == c2.ip4_method);
        } else if is_key_line(ls.last(), d) {
            assert(c.autoconnect == c2.autoconnect && c.priority == c2.priority && c.ip4_method == c2.ip4_method);
        } else if is_key_line(ls.last(), m) {
            assert(c.autoconnect == c2.autoconnect && c.priority == c2.priority && c.dns == c2.dns);
        } else {
            assert(c == c2);
        }
    } else {
        assert forall|j: int| !#[trigger] last_key_line(ls, "ipv4.dns"@, j) by {}
    }
}

/// The settings of a saved connection, or `None` when `nmcli` fails.
pub fn get_network_config<F: Fn(Invocation) -> Option<ProcessOutput>>(ssid: &str, run: &mut Runner<F>) -> (r: Option<NetworkConfig>)
    requires
        accepts_all(old(run).runs()),
    ensures
        grows(*old(run), *final(run)),
        only(added(*old(run), *final(run)), "nmcli"@, config_args(ssid@)),
        match r {
            None => !succeeded(added(*old(run), *final(run))[0].out),
            Some(c) => succeeded(added(*old(run), *final(run))[0].out) && c@ == config_fold(
                lines(stdout_of(added(*old(run), *final(run))[0].out)->0),
            ),
        },
{
    let a = vec![
        "-t",
        "-f",
        "connection.autoconnect,connection.autoconnect-priority,ipv4.dns,ipv4.method",
        "connection",
        "show",
        ssid,
    ];
    assert(str_views(a@) =~= config_args(ssid@));
    let out = call(run, "nmcli", a);
    let ghost o = out;
    if !success_of(&out) {
        return None;
    }
    let t = stdout_text(out).unwrap();
    let ls = lines_of(&chars_of(t.as_str()));
    let mut autoconnect = true;
    let mut priority: i32 = 0;
    let mut dns: Vec<char> = Vec::new();
    let mut method = chars_of("auto");
    let mut i: usize = 0;
    let ghost rr = *run;
    while i < ls.len()
        invariant
            *run == rr,
            i <= ls.len(),
            views(ls@) == lines(t@),
            config_fold(views(ls@).take(i as int)) == (NetworkConfigView {
                autoconnect,
                priority,
                dns: dns@,
                ip4_method: method@,
            }),
        decreases ls.len() - i,
    {
        assert(views(ls@).take(i + 1).drop_last() =~= views(ls@).take(i as int));
        assert(views(ls@).take(i + 1).last() == ls@[i as int]@);
        let p = colon_fields_of(&ls[i]);
        if p.len() >= 2 {
            let key = &p[0];
            if same(key, &chars_of("connection.autoconnect")) {
                autoconnect = same(&p[1], &chars_of("yes"));
            } else if same(key, &chars_of("connection.autoconnect-priority")) {
                priority = match read_i32(&p[1]) {
                    Some(v) => v,
                    None => 0,
                };
            } else if same(key, &chars_of("ipv4.dns")) {
                dns = slice(&p[1], 0, p[1].len());
                assert(dns@ =~= p@[1]@);
            } else if same(key, &chars_of("ipv4.method")) {
                method = slice(&p[1], 0, p[1].len());
                assert(method@ =~= p@[1]@);
            }
        }
        i += 1;
    }
    assert(views(ls@).take(ls.len() as int) =~= views(ls@));
    Some(
        NetworkConfig {
            autoconnect,
            priority,
            dns: string_of(&dns),
            ip4_method: string_of(&method),
        },
    )
}

/// `n` in decimal, with a leading `'-'` when negative (`i32::to_string`).
pub open spec fn signed_decimal(n: int) -> Seq<char> {
    if n < 0 {
        "-"@ + decimal((-n) as nat)
    } else {
        decimal(n as nat)
    }
}

/// `n` written in decimal.
pub fn signed_decimal_string(n: i32) -> (s: String)
    ensures
        s@ == signed_decimal(n as int),
{
    if n < 0 {
        let m = (0 - (n as i64)) as u64;
        let digits = decimal_string(m);
        let all = concat(&chars_of("-"), &chars_of(digits.as_str()));
        string_of(&all)
    } else {
        decimal_string(n as u64)
    }
}

/// The `nmcli connection modify` arguments that store the settings; the DNS
/// servers only when some are given.
pub open spec fn modify_args(ssid: Seq<char>, c: NetworkConfigView) -> Seq<Seq<char>> {
    let base = seq![
        "connection"@,
        "modify"@,
        ssid,
        "connection.autoconnect"@,
        if c.autoconnect {
            "yes"@
        } else {
            "no"@
        },
        "connection.autoconnect-priority"@,
        signed_decimal(c.priority as int),
        "ipv4.method"@,
        c.ip4_method,
    ];
    if c.dns.len() > 0 {
        base + seq!["ipv4.dns"@, c.dns]
    } else {
        base
    }
}

/// Stores the settings of a saved connection.
pub fn update_network_config<F: Fn(Invocation) -> Option<ProcessOutput>>(
    ssid: &str,
    config: NetworkConfig,
    run: &mut Runner<F>,
) -> (r: bool)
    requires
        accepts_all(old(run).runs()),
    ensures
        grows(*old(run), *final(run)),
        only(added(*old(run), *final(run)), "nmcli"@, modify_args(ssid@, config@)),
        r == succeeded(added(*old(run), *final(run))[0].out),
{
    let prio = signed_decimal_string(config.priority);
    let auto = if config.autoconnect {
        "yes"
    } else {
        "no"
    };
    let mut a = vec![
        "connection",
        "modify",
        ssid,
        "connection.autoconnect",
        auto,
        "connection.autoconnect-priority",
        prio.as_str(),
        "ipv4.method",
        config.ip4_method.as_str(),
    ];
    let ghost base = str_views(a@);
    if config.dns.as_str().unicode_len() > 0 {
        a.push("ipv4.dns");
        a.push(config.dns.as_str());
        assert(str_views(a@) =~= base + seq!["ipv4.dns"@, config.dns@]);
    }
    assert(str_views(a@) =~= modify_args(ssid@, config@));
    let out = call(run, "nmcli", a);
    success_of(&out)
}

// ---------------------------------------------------------------------------
// Latency, the Wi-Fi interface and its counters
// ---------------------------------------------------------------------------

/// The `ping` arguments: one probe, one second of waiting.
pub open spec fn ping_args(host: Seq<char>) -> Seq<Seq<char>> {
    seq!["-c"@, "1"@, "-W"@, "1"@, host]
}

/// The round-trip time text in `ping` output: the first word after the
/// first "time=".
pub open spec fn ping_time_in(text: Seq<char>) -> Option<Seq<char>> {
    let parts = split(text, "time="@);
    if parts.len() >= 2 && words(parts[1]).len() > 0 {
        Some(words(parts[1])[0])
    } else {
        None
    }
}

/// Pings `host` once with a one-second wait and returns the reported
/// round-trip time as text (milliseconds), or `None` when the ping fails or
/// reports no time.
pub fn ping_time_text<F: Fn(Invocation) -> Option<ProcessOutput>>(host: &str, run: &mut Runner<F>) -> (r: Option<String>)
    requires
        accepts_all(old(run).runs()),
    ensures
        grows(*old(run), *final(run)),
        only(added(*old(run), *final(run)), "ping"@, ping_args(host@)),
        opt_view(r) == if succeeded(added(*old(run), *final(run))[0].out) {
            ping_time_in(stdout_of(added(*old(run), *final(run))[0].out)->0)
        } else {
            None
        },
{
    let a = vec!["-c", "1", "-W", "1", host];
    assert(str_views(a@) =~= ping_args(host@));
    let out = call(run, "ping", a);
    let ghost o = out;
    if !success_of(&out) {
        return None;
    }
    let t = stdout_text(out).unwrap();
    proof {
        reveal_strlit("time=");
    }
    let parts = split_on(&chars_of(t.as_str()), &chars_of("time="));
    if parts.len() >= 2 {
        let w = words_of(&parts[1]);
        if w.len() > 0 {
            return Some(string_of(&w[0]));
        }
    }
    None
}

/// The `nmcli` arguments that list the devices with their state.
pub open spec fn device_args() -> Seq<Seq<char>> {
    seq!["-t"@, "-f"@, "DEVICE,TYPE,STATE"@, "dev"@]
}

/// The first connected Wi-Fi device in `nmcli -t -f DEVICE,TYPE,STATE dev`
/// lines.
pub open spec fn wifi_device_in(ls: Seq<Seq<char>>) -> Option<Seq<char>>
    decreases ls.len(),
{
    if ls.len() == 0 {
        None
    } else {
        let p = colon_fields(ls[0]);
        if p.len() >= 3 && p[1] == "wifi"@ && p[2] == "connected"@ {
            Some(p[0])
        } else {
            wifi_device_in(ls.drop_first())
        }
    }
}

/// A `DEVICE:TYPE:STATE` line of a connected Wi-Fi device.
pub open spec fn is_connected_wifi_line(line: Seq<char>) -> bool {
    let p = colon_fields(line);
    p.len() >= 3 && p[1] == "wifi"@ && p[2] == "connected"@
}

/// The Wi-Fi device is the one of the first line of a connected Wi-Fi
/// device, and there is none when no line is one.
pub proof fn lemma_wifi_device_first(ls: Seq<Seq<char>>)
    ensures
        wifi_device_in(ls) is None <==> forall|i: int| 0 <= i < ls.len() ==> !is_connected_wifi_line(#[trigger] ls[i]),
        wifi_device_in(ls) matches Some(c) ==> exists|j: int|
            0 <= j < ls.len() && is_connected_wifi_line(#[trigger] ls[j]) && c == colon_fields(ls[j])[0] && forall|i: int|
                0 <= i < j ==> !is_connected_wifi_line(#[trigger] ls[i]),
    decreases ls.len(),
{
    if ls.len() > 0 {
        let rest = ls.drop_first();
        lemma_wifi_device_first(rest);
        assert forall|i: int| 0 <= i < rest.len() implies rest[i] == ls[i + 1] by {}
        if !is_connected_wifi_line(ls[0]) {
            if wifi_device_in(rest) is None {
                assert forall|i: int| 0 <= i < ls.len() implies !is_connected_wifi_line(#[trigger] ls[i]) by {
                    if i > 0 {
                        assert(rest[i - 1] == ls[i]);
                    }
                }
            } else {
                let c = wifi_device_in(rest)->0;
                let j = choose|j: int|
                    0 <= j < rest.len() && is_connected_wifi_line(#[trigger] rest[j]) && c == colon_fields(rest[j])[0] && forall|i: int|
                        0 <= i < j ==> !is_connected_wifi_line(#[trigger] rest[i]);
                assert(ls[j + 1] == rest[j]);
                assert forall|i: int| 0 <= i < j + 1 implies !is_connected_wifi_line(#[trigger] ls[i]) by {
                    if i > 0 {
                        assert(rest[i - 1] == ls[i]);
                    }
                }
            }
        }
    }
}

/// The connected Wi-Fi device a run reported.
pub open spec fn wifi_device_from(out: Option<ProcessOutput>) -> Option<Seq<char>> {
    match stdout_of(out) {
        Some(t) => wifi_device_in(lines(t)),
        None => None,
    }
}

fn wifi_device_of(text: &str) -> (r: Option<Vec<char>>)
    ensures
        crate::nm::opt_chars(r) == wifi_device_in(lines(text@)),
{
    let ls = lines_of(&chars_of(text));
    let mut i: usize = 0;
    assert(views(ls@).skip(0) =~= views(ls@));
    while i < ls.len()
        invariant
            i <= ls.len(),
            views(ls@) == lines(text@),
            wifi_device_in(views(ls@)) == wifi_device_in(views(ls@).skip(i as int)),
        decreases ls.len() - i,
    {
        assert(views(ls@).skip(i as int)[0] == ls@[i as int]@);
        assert(views(ls@).skip(i as int).drop_first() =~= views(ls@).skip(i + 1));
        let p = colon_fields_of(&ls[i]);
        if p.len() >= 3 && same(&p[1], &chars_of("wifi")) && same(&p[2], &chars_of("connected")) {
            let d = slice(&p[0], 0, p[0].len());
            assert(d@ =~= p@[0]@);
            return Some(d);
        }
        i += 1;
    }
    assert(views(ls@).skip(i as int) =~= Seq::<Seq<char>>::empty());
    None
}

/// The name of the connected Wi-Fi device.
pub fn get_active_interface<F: Fn(Invocation) -> Option<ProcessOutput>>(run: &mut Runner<F>) -> (r: Option<String>)
    requires
        accepts_all(old(run).runs()),
    ensures
        grows(*old(run), *final(run)),
        only(added(*old(run), *final(run)), "nmcli"@, device_args()),
        opt_view(r) == wifi_device_from(added(*old(run), *final(run))[0].out),
{
    let a = vec!["-t", "-f", "DEVICE,TYPE,STATE", "dev"];
    assert(str_views(a@) =~= device_args());
    let out = call(run, "nmcli", a);
    match stdout_text(out) {
        Some(t) => match wifi_device_of(t.as_str()) {
            Some(d) => Some(string_of(&d)),
            None => None,
        },
        None => None,
    }
}

/// Disconnects the connected Wi-Fi device: true when one was found (the
/// outcome of `nmcli dev disconnect` is not looked at).
pub fn disconnect_wifi<F: Fn(Invocation) -> Option<ProcessOutput>>(run: &mut Runner<F>) -> (r: bool)
    requires
        accepts_all(old(run).runs()),
    ensures
        grows(*old(run), *final(run)),
        ({
            let calls = added(*old(run), *final(run));
            &&& calls.len() >= 1
            &&& made(calls[0], "nmcli"@, device_args())
            &&& match wifi_device_from(calls[0].out) {
                None => calls.len() == 1 && !r,
                Some(dev) => calls.len() == 2 && made(calls[1], "nmcli"@, seq!["dev"@, "disconnect"@, dev]) && r,
            }
        }),
{
    let ghost r0 = *run;
    let a = vec!["-t", "-f", "DEVICE,TYPE,STATE", "dev"];
    assert(str_views(a@) =~= device_args());
    let out = call(run, "nmcli", a);
    let ghost r1 = *run;
    let ghost o = out;
    let dev = match stdout_text(out) {
        Some(t) => wifi_device_of(t.as_str()),
        None => None,
    };
    assert(crate::nm::opt_chars(dev) == wifi_device_from(o));
    match dev {
        Some(d) => {
            let ds = string_of(&d);
            let a2 = vec!["dev", "disconnect", ds.as_str()];
            assert(str_views(a2@) =~= seq!["dev"@, "disconnect"@, d@]);
            let _ = call(run, "nmcli", a2);
            proof {
                lemma_grows_trans(r0, r1, *run);
            }
            true
        },
        None => false,
    }
}

/// The receive and transmit byte counters of the first `/proc/net/dev`
/// line that mentions the interface and has at least ten columns (the
/// second and the tenth; an unreadable counter is 0).
pub open spec fn stats_in(ls: Seq<Seq<char>>, iface: Seq<char>) -> Option<(u64, u64)>
    decreases ls.len(),
{
    if ls.len() == 0 {
        None
    } else if contains(ls[0], iface) && words(ls[0]).len() >= 10 {
        let w = words(ls[0]);
        Some(
            (
                match parse_u64(w[1]) {
                    Some(v) => v,
                    None => 0,
                },
                match parse_u64(w[9]) {
                    Some(v) => v,
                    None => 0,
                },
            ),
        )
    } else {
        stats_in(ls.drop_first(), iface)
    }
}

/// The byte counters of an interface in `/proc/net/dev` content.
pub fn interface_stats_in(content: &str, iface: &str) -> (r: Option<(u64, u64)>)
    ensures
        r == stats_in(lines(content@), iface@),
{
    let ls = lines_of(&chars_of(content));
    let name = chars_of(iface);
    let mut i: usize = 0;
    assert(views(ls@).skip(0) =~= views(ls@));
    while i < ls.len()
        invariant
            i <= ls.len(),
            views(ls@) == lines(content@),
            name@ == iface@,
            stats_in(views(ls@), iface@) == stats_in(views(ls@).skip(i as int), iface@),
        decreases ls.len() - i,
    {
        assert(views(ls@).skip(i as int)[0] == ls@[i as int]@);
        assert(views(ls@).skip(i as int).drop_first() =~= views(ls@).skip(i + 1));
        if includes(&ls[i], &name) {
            let w = words_of(&ls[i]);
            if w.len() >= 10 {
                let rx = match read_u64(&w[1]) {
                    Some(v) => v,
                    None => 0,
                };
                let tx = match read_u64(&w[9]) {
                    Some(v) => v,
                    None => 0,
                };
                return Some((rx, tx));
            }
        }
        i += 1;
    }
    assert(views(ls@).skip(i as int) =~= Seq::<Seq<char>>::empty());
    None
}

/// The byte counters of an interface: `read` reads `/proc/net/dev`.
pub fn get_interface_stats<R: FnOnce(&str) -> Option<String>>(iface: &str, read: R) -> (r: Option<(u64, u64)>)
    requires
        forall|p: &str| #[trigger] call_requires(read, (p,)),
    ensures
        exists|p: &str, content: Option<String>|
            #![trigger call_ensures(read, (p,), content)]
            p@ == "/proc/net/dev"@ && call_ensures(read, (p,), content) && r == match content {
                Some(c) => stats_in(lines(c@), iface@),
                None => None,
            },
{
    let path = "/proc/net/dev";
    let content = read(path);
    let ghost c = content;
    let r = match content {
        Some(text) => interface_stats_in(text.as_str(), iface),
        None => None,
    };
    assert(call_ensures(read, (path,), c));
    r
}

// ---------------------------------------------------------------------------
// Connecting
// ---------------------------------------------------------------------------

/// Connects to a Wi-Fi network, waiting up to 15 s. With a password, joins
/// with it; without one, brings the saved connection up, and failing that
/// joins the network without a password.
pub fn connect_to_wifi<F: Fn(Invocation) -> Option<ProcessOutput>>(
    ssid: &str,
    password: Option<&str>,
    run: &mut Runner<F>,
) -> (r: bool)
    requires
        accepts_all(old(run).runs()),
    ensures
        grows(*old(run), *final(run)),
        password matches Some(pass) ==> only(
            added(*old(run), *final(run)),
            "nmcli"@,
            seq!["--wait"@, "15"@, "dev"@, "wifi"@, "connect"@, ssid@, "password"@, pass@],
        ) && r == succeeded(added(*old(run), *final(run))[0].out),
        password is None ==> ({
            let calls = added(*old(run), *final(run));
            &&& calls.len() >= 1
            &&& made(calls[0], "nmcli"@, seq!["--wait"@, "15"@, "connection"@, "up"@, "id"@, ssid@])
            &&& if succeeded(calls[0].out) {
                calls.len() == 1 && r
            } else {
                &&& calls.len() == 2
                &&& made(calls[1], "nmcli"@, seq!["--wait"@, "15"@, "dev"@, "wifi"@, "connect"@, ssid@])
                &&& r == succeeded(calls[1].out)
            }
        }),
{
    match password {
        Some(pass) => {
            let a = vec!["--wait", "15", "dev", "wifi", "connect", ssid, "password", pass];
            assert(str_views(a@) =~= seq!["--wait"@, "15"@, "dev"@, "wifi"@, "connect"@, ssid@, "password"@, pass@]);
            let out = call(run, "nmcli", a);
            success_of(&out)
        },
        None => {
            let ghost r0 = *run;
            let a = vec!["--wait", "15", "connection", "up", "id", ssid];
            assert(str_views(a@) =~= seq!["--wait"@, "15"@, "connection"@, "up"@, "id"@, ssid@]);
            let out = call(run, "nmcli", a);
            let ghost r1 = *run;
            if success_of(&out) {
                return true;
            }
            let a2 = vec!["--wait", "15", "dev", "wifi", "connect", ssid];
            assert(str_views(a2@) =~= seq!["--wait"@, "15"@, "dev"@, "wifi"@, "connect"@, ssid@]);
            let out2 = call(run, "nmcli", a2);
            proof {
                lemma_grows_trans(r0, r1, *run);
            }
            success_of(&out2)
        },
    }
}

} // verus!
