//! A headset's sound card through `pactl`: its audio profiles, switching
//! profiles, choosing the best A2DP sink and the switch-on-connect module.
use vstd::prelude::*;
use crate::text::{
    chars_of, string_of, contains, includes, find, find_in, rfind_char, rfind_in, starts_with,
    begins_with, ends_with, finishes_with, trim, trimmed, words, words_of, lines, lines_of, same,
    slice, split, split_on, parse_i64, read_i64, is_digit, views, replace_char, replaced,
};
use crate::process::{
    Invocation, ProcessOutput, accepts_all, invokes, Call, Runner, grows, added, only, made, lemma_grows_trans, stdout_of, succeeded, opt_view,
    invocation2, invocation3, run_it, stdout_text, success_of,
};
use crate::bluetooth::{AudioProfile, AudioProfileView, profile_views};

verus! {

// ---------------------------------------------------------------------------
// Profiles of a card (`pactl list cards`)
// ---------------------------------------------------------------------------

/// The first `pactl list cards` block (the text between "Card #" markers)
/// that mentions the device, written with `'_'` or with `':'`.
pub open spec fn card_block(blocks: Seq<Seq<char>>, address: Seq<char>) -> Option<Seq<char>>
    decreases blocks.len(),
{
    if blocks.len() == 0 {
        None
    } else if contains(blocks[0], replace_char(address, ':', '_')) || contains(blocks[0], address) {
        Some(blocks[0])
    } else {
        card_block(blocks.drop_first(), address)
    }
}

/// A line of a "Profiles:" list, `name: description (details)`: the name
/// before the first `':'`, the description up to the last `'('`, available
/// when the details say "available: yes" (or when there are none), active
/// when the name is the active profile seen so far.
pub open spec fn profile_on_line(line: Seq<char>, active: Seq<char>) -> Option<AudioProfileView> {
    match find(line, ":"@) {
        None => None,
        Some(ci) => {
            let name = trim(line.take(ci));
            let rest = line.skip(ci + 1);
            let desc = match rfind_char(rest, '(') {
                Some(pi) => trim(rest.take(pi)),
                None => trim(rest),
            };
            let available = match rfind_char(rest, '(') {
                Some(pi) => contains(rest.skip(pi), "available: yes"@),
                None => true,
            };
            Some(
                AudioProfileView {
                    name: name,
                    description: desc,
                    active: name == active,
                    available: available,
                },
            )
        },
    }
}

/// The state of a pass over a card block: inside the profile list or not,
/// and the profiles read.
pub struct ProfileScan {
    pub in_profiles: bool,
    pub profiles: Seq<AudioProfileView>,
}

/// The card's active profile: the value of the last "Active Profile:" line
/// of the block, wherever it stands; empty when there is none.
pub open spec fn block_active(ls: Seq<Seq<char>>) -> Seq<char>
    decreases ls.len(),
{
    if ls.len() == 0 {
        Seq::empty()
    } else if starts_with(trim(ls.last()), "Active Profile:"@) {
        trim(trim(ls.last()).skip(15))
    } else {
        block_active(ls.drop_last())
    }
}

/// One line of a card block, trimmed; a profile is marked active when its
/// name is the card's active profile `active`.
pub open spec fn profile_step(st: ProfileScan, raw: Seq<char>, active: Seq<char>) -> ProfileScan {
    let line = trim(raw);
    if starts_with(line, "Active Profile:"@) {
        st
    } else if starts_with(line, "Profiles:"@) {
        ProfileScan { in_profiles: true, ..st }
    } else if starts_with(line, "Ports:"@) {
        ProfileScan { in_profiles: false, ..st }
    } else if st.in_profiles {
        match profile_on_line(line, active) {
            Some(p) => ProfileScan { profiles: st.profiles.push(p), ..st },
            None => st,
        }
    } else {
        st
    }
}

/// The state after the lines `ls`.
pub open spec fn profile_fold(ls: Seq<Seq<char>>, active: Seq<char>) -> ProfileScan
    decreases ls.len(),
{
    if ls.len() == 0 {
        ProfileScan { in_profiles: false, profiles: Seq::empty() }
    } else {
        profile_step(profile_fold(ls.drop_last(), active), ls.last(), active)
    }
}

/// The audio profiles listed for the device's card in `pactl list cards`
/// output; none when no card mentions the device.
pub open spec fn profiles_in(listing: Seq<char>, address: Seq<char>) -> Seq<AudioProfileView> {
    match card_block(split(listing, "Card #"@), address) {
        Some(block) => profile_fold(lines(block), block_active(lines(block))).profiles,
        None => Seq::empty(),
    }
}

/// Every profile read under the active profile `active` is marked active
/// exactly when its name is `active`.
proof fn lemma_profile_fold_active(ls: Seq<Seq<char>>, active: Seq<char>)
    ensures
        forall|i: int|
            0 <= i < profile_fold(ls, active).profiles.len() ==> (#[trigger] profile_fold(ls, active).profiles[i]).active
                == (profile_fold(ls, active).profiles[i].name == active),
    decreases ls.len(),
{
    if ls.len() > 0 {
        let pre = profile_fold(ls.drop_last(), active);
        lemma_profile_fold_active(ls.drop_last(), active);
        let line = trim(ls.last());
        if let Some(p) = profile_on_line(line, active) {
            assert(p.active == (p.name == active));
        }
        let ps = profile_fold(ls, active).profiles;
        assert forall|i: int| 0 <= i < ps.len() implies (#[trigger] ps[i]).active == (ps[i].name == active) by {
            if i < pre.profiles.len() {
                assert(ps[i] == pre.profiles[i]);
            }
        }
    }
}

/// The card's active profile is the value after "Active Profile:" on the
/// last line of the block that begins with it (trimmed), or empty when no
/// line does.
proof fn lemma_block_active_last(ls: Seq<Seq<char>>)
    ensures
        (forall|k: int| 0 <= k < ls.len() ==> !starts_with(trim(#[trigger] ls[k]), "Active Profile:"@)) ==> block_active(ls) == Seq::<char>::empty(),
        (exists|k: int| 0 <= k < ls.len() && starts_with(trim(#[trigger] ls[k]), "Active Profile:"@)) ==> exists|j: int|
            0 <= j < ls.len() && starts_with(trim(#[trigger] ls[j]), "Active Profile:"@) && block_active(ls) == trim(trim(ls[j]).skip(15))
                && forall|k: int| j < k < ls.len() ==> !starts_with(trim(#[trigger] ls[k]), "Active Profile:"@),
    decreases ls.len(),
{
    if ls.len() > 0 {
        let n = ls.len() - 1;
        let ls2 = ls.drop_last();
        lemma_block_active_last(ls2);
        assert forall|k: int| 0 <= k < n implies ls2[k] == ls[k] by {}
        if starts_with(trim(ls[n]), "Active Profile:"@) {
        } else if exists|k: int| 0 <= k < ls.len() && starts_with(trim(#[trigger] ls[k]), "Active Profile:"@) {
            let k = choose|k: int| 0 <= k < ls.len() && starts_with(trim(#[trigger] ls[k]), "Active Profile:"@);
            assert(starts_with(trim(ls2[k]), "Active Profile:"@));
            let j = choose|j: int|
                0 <= j < ls2.len() && starts_with(trim(#[trigger] ls2[j]), "Active Profile:"@) && block_active(ls2) == trim(trim(ls2[j]).skip(15))
                    && forall|k: int| j < k < ls2.len() ==> !starts_with(trim(#[trigger] ls2[k]), "Active Profile:"@);
            assert(starts_with(trim(ls[j]), "Active Profile:"@));
        } else {
            assert forall|k: int| 0 <= k < ls2.len() implies !starts_with(trim(#[trigger] ls2[k]), "Active Profile:"@) by {
                assert(ls2[k] == ls[k]);
            }
        }
    }
}

/// Of the profiles read for a device's card, exactly those named as the
/// card's active profile are marked active; the active profile is the
/// value of the card block's last "Active Profile:" line, wherever that line
/// stands in the block.
pub proof fn lemma_profiles_active(listing: Seq<char>, address: Seq<char>)
    ensures
        card_block(split(listing, "Card #"@), address) matches Some(block) ==> {
            let ls = lines(block);
            let ps = profiles_in(listing, address);
            &&& forall|i: int| 0 <= i < ps.len() ==> (#[trigger] ps[i]).active == (ps[i].name == block_active(ls))
            &&& (exists|k: int| 0 <= k < ls.len() && starts_with(trim(#[trigger] ls[k]), "Active Profile:"@)) ==> exists|j: int|
                0 <= j < ls.len() && starts_with(trim(#[trigger] ls[j]), "Active Profile:"@) && block_active(ls) == trim(trim(ls[j]).skip(15))
                    && forall|k: int| j < k < ls.len() ==> !starts_with(trim(#[trigger] ls[k]), "Active Profile:"@)
        },
        card_block(split(listing, "Card #"@), address) is None ==> profiles_in(listing, address).len() == 0,
{
    if let Some(block) = card_block(split(listing, "Card #"@), address) {
        lemma_profile_fold_active(lines(block), block_active(lines(block)));
        lemma_block_active_last(lines(block));
    }
}

fn profile_line(line: &Vec<char>, active: &Vec<char>) -> (r: Option<AudioProfile>)
    ensures
        match r {
            Some(p) => profile_on_line(line@, active@) == Some(p@),
            None => profile_on_line(line@, active@) is None,
        },
{
    match find_in(line, &chars_of(":")) {
        None => None,
        Some(ci) => {
            proof {
                crate::text::lemma_find_from(line@, ":"@, 0int);
                reveal_strlit(":");
                assert(":"@.len() == 1);
                assert(crate::text::matches_at(line@, ":"@, ci as int));
                assert(ci + 1 <= line@.len());
                assert(ci + 1 <= line.len());
            }
            let name = trimmed(&slice(line, 0, ci));
            let rest = slice(line, ci + 1, line.len());
            assert(line@.subrange(0, ci as int) =~= line@.take(ci as int));
            assert(rest@ =~= line@.skip(ci + 1));
            let (desc, available) = match rfind_in(&rest, '(') {
                Some(pi) => {
                    let d = trimmed(&slice(&rest, 0, pi));
                    assert(rest@.subrange(0, pi as int) =~= rest@.take(pi as int));
                    let tail = slice(&rest, pi, rest.len());
                    assert(tail@ =~= rest@.skip(pi as int));
                    (d, includes(&tail, &chars_of("available: yes")))
                },
                None => (trimmed(&rest), true),
            };
            let act = same(&name, active);
            Some(
                AudioProfile {
                    name: string_of(&name),
                    description: string_of(&desc),
                    active: act,
                    available,
                },
            )
        },
    }
}

/// The audio profiles of the device's card in `pactl list cards` output.
pub fn audio_profiles_in(listing: &str, address: &str) -> (r: Vec<AudioProfile>)
    ensures
        profile_views(r@) == profiles_in(listing@, address@),
{
    proof {
        reveal_strlit("Card #");
    }
    let blocks = split_on(&chars_of(listing), &chars_of("Card #"));
    let addr = chars_of(address);
    let fmt = replaced(&addr, ':', '_');
    let mut i: usize = 0;
    assert(views(blocks@).skip(0) =~= views(blocks@));
    while i < blocks.len()
        invariant
            i <= blocks.len(),
            views(blocks@) == split(listing@, "Card #"@),
            addr@ == address@,
            fmt@ == replace_char(address@, ':', '_'),
            card_block(views(blocks@), address@) == card_block(
                views(blocks@).skip(i as int),
                address@,
            ),
        decreases blocks.len() - i,
    {
        assert(views(blocks@).skip(i as int)[0] == blocks@[i as int]@);
        assert(views(blocks@).skip(i as int).drop_first() =~= views(blocks@).skip(i + 1));
        if includes(&blocks[i], &fmt) || includes(&blocks[i], &addr) {
            return profiles_of_block(&blocks[i]);
        }
        i += 1;
    }
    assert(profile_views(Seq::<AudioProfile>::empty()) =~= Seq::<AudioProfileView>::empty());
    Vec::new()
}

fn active_of_block(ls: &Vec<Vec<char>>) -> (r: Vec<char>)
    ensures
        r@ == block_active(views(ls@)),
{
    let mut active: Vec<char> = Vec::new();
    let mut i: usize = 0;
    while i < ls.len()
        invariant
            i <= ls.len(),
            active@ == block_active(views(ls@).take(i as int)),
        decreases ls.len() - i,
    {
        assert(views(ls@).take(i + 1).drop_last() =~= views(ls@).take(i as int));
        assert(views(ls@).take(i + 1).last() == ls@[i as int]@);
        proof {
            reveal_strlit("Active Profile:");
        }
        let line = trimmed(&ls[i]);
        if begins_with(&line, &chars_of("Active Profile:")) {
            active = trimmed(&slice(&line, 15, line.len()));
            assert(line@.subrange(15, line@.len() as int) =~= line@.skip(15));
        }
        i += 1;
    }
    assert(views(ls@).take(ls.len() as int) =~= views(ls@));
    active
}

fn profiles_of_block(block: &Vec<char>) -> (r: Vec<AudioProfile>)
    ensures
        profile_views(r@) == profile_fold(lines(block@), block_active(lines(block@))).profiles,
{
    let ls = lines_of(block);
    let active = active_of_block(&ls);
    let ghost act = active@;
    let mut in_profiles = false;
    let mut profiles: Vec<AudioProfile> = Vec::new();
    let mut i: usize = 0;
    assert(profile_views(Seq::<AudioProfile>::empty()) =~= Seq::<AudioProfileView>::empty());
    while i < ls.len()
        invariant
            i <= ls.len(),
            views(ls@) == lines(block@),
            act == active@,
            act == block_active(lines(block@)),
            profile_fold(views(ls@).take(i as int), act) == (ProfileScan {
                in_profiles,
                profiles: profile_views(profiles@),
            }),
        decreases ls.len() - i,
    {
        assert(views(ls@).take(i + 1).drop_last() =~= views(ls@).take(i as int));
        assert(views(ls@).take(i + 1).last() == ls@[i as int]@);
        proof {
            reveal_strlit("Active Profile:");
        }
        let line = trimmed(&ls[i]);
        if begins_with(&line, &chars_of("Active Profile:")) {
        } else if begins_with(&line, &chars_of("Profiles:")) {
            in_profiles = true;
        } else if begins_with(&line, &chars_of("Ports:")) {
            in_profiles = false;
        } else if in_profiles {
            match profile_line(&line, &active) {
                Some(p) => {
                    let ghost before = profile_views(profiles@);
                    let ghost pv = p@;
                    profiles.push(p);
                    assert(profile_views(profiles@) =~= before.push(pv));
                },
                None => {},
            }
        }
        i += 1;
    }
    assert(views(ls@).take(ls.len() as int) =~= views(ls@));
    profiles
}

/// The profiles found by `pactl list cards`; none when it could not run.
pub open spec fn profiles_from(out: Option<ProcessOutput>, address: Seq<char>) -> Seq<AudioProfileView> {
    match stdout_of(out) {
        Some(t) => profiles_in(t, address),
        None => Seq::empty(),
    }
}

/// The audio profiles of the device's sound card.
pub fn get_audio_profiles<F: Fn(Invocation) -> Option<ProcessOutput>>(address: &str, run: &mut Runner<F>) -> (r: Vec<AudioProfile>)
    requires
        accepts_all(old(run).runs()),
    ensures
        grows(*old(run), *final(run)),
        only(added(*old(run), *final(run)), "pactl"@, seq!["list"@, "cards"@]),
        profile_views(r@) == profiles_from(added(*old(run), *final(run))[0].out, address@),
{
    let inv = invocation2("pactl", "list", "cards");
    let ghost args = seq!["list"@, "cards"@];
    let out = run_it(run, inv, Ghost("pactl"@), Ghost(args));
    match stdout_text(out) {
        Some(t) => audio_profiles_in(t.as_str(), address),
        None => {
            assert(profile_views(Seq::<AudioProfile>::empty()) =~= Seq::<AudioProfileView>::empty());
            Vec::new()
        },
    }
}

// ---------------------------------------------------------------------------
// Switching profiles
// ---------------------------------------------------------------------------

/// The card name on the first `pactl list cards short` line whose second
/// word mentions the device, written with `'_'` or with `':'`.
pub open spec fn card_in_short(ls: Seq<Seq<char>>, address: Seq<char>) -> Option<Seq<char>>
    decreases ls.len(),
{
    if ls.len() == 0 {
        None
    } else {
        let w = words(ls[0]);
        if w.len() >= 2 && (contains(w[1], replace_char(address, ':', '_')) || contains(
            w[1],
            address,
        )) {
            Some(w[1])
        } else {
            card_in_short(ls.drop_first(), address)
        }
    }
}

/// A `pactl list cards short` line names the device's card: its second word
/// mentions the device, written with `'_'` or with `':'`.
pub open spec fn names_device_card(line: Seq<char>, address: Seq<char>) -> bool {
    let w = words(line);
    w.len() >= 2 && (contains(w[1], replace_char(address, ':', '_')) || contains(w[1], address))
}

/// The device's card is the second word of the first line that names it,
/// and there is none when no line names it.
pub proof fn lemma_card_in_short_first(ls: Seq<Seq<char>>, address: Seq<char>)
    ensures
        card_in_short(ls, address) is None <==> forall|i: int| 0 <= i < ls.len() ==> !names_device_card(#[trigger] ls[i], address),
        card_in_short(ls, address) matches Some(c) ==> exists|j: int|
            0 <= j < ls.len() && names_device_card(#[trigger] ls[j], address) && c == words(ls[j])[1] && forall|i: int|
                0 <= i < j ==> !names_device_card(#[trigger] ls[i], address),
    decreases ls.len(),
{
    if ls.len() > 0 {
        let rest = ls.drop_first();
        lemma_card_in_short_first(rest, address);
        assert forall|i: int| 0 <= i < rest.len() implies rest[i] == ls[i + 1] by {}
        if names_device_card(ls[0], address) {
        } else {
            if card_in_short(rest, address) is None {
                assert forall|i: int| 0 <= i < ls.len() implies !names_device_card(#[trigger] ls[i], address) by {
                    if i > 0 {
                        assert(rest[i - 1] == ls[i]);
                    }
                }
            } else {
                let c = card_in_short(rest, address)->0;
                let j = choose|j: int|
                    0 <= j < rest.len() && names_device_card(#[trigger] rest[j], address) && c == words(rest[j])[1] && forall|i: int|
                        0 <= i < j ==> !names_device_card(#[trigger] rest[i], address);
                assert(ls[j + 1] == rest[j]);
                assert forall|i: int| 0 <= i < j + 1 implies !names_device_card(#[trigger] ls[i], address) by {
                    if i > 0 {
                        assert(rest[i - 1] == ls[i]);
                    }
                }
                assert(!names_device_card(rest[j], address) || names_device_card(ls[j + 1], address));
            }
        }
    }
}

/// The name of the device's card in `pactl list cards short` output.
pub fn card_name_in(listing: &str, address: &str) -> (r: Option<String>)
    ensures
        opt_view(r) == card_in_short(lines(listing@), address@),
{
    let ls = lines_of(&chars_of(listing));
    let addr = chars_of(address);
    let fmt = replaced(&addr, ':', '_');
    let mut i: usize = 0;
    assert(views(ls@).skip(0) =~= views(ls@));
    while i < ls.len()
        invariant
            i <= ls.len(),
            views(ls@) == lines(listing@),
            addr@ == address@,
            fmt@ == replace_char(address@, ':', '_'),
            card_in_short(views(ls@), address@) == card_in_short(views(ls@).skip(i as int), address@),
        decreases ls.len() - i,
    {
        assert(views(ls@).skip(i as int)[0] == ls@[i as int]@);
        assert(views(ls@).skip(i as int).drop_first() =~= views(ls@).skip(i + 1));
        let w = words_of(&ls[i]);
        if w.len() >= 2 && (includes(&w[1], &fmt) || includes(&w[1], &addr)) {
            return Some(string_of(&w[1]));
        }
        i += 1;
    }
    None
}

/// The card named by a `pactl list cards short` run.
pub open spec fn card_from(out: Option<ProcessOutput>, address: Seq<char>) -> Option<Seq<char>> {
    match stdout_of(out) {
        Some(t) => card_in_short(lines(t), address),
        None => None,
    }
}

/// Switches the device's card to `profile_name`: finds the card in
/// `pactl list cards short`, then runs `pactl set-card-profile`. False when
/// no card mentions the device.
pub fn set_audio_profile<F: Fn(Invocation) -> Option<ProcessOutput>>(
    address: &str,
    profile_name: &str,
    run: &mut Runner<F>,
) -> (r: bool)
    requires
        accepts_all(old(run).runs()),
    ensures
        grows(*old(run), *final(run)),
        ({
            let calls = added(*old(run), *final(run));
            &&& calls.len() >= 1
            &&& made(calls[0], "pactl"@, seq!["list"@, "cards"@, "short"@])
            &&& match card_from(calls[0].out, address@) {
                None => calls.len() == 1 && !r,
                Some(card) => {
                    &&& calls.len() == 2
                    &&& made(calls[1], "pactl"@, seq!["set-card-profile"@, card, profile_name@])
                    &&& r == succeeded(calls[1].out)
                },
            }
        }),
{
    let ghost r0 = *run;
    let inv = invocation3("pactl", "list", "cards", "short");
    let ghost args = seq!["list"@, "cards"@, "short"@];
    let out = run_it(run, inv, Ghost("pactl"@), Ghost(args));
    let ghost r1 = *run;
    let card = match stdout_text(out) {
        Some(t) => card_name_in(t.as_str(), address),
        None => None,
    };
    match card {
        Some(c) => {
            let inv2 = invocation3("pactl", "set-card-profile", c.as_str(), profile_name);
            let ghost args2 = seq!["set-card-profile"@, c@, profile_name@];
            let out2 = run_it(run, inv2, Ghost("pactl"@), Ghost(args2));
            proof {
                lemma_grows_trans(r0, r1, *run);
            }
            success_of(&out2)
        },
        None => false,
    }
}

// ---------------------------------------------------------------------------
// The best A2DP profile
// ---------------------------------------------------------------------------

/// The leading ASCII digits of `s`.
pub open spec fn digits_prefix(s: Seq<char>) -> Seq<char>
    decreases s.len(),
{
    if s.len() > 0 && is_digit(s[0]) {
        seq![s[0]] + digits_prefix(s.drop_first())
    } else {
        Seq::empty()
    }
}

/// The priority in a profile's details: the digits right after the first
/// "priority: ", or 0 when there are none or they do not fit an `i64`.
pub open spec fn priority_in(rest: Seq<char>) -> i64 {
    let parts = split(rest, "priority: "@);
    if parts.len() >= 2 {
        match parse_i64(digits_prefix(parts[1])) {
            Some(v) => v,
            None => 0,
        }
    } else {
        0
    }
}

/// The state of a pass over `pactl list cards` for one device's card.
pub struct A2dpScan {
    pub card: Option<Seq<char>>,
    pub in_card: bool,
    pub in_profiles: bool,
    pub active: Seq<char>,
    pub best: Option<(i64, Seq<char>)>,
}

/// One trimmed line of `pactl list cards`: "Name: " starts a card block (the
/// device's when its name mentions `suffix`); inside the device's block,
/// "Profiles:" opens the profile list, "Active Profile: " records the active
/// profile and closes the list, another one-word section header closes the
/// list, and each available `a2dp-sink...` profile with a strictly higher
/// priority than the best so far becomes the best.
pub open spec fn a2dp_step(st: A2dpScan, raw: Seq<char>, suffix: Seq<char>) -> A2dpScan {
    let line = trim(raw);
    if starts_with(line, "Name: "@) {
        let name = line.skip(6);
        let inc = contains(name, suffix);
        A2dpScan {
            in_card: inc,
            in_profiles: false,
            card: if inc {
                Some(name)
            } else {
                st.card
            },
            ..st
        }
    } else if !st.in_card {
        st
    } else if line == "Profiles:"@ {
        A2dpScan { in_profiles: true, ..st }
    } else if starts_with(line, "Active Profile: "@) {
        A2dpScan { active: line.skip(16), in_profiles: false, ..st }
    } else if st.in_profiles && ends_with(line, ":"@) && !contains(line, " "@) {
        A2dpScan { in_profiles: false, ..st }
    } else if st.in_profiles && find(line, ": "@) is Some {
        let k = find(line, ": "@)->0;
        let name = line.take(k);
        let rest = line.skip(k + 2);
        if !starts_with(name, "a2dp-sink"@) || !contains(rest, "available: yes"@) {
            st
        } else {
            let p = priority_in(rest);
            let better = match st.best {
                None => true,
                Some(b) => p > b.0,
            };
            if better {
                A2dpScan { best: Some((p, name)), ..st }
            } else {
                st
            }
        }
    } else {
        st
    }
}

/// The state after the lines `ls`.
pub open spec fn a2dp_fold(ls: Seq<Seq<char>>, suffix: Seq<char>) -> A2dpScan
    decreases ls.len(),
{
    if ls.len() == 0 {
        A2dpScan { card: None, in_card: false, in_profiles: false, active: Seq::empty(), best: None }
    } else {
        a2dp_step(a2dp_fold(ls.drop_last(), suffix), ls.last(), suffix)
    }
}

/// What `pactl list cards` output says of the device's card: its name, its
/// active profile, and its best available A2DP sink profile.
pub struct A2dpChoice {
    pub card: Option<String>,
    pub active: String,
    pub best: Option<String>,
}

fn digits_prefix_exec(v: &Vec<char>) -> (r: Vec<char>)
    ensures
        r@ == digits_prefix(v@),
{
    let mut i: usize = 0;
    assert(v@.skip(0) =~= v@);
    assert(v@.take(0) =~= Seq::<char>::empty());
    while i < v.len() && '0' <= v[i] && v[i] <= '9'
        invariant
            i <= v.len(),
            digits_prefix(v@) == v@.take(i as int) + digits_prefix(v@.skip(i as int)),
        decreases v.len() - i,
    {
        assert(v@.skip(i as int).drop_first() =~= v@.skip(i + 1));
        assert(v@.take(i + 1) =~= v@.take(i as int) + seq![v@[i as int]]);
        i += 1;
    }
    assert(v@.take(i as int) + Seq::<char>::empty() =~= v@.take(i as int));
    slice(v, 0, i)
}

fn priority_exec(rest: &Vec<char>) -> (p: i64)
    ensures
        p == priority_in(rest@),
{
    proof {
        reveal_strlit("priority: ");
    }
    let parts = split_on(rest, &chars_of("priority: "));
    if parts.len() >= 2 {
        assert(parts@[1]@ == split(rest@, "priority: "@)[1]);
        match read_i64(&digits_prefix_exec(&parts[1])) {
            Some(v) => v,
            None => 0,
        }
    } else {
        0
    }
}

/// Reads `pactl list cards` output for the device's card block.
pub fn a2dp_choice_in(listing: &str, address: &str) -> (r: A2dpChoice)
    ensures
        ({
            let st = a2dp_fold(lines(listing@), replace_char(address@, ':', '_'));
            &&& opt_view(r.card) == st.card
            &&& r.active@ == st.active
            &&& opt_view(r.best) == match st.best {
                Some(b) => Some(b.1),
                None => None,
            }
        }),
{
    let suffix = replaced(&chars_of(address), ':', '_');
    let ls = lines_of(&chars_of(listing));
    let mut card: Option<Vec<char>> = None;
    let mut in_card = false;
    let mut in_profiles = false;
    let mut active: Vec<char> = Vec::new();
    let mut best: Option<(i64, Vec<char>)> = None;
    let mut i: usize = 0;
    while i < ls.len()
        invariant
            i <= ls.len(),
            views(ls@) == lines(listing@),
            suffix@ == replace_char(address@, ':', '_'),
            a2dp_fold(views(ls@).take(i as int), suffix@) == (A2dpScan {
                card: match card {
                    Some(c) => Some(c@),
                    None => None,
                },
                in_card,
                in_profiles,
                active: active@,
                best: match best {
                    Some(b) => Some((b.0, b.1@)),
                    None => None,
                },
            }),
        decreases ls.len() - i,
    {
        assert(views(ls@).take(i + 1).drop_last() =~= views(ls@).take(i as int));
        assert(views(ls@).take(i + 1).last() == ls@[i as int]@);
        proof {
            reveal_strlit("Name: ");
            reveal_strlit("Active Profile: ");
            reveal_strlit(": ");
        }
        let line = trimmed(&ls[i]);
        if begins_with(&line, &chars_of("Name: ")) {
            let name = slice(&line, 6, line.len());
            assert(name@ =~= line@.skip(6));
            in_card = includes(&name, &suffix);
            in_profiles = false;
            if in_card {
                card = Some(name);
            }
        } else if !in_card {
        } else if same(&line, &chars_of("Profiles:")) {
            in_profiles = true;
        } else if begins_with(&line, &chars_of("Active Profile: ")) {
            active = slice(&line, 16, line.len());
            assert(active@ =~= line@.skip(16));
            in_profiles = false;
        } else if in_profiles && finishes_with(&line, &chars_of(":")) && !includes(&line, &chars_of(" ")) {
            in_profiles = false;
        } else if in_profiles {
            match find_in(&line, &chars_of(": ")) {
                Some(k) => {
                    proof {
                        crate::text::lemma_find_from(line@, ": "@, 0int);
                        assert(": "@.len() == 2);
                        assert(crate::text::matches_at(line@, ": "@, k as int));
                        assert(k + 2 <= line@.len());
                        assert(k + 2 <= line.len());
                    }
                    let name = slice(&line, 0, k);
                    let rest = slice(&line, k + 2, line.len());
                    assert(name@ =~= line@.take(k as int));
                    assert(rest@ =~= line@.skip(k + 2));
                    if begins_with(&name, &chars_of("a2dp-sink")) && includes(&rest, &chars_of("available: yes")) {
                        let p = priority_exec(&rest);
                        let better = match &best {
                            None => true,
                            Some(b) => p > b.0,
                        };
                        if better {
                            best = Some((p, name));
                        }
                    }
                },
                None => {},
            }
        }
        i += 1;
    }
    assert(views(ls@).take(ls.len() as int) =~= views(ls@));
    A2dpChoice {
        card: match card {
            Some(c) => Some(string_of(&c)),
            None => None,
        },
        active: string_of(&active),
        best: match best {
            Some(b) => Some(string_of(&b.1)),
            None => None,
        },
    }
}


/// What a `pactl list cards` run says should happen: the device's card, its
/// active profile, and the best A2DP sink profile; `None` when the run
/// failed or the card or such a profile is missing.
pub open spec fn a2dp_plan(out: Option<ProcessOutput>, address: Seq<char>) -> Option<(Seq<char>, Seq<char>, Seq<char>)> {
    match stdout_of(out) {
        None => None,
        Some(t) => {
            let st = a2dp_fold(lines(t), replace_char(address, ':', '_'));
            match (st.card, st.best) {
                (Some(card), Some(best)) => Some((card, st.active, best.1)),
                _ => None,
            }
        },
    }
}

/// `calls` are the runs of the A2DP switch of `address`, and `r` its
/// outcome: `pactl list cards`; nothing more and false without a plan;
/// nothing more and true when the best profile is active already;
/// otherwise `pactl set-card-profile <card> <best>`, whose exit decides.
pub open spec fn a2dp_result(calls: Seq<Call>, address: Seq<char>, r: bool) -> bool {
    &&& calls.len() >= 1
    &&& made(calls[0], "pactl"@, seq!["list"@, "cards"@])
    &&& match a2dp_plan(calls[0].out, address) {
        None => calls.len() == 1 && !r,
        Some(plan) => if plan.1 == plan.2 {
            calls.len() == 1 && r
        } else {
            &&& calls.len() == 2
            &&& made(calls[1], "pactl"@, seq!["set-card-profile"@, plan.0, plan.2])
            &&& r == succeeded(calls[1].out)
        },
    }
}

/// The profile a trimmed line of `pactl list cards` names, as its priority
/// and name, when the line stands inside the Profiles: list of the device's
/// card (as `pre`, the pass over the lines before it, says) and names an
/// available `a2dp-sink...` profile.
pub open spec fn a2dp_candidate_on(pre: A2dpScan, raw: Seq<char>) -> Option<(i64, Seq<char>)> {
    let line = trim(raw);
    match find(line, ": "@) {
        Some(k) => {
            let name = line.take(k);
            let rest = line.skip(k + 2);
            if pre.in_card && pre.in_profiles && starts_with(name, "a2dp-sink"@) && contains(rest, "available: yes"@) {
                Some((priority_in(rest), name))
            } else {
                None
            }
        },
        None => None,
    }
}

/// The available A2DP sink profile that line `i` of `ls` lists for the
/// device's card, with its priority.
pub open spec fn a2dp_candidate(ls: Seq<Seq<char>>, suffix: Seq<char>, i: int) -> Option<(i64, Seq<char>)> {
    a2dp_candidate_on(a2dp_fold(ls.take(i), suffix), ls[i])
}

/// One line changes the best profile only by offering a candidate of
/// strictly higher priority.
proof fn lemma_a2dp_step_best(pre: A2dpScan, raw: Seq<char>, suffix: Seq<char>)
    ensures
        a2dp_step(pre, raw, suffix).best == match a2dp_candidate_on(pre, raw) {
            Some(c) => match pre.best {
                None => Some(c),
                Some(b) => if c.0 > b.0 {
                    Some(c)
                } else {
                    pre.best
                },
            },
            None => pre.best,
        },
{
    reveal_strlit(": ");
    reveal_strlit("a2dp-sink");
    reveal_strlit("Name: ");
    reveal_strlit("Profiles:");
    reveal_strlit("Active Profile: ");
    reveal_strlit(" ");
    let line = trim(raw);
    if let Some(c) = a2dp_candidate_on(pre, raw) {
        crate::text::lemma_find_from(line, ": "@, 0);
        let k = find(line, ": "@)->0;
        assert(line.take(k).take(9) == "a2dp-sink"@);
        assert(line[0] == line.take(k).take(9)[0]);
        assert(line[0] == 'a');
        if starts_with(line, "Name: "@) {
            assert(line[0] == line.take(6)[0]);
        }
        if line == "Profiles:"@ {
        }
        if starts_with(line, "Active Profile: "@) {
            assert(line[0] == line.take(16)[0]);
        }
        assert(crate::text::matches_at(line, ": "@, k));
        assert(line.subrange(k, k + 2) == ": "@);
        assert(line.subrange(k + 1, k + 2) =~= line.subrange(k, k + 2).subrange(1, 2));
        assert(": "@.subrange(1, 2) =~= " "@);
        assert(crate::text::matches_at(line, " "@, k + 1));
        crate::text::lemma_find_from(line, " "@, 0);
        assert(contains(line, " "@));
    }
}

/// The best choice over lines `ls`: every candidate's priority is at most
/// the best one's, and the best is the first candidate of that priority.
proof fn lemma_a2dp_fold_best(ls: Seq<Seq<char>>, suffix: Seq<char>)
    ensures
        forall|i: int|
            0 <= i < ls.len() ==> ((#[trigger] a2dp_candidate(ls, suffix, i)) matches Some(c) ==> (a2dp_fold(ls, suffix).best matches Some(b) && c.0 <= b.0)),
        a2dp_fold(ls, suffix).best matches Some(b) ==> exists|j: int|
            0 <= j < ls.len() && #[trigger] a2dp_candidate(ls, suffix, j) == Some(b) && forall|i: int|
                0 <= i < j ==> ((#[trigger] a2dp_candidate(ls, suffix, i)) matches Some(c) ==> c.0 < b.0),
    decreases ls.len(),
{
    if ls.len() > 0 {
        let n = ls.len() - 1;
        let ls2 = ls.drop_last();
        lemma_a2dp_fold_best(ls2, suffix);
        assert forall|i: int| 0 <= i < n implies a2dp_candidate(ls, suffix, i) == a2dp_candidate(ls2, suffix, i) by {
            assert(ls.take(i) =~= ls2.take(i));
        }
        assert(ls.take(n) =~= ls2);
        let pre = a2dp_fold(ls2, suffix);
        lemma_a2dp_step_best(pre, ls.last(), suffix);
        assert(a2dp_candidate(ls, suffix, n) == a2dp_candidate_on(pre, ls.last()));
        let best = a2dp_fold(ls, suffix).best;
        if let Some(b) = best {
            if best == pre.best {
                let j = choose|j: int|
                    0 <= j < ls2.len() && #[trigger] a2dp_candidate(ls2, suffix, j) == Some(b) && forall|i: int|
                        0 <= i < j ==> ((#[trigger] a2dp_candidate(ls2, suffix, i)) matches Some(c) ==> c.0 < b.0);
                assert(a2dp_candidate(ls, suffix, j) == Some(b));
            } else {
                assert(a2dp_candidate(ls, suffix, n) == Some(b));
            }
        }
    }
}

/// The best A2DP profile that a `pactl list cards` listing gives for a
/// device is an available `a2dp-sink...` profile listed for the device's
/// card; no such profile has a higher priority, and none listed before it
/// has the same one. There is a best profile whenever the card lists such a
/// profile.
pub proof fn lemma_a2dp_best_is_highest(listing: Seq<char>, address: Seq<char>)
    ensures
        ({
            let ls = lines(listing);
            let suffix = replace_char(address, ':', '_');
            let best = a2dp_fold(ls, suffix).best;
            &&& forall|i: int|
                0 <= i < ls.len() ==> ((#[trigger] a2dp_candidate(ls, suffix, i)) matches Some(c) ==> (best matches Some(b) && c.0 <= b.0))
            &&& best matches Some(b) ==> exists|j: int|
                0 <= j < ls.len() && #[trigger] a2dp_candidate(ls, suffix, j) == Some(b) && forall|i: int|
                    0 <= i < j ==> ((#[trigger] a2dp_candidate(ls, suffix, i)) matches Some(c) ==> c.0 < b.0)
        }),
{
    lemma_a2dp_fold_best(lines(listing), replace_char(address, ':', '_'));
}

/// Switches a freshly connected headset to its best A2DP profile: the
/// available `a2dp-sink...` profile of its card with the highest priority.
/// True when that profile is active already or the switch succeeded.
pub fn force_a2dp_profile<F: Fn(Invocation) -> Option<ProcessOutput>>(address: &str, run: &mut Runner<F>) -> (r: bool)
    requires
        accepts_all(old(run).runs()),
    ensures
        grows(*old(run), *final(run)),
        a2dp_result(added(*old(run), *final(run)), address@, r),
{
    let ghost r0 = *run;
    let inv = invocation2("pactl", "list", "cards");
    let ghost args = seq!["list"@, "cards"@];
    let out = run_it(run, inv, Ghost("pactl"@), Ghost(args));
    let ghost r1 = *run;
    let ghost o = out;
    let listing = match stdout_text(out) {
        Some(t) => t,
        None => {
            return false;
        },
    };
    let choice = a2dp_choice_in(listing.as_str(), address);
    let (card, profile) = match (choice.card, choice.best) {
        (Some(c), Some(p)) => (c, p),
        _ => {
            return false;
        },
    };
    assert(a2dp_plan(o, address@) == Some((card@, choice.active@, profile@)));
    if same(&chars_of(choice.active.as_str()), &chars_of(profile.as_str())) {
        return true;
    }
    let inv2 = invocation3("pactl", "set-card-profile", card.as_str(), profile.as_str());
    let ghost args2 = seq!["set-card-profile"@, card@, profile@];
    let out2 = run_it(run, inv2, Ghost("pactl"@), Ghost(args2));
    proof {
        lemma_grows_trans(r0, r1, *run);
    }
    success_of(&out2)
}

/// Whether a `pactl list modules` run shows the switch-on-connect module.
pub open spec fn module_loaded(out: Option<ProcessOutput>) -> bool {
    match stdout_of(out) {
        Some(t) => contains(t, "module-switch-on-connect"@),
        None => false,
    }
}

/// Makes sure PulseAudio/PipeWire switches to a newly connected headset:
/// true when `module-switch-on-connect` is listed already, otherwise the
/// outcome of loading it.
pub fn ensure_switch_on_connect_module<F: Fn(Invocation) -> Option<ProcessOutput>>(run: &mut Runner<F>) -> (r: bool)
    requires
        accepts_all(old(run).runs()),
    ensures
        grows(*old(run), *final(run)),
        ({
            let calls = added(*old(run), *final(run));
            &&& calls.len() >= 1
            &&& made(calls[0], "pactl"@, seq!["list"@, "modules"@])
            &&& if module_loaded(calls[0].out) {
                calls.len() == 1 && r
            } else {
                &&& calls.len() == 2
                &&& made(calls[1], "pactl"@, seq!["load-module"@, "module-switch-on-connect"@])
                &&& r == succeeded(calls[1].out)
            }
        }),
{
    let ghost r0 = *run;
    let inv = invocation2("pactl", "list", "modules");
    let ghost args = seq!["list"@, "modules"@];
    let out = run_it(run, inv, Ghost("pactl"@), Ghost(args));
    let ghost r1 = *run;
    let loaded = match stdout_text(out) {
        Some(t) => includes(&chars_of(t.as_str()), &chars_of("module-switch-on-connect")),
        None => false,
    };
    if loaded {
        return true;
    }
    let inv2 = invocation2("pactl", "load-module", "module-switch-on-connect");
    let ghost args2 = seq!["load-module"@, "module-switch-on-connect"@];
    let out2 = run_it(run, inv2, Ghost("pactl"@), Ghost(args2));
    proof {
        lemma_grows_trans(r0, r1, *run);
    }
    success_of(&out2)
}

} // verus!
