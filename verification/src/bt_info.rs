//! Reading `bluetoothctl info` and `bluetoothctl devices` output, and the
//! order in which devices are listed.
use vstd::prelude::*;
use crate::text::{
    chars_of, string_of, contains, find, find_in, starts_with, begins_with, trim, trimmed, words,
    words_of, lines, lines_of, same, slice, parse_i32, read_i32, views, concat,
};
use crate::order::{
    strict_weak, is_stable_sort, stable_order_by, stable_sort, text_less, text_lt, lemma_text_less_irreflexive,
    lemma_text_less_transitive, lemma_text_less_total,
};
use crate::bluetooth::{
    BluetoothDevice, BluetoothDeviceView, Battery, BatteryView, AudioProfile, battery_views,
    profile_views,
};

verus! {

// ---------------------------------------------------------------------------
// bluetoothctl info
// ---------------------------------------------------------------------------

/// `s` without leading `'%'` characters.
pub open spec fn strip_pct_start(s: Seq<char>) -> Seq<char>
    decreases s.len(),
{
    if s.len() > 0 && s[0] == '%' {
        strip_pct_start(s.drop_first())
    } else {
        s
    }
}

/// `s` without trailing `'%'` characters.
pub open spec fn strip_pct_end(s: Seq<char>) -> Seq<char>
    decreases s.len(),
{
    if s.len() > 0 && s.last() == '%' {
        strip_pct_end(s.drop_last())
    } else {
        s
    }
}

/// `s` without leading and trailing `'%'` (`str::trim_matches('%')`).
pub open spec fn strip_pct(s: Seq<char>) -> Seq<char> {
    strip_pct_end(strip_pct_start(s))
}

fn strip_pct_exec(v: &Vec<char>) -> (r: Vec<char>)
    ensures
        r@ == strip_pct(v@),
{
    let n = v.len();
    let mut i: usize = 0;
    assert(v@.subrange(0, n as int) =~= v@);
    while i < n && v[i] == '%'
        invariant
            i <= n == v.len(),
            strip_pct_start(v@.subrange(i as int, n as int)) == strip_pct_start(v@),
        decreases n - i,
    {
        assert(v@.subrange(i as int, n as int).drop_first() =~= v@.subrange(i + 1, n as int));
        i += 1;
    }
    let mut j: usize = n;
    while j > i && v[j - 1] == '%'
        invariant
            i <= j <= n == v.len(),
            strip_pct_end(v@.subrange(i as int, j as int)) == strip_pct(v@),
        decreases j,
    {
        assert(v@.subrange(i as int, j as int).drop_last() =~= v@.subrange(i as int, j - 1));
        j -= 1;
    }
    slice(v, i, j)
}

/// What the lines of `bluetoothctl info` set so far.
pub struct InfoState {
    pub name: Seq<char>,
    pub connected: bool,
    pub paired: bool,
    pub trusted: bool,
    pub rssi: i32,
    pub battery: Option<i32>,
}

/// Nothing read yet.
pub open spec fn info_start() -> InfoState {
    InfoState {
        name: Seq::empty(),
        connected: false,
        paired: false,
        trusted: false,
        rssi: 0,
        battery: None,
    }
}

/// The battery value on a trimmed "Battery Percentage:" line: the text
/// between the first `'('` and the first `')'`, or, without a `'('`, the
/// last word with its `'%'` signs removed.
pub open spec fn battery_on_line(line: Seq<char>, old: Option<i32>) -> Option<i32> {
    match find(line, "("@) {
        Some(s) => match find(line, ")"@) {
            Some(e) => parse_i32(line.subrange(s + 1, e)),
            None => old,
        },
        None => {
            let p = words(line);
            if p.len() > 0 {
                parse_i32(strip_pct(p.last()))
            } else {
                old
            }
        },
    }
}

/// A trimmed line that is read as a battery line.
pub open spec fn is_battery_line(line: Seq<char>) -> bool {
    &&& !starts_with(line, "Name:"@)
    &&& !starts_with(line, "Connected:"@)
    &&& !starts_with(line, "Paired:"@)
    &&& !starts_with(line, "Trusted:"@)
    &&& !starts_with(line, "RSSI:"@)
    &&& contains(line, "Battery Percentage:"@)
}

/// A battery line whose first `')'` stands before its first `'('`, so that
/// the text between them cannot be cut out.
pub open spec fn battery_line_unreadable(raw: Seq<char>) -> bool {
    let line = trim(raw);
    is_battery_line(line) && (find(line, "("@) matches Some(s) && find(line, ")"@) matches Some(
        e,
    ) && e < s + 1)
}

/// Every line of the text can be read.
pub open spec fn info_readable(text: Seq<char>) -> bool {
    forall|i: int| 0 <= i < lines(text).len() ==> !battery_line_unreadable(#[trigger] lines(text)[i])
}

/// One line of `bluetoothctl info`, trimmed: "Name:", "Connected:",
/// "Paired:", "Trusted:" and "RSSI:" set their field from the rest of the
/// line (a flag is set when the rest is "yes"; an unreadable RSSI is 0), and
/// a line mentioning "Battery Percentage:" sets the battery.
pub open spec fn info_step(st: InfoState, raw: Seq<char>) -> InfoState {
    let line = trim(raw);
    if starts_with(line, "Name:"@) {
        InfoState { name: trim(line.skip(5)), ..st }
    } else if starts_with(line, "Connected:"@) {
        InfoState { connected: trim(line.skip(10)) == "yes"@, ..st }
    } else if starts_with(line, "Paired:"@) {
        InfoState { paired: trim(line.skip(7)) == "yes"@, ..st }
    } else if starts_with(line, "Trusted:"@) {
        InfoState { trusted: trim(line.skip(8)) == "yes"@, ..st }
    } else if starts_with(line, "RSSI:"@) {
        InfoState {
            rssi: match parse_i32(trim(line.skip(5))) {
                Some(v) => v,
                None => 0,
            },
            ..st
        }
    } else if contains(line, "Battery Percentage:"@) {
        InfoState { battery: battery_on_line(line, st.battery), ..st }
    } else {
        st
    }
}

/// What the lines `ls` set.
pub open spec fn info_fold(ls: Seq<Seq<char>>) -> InfoState
    decreases ls.len(),
{
    if ls.len() == 0 {
        info_start()
    } else {
        info_step(info_fold(ls.drop_last()), ls.last())
    }
}

/// The device that `bluetoothctl info <address>` output describes, before
/// its audio profiles and batteries are looked up.
pub open spec fn device_from_info(address: Seq<char>, text: Seq<char>) -> BluetoothDeviceView {
    let st = info_fold(lines(text));
    BluetoothDeviceView {
        name: st.name,
        address: address,
        connected: st.connected,
        paired: st.paired,
        trusted: st.trusted,
        rssi: st.rssi,
        battery: st.battery,
        batteries: Seq::empty(),
        audio_profiles: Seq::empty(),
    }
}

fn yes(v: &Vec<char>) -> (r: bool)
    ensures
        r == (trim(v@) == "yes"@),
{
    same(&trimmed(v), &chars_of("yes"))
}

/// Can every line of this `bluetoothctl info` output be read?
pub fn info_is_readable(text: &str) -> (r: bool)
    ensures
        r == info_readable(text@),
{
    let ls = lines_of(&chars_of(text));
    let mut i: usize = 0;
    while i < ls.len()
        invariant
            i <= ls.len(),
            views(ls@) == lines(text@),
            forall|j: int| 0 <= j < i ==> !battery_line_unreadable(#[trigger] lines(text@)[j]),
        decreases ls.len() - i,
    {
        assert(ls@[i as int]@ == lines(text@)[i as int]);
        let line = trimmed(&ls[i]);
        if !begins_with(&line, &chars_of("Name:")) && !begins_with(&line, &chars_of("Connected:"))
            && !begins_with(&line, &chars_of("Paired:")) && !begins_with(
            &line,
            &chars_of("Trusted:"),
        ) && !begins_with(&line, &chars_of("RSSI:")) && crate::text::includes(
            &line,
            &chars_of("Battery Percentage:"),
        ) {
            match (find_in(&line, &chars_of("(")), find_in(&line, &chars_of(")"))) {
                (Some(s), Some(e)) => {
                    if e <= s {
                        return false;
                    }
                },
                _ => {},
            }
        }
        i += 1;
    }
    true
}

/// Some line of `ls` begins, once trimmed, with `key`, and the last such
/// line reads "yes" after the key.
pub open spec fn last_says_yes(ls: Seq<Seq<char>>, key: Seq<char>) -> bool {
    exists|j: int|
        0 <= j < ls.len() && starts_with(trim(#[trigger] ls[j]), key) && trim(trim(ls[j]).skip(key.len() as int)) == "yes"@
            && forall|k: int| j < k < ls.len() ==> !starts_with(trim(#[trigger] ls[k]), key)
}

/// Whether the last key line says "yes" depends on the last line when it is
/// a key line, and on the earlier lines otherwise.
proof fn lemma_last_says_yes_step(ls: Seq<Seq<char>>, key: Seq<char>)
    requires
        ls.len() > 0,
    ensures
        last_says_yes(ls, key) == if starts_with(trim(ls.last()), key) {
            trim(trim(ls.last()).skip(key.len() as int)) == "yes"@
        } else {
            last_says_yes(ls.drop_last(), key)
        },
{
    let n = ls.len() - 1;
    let ls2 = ls.drop_last();
    if starts_with(trim(ls.last()), key) {
        if last_says_yes(ls, key) {
            let j = choose|j: int|
                0 <= j < ls.len() && starts_with(trim(#[trigger] ls[j]), key) && trim(trim(ls[j]).skip(key.len() as int)) == "yes"@
                    && forall|k: int| j < k < ls.len() ==> !starts_with(trim(#[trigger] ls[k]), key);
            if j < n {
                assert(!starts_with(trim(ls[n]), key));
            }
        }
        if trim(trim(ls.last()).skip(key.len() as int)) == "yes"@ {
            assert(starts_with(trim(ls[n]), key));
        }
    } else {
        if last_says_yes(ls, key) {
            let j = choose|j: int|
                0 <= j < ls.len() && starts_with(trim(#[trigger] ls[j]), key) && trim(trim(ls[j]).skip(key.len() as int)) == "yes"@
                    && forall|k: int| j < k < ls.len() ==> !starts_with(trim(#[trigger] ls[k]), key);
            assert(j < n);
            assert(ls2[j] == ls[j]);
            assert forall|k: int| j < k < ls2.len() implies !starts_with(trim(#[trigger] ls2[k]), key) by {
                assert(ls2[k] == ls[k]);
            }
        }
        if last_says_yes(ls2, key) {
            let j = choose|j: int|
                0 <= j < ls2.len() && starts_with(trim(#[trigger] ls2[j]), key) && trim(trim(ls2[j]).skip(key.len() as int)) == "yes"@
                    && forall|k: int| j < k < ls2.len() ==> !starts_with(trim(#[trigger] ls2[k]), key);
            assert(ls2[j] == ls[j]);
            assert forall|k: int| j < k < ls.len() implies !starts_with(trim(#[trigger] ls[k]), key) by {
                if k < n {
                    assert(ls2[k] == ls[k]);
                }
            }
        }
    }
}

/// A line that begins with `key` begins with the key's first character.
proof fn lemma_starts_with_first(line: Seq<char>, key: Seq<char>)
    requires
        key.len() > 0,
        starts_with(line, key),
    ensures
        line[0] == key[0],
{
    assert(line[0] == line.take(key.len() as int)[0]);
}

/// What the info lines set for the three yes/no fields.
proof fn lemma_info_fold_flags(ls: Seq<Seq<char>>)
    ensures
        info_fold(ls).connected == last_says_yes(ls, "Connected:"@),
        info_fold(ls).paired == last_says_yes(ls, "Paired:"@),
        info_fold(ls).trusted == last_says_yes(ls, "Trusted:"@),
    decreases ls.len(),
{
    reveal_strlit("Name:");
    reveal_strlit("Connected:");
    reveal_strlit("Paired:");
    reveal_strlit("Trusted:");
    if ls.len() == 0 {
    } else {
        lemma_info_fold_flags(ls.drop_last());
        lemma_last_says_yes_step(ls, "Connected:"@);
        lemma_last_says_yes_step(ls, "Paired:"@);
        lemma_last_says_yes_step(ls, "Trusted:"@);
        let line = trim(ls.last());
        if starts_with(line, "Connected:"@) {
            lemma_starts_with_first(line, "Connected:"@);
            if starts_with(line, "Name:"@) {
                lemma_starts_with_first(line, "Name:"@);
            }
        }
        if starts_with(line, "Paired:"@) {
            lemma_starts_with_first(line, "Paired:"@);
            if starts_with(line, "Name:"@) {
                lemma_starts_with_first(line, "Name:"@);
            }
            if starts_with(line, "Connected:"@) {
                lemma_starts_with_first(line, "Connected:"@);
            }
        }
        if starts_with(line, "Trusted:"@) {
            lemma_starts_with_first(line, "Trusted:"@);
            if starts_with(line, "Name:"@) {
                lemma_starts_with_first(line, "Name:"@);
            }
            if starts_with(line, "Connected:"@) {
                lemma_starts_with_first(line, "Connected:"@);
            }
            if starts_with(line, "Paired:"@) {
                lemma_starts_with_first(line, "Paired:"@);
            }
        }
    }
}

/// A device read from `bluetoothctl info` output is paired, trusted or
/// connected exactly when the last line (trimmed) that begins with
/// "Paired:", "Trusted:" or "Connected:" respectively reads "yes" after
/// the key; with no such line the flag is false.
pub proof fn lemma_info_flags(address: Seq<char>, text: Seq<char>)
    ensures
        device_from_info(address, text).paired == last_says_yes(lines(text), "Paired:"@),
        device_from_info(address, text).trusted == last_says_yes(lines(text), "Trusted:"@),
        device_from_info(address, text).connected == last_says_yes(lines(text), "Connected:"@),
{
    lemma_info_fold_flags(lines(text));
}

/// Reads `bluetoothctl info <address>` output into a device record whose
/// audio profiles and batteries are still empty.
pub fn parse_device_info(address: &str, text: &str) -> (dev: BluetoothDevice)
    requires
        info_readable(text@),
    ensures
        dev@ == device_from_info(address@, text@),
{
    let ls = lines_of(&chars_of(text));
    let mut name: Vec<char> = Vec::new();
    let mut connected = false;
    let mut paired = false;
    let mut trusted = false;
    let mut rssi: i32 = 0;
    let mut battery: Option<i32> = None;
    let mut i: usize = 0;
    while i < ls.len()
        invariant
            i <= ls.len(),
            views(ls@) == lines(text@),
            info_readable(text@),
            info_fold(views(ls@).take(i as int)) == (InfoState {
                name: name@,
                connected,
                paired,
                trusted,
                rssi,
                battery,
            }),
        decreases ls.len() - i,
    {
        assert(views(ls@).take(i + 1).drop_last() =~= views(ls@).take(i as int));
        assert(views(ls@).take(i + 1).last() == ls@[i as int]@);
        assert(!battery_line_unreadable(lines(text@)[i as int]));
        proof {
            reveal_strlit("Name:");
            reveal_strlit("Connected:");
            reveal_strlit("Paired:");
            reveal_strlit("Trusted:");
            reveal_strlit("RSSI:");
        }
        let line = trimmed(&ls[i]);
        if begins_with(&line, &chars_of("Name:")) {
            name = trimmed(&slice(&line, 5, line.len()));
            assert(line@.subrange(5, line@.len() as int) =~= line@.skip(5));
        } else if begins_with(&line, &chars_of("Connected:")) {
            connected = yes(&slice(&line, 10, line.len()));
            assert(line@.subrange(10, line@.len() as int) =~= line@.skip(10));
        } else if begins_with(&line, &chars_of("Paired:")) {
            paired = yes(&slice(&line, 7, line.len()));
            assert(line@.subrange(7, line@.len() as int) =~= line@.skip(7));
        } else if begins_with(&line, &chars_of("Trusted:")) {
            trusted = yes(&slice(&line, 8, line.len()));
            assert(line@.subrange(8, line@.len() as int) =~= line@.skip(8));
        } else if begins_with(&line, &chars_of("RSSI:")) {
            let rest = trimmed(&slice(&line, 5, line.len()));
            assert(line@.subrange(5, line@.len() as int) =~= line@.skip(5));
            rssi = match read_i32(&rest) {
                Some(v) => v,
                None => 0,
            };
        } else if crate::text::includes(&line, &chars_of("Battery Percentage:")) {
            match find_in(&line, &chars_of("(")) {
                Some(s) => {
                    match find_in(&line, &chars_of(")")) {
                        Some(e) => {
                            proof {
                                crate::text::lemma_find_from(line@, ")"@, 0int);
                                crate::text::lemma_find_from(line@, "("@, 0int);
                            }
                            battery = read_i32(&slice(&line, s + 1, e));
                        },
                        None => {},
                    }
                },
                None => {
                    let p = words_of(&line);
                    if p.len() > 0 {
                        assert(p@[p.len() - 1]@ == words(line@).last());
                        battery = read_i32(&strip_pct_exec(&p[p.len() - 1]));
                    }
                },
            }
        }
        i += 1;
    }
    assert(views(ls@).take(ls.len() as int) =~= views(ls@));
    assert(battery_views(Seq::<Battery>::empty()) =~= Seq::<BatteryView>::empty());
    assert(profile_views(Seq::<AudioProfile>::empty()) =~= Seq::<crate::bluetooth::AudioProfileView>::empty());
    BluetoothDevice {
        name: string_of(&name),
        address: crate::process::owned(address),
        connected,
        paired,
        trusted,
        rssi,
        battery,
        batteries: Vec::new(),
        audio_profiles: Vec::new(),
    }
}

/// The smallest percentage among the batteries.
pub open spec fn min_percentage(b: Seq<BatteryView>) -> i32
    decreases b.len(),
{
    if b.len() <= 1 {
        if b.len() == 1 {
            b[0].percentage
        } else {
            0
        }
    } else {
        let m = min_percentage(b.drop_last());
        if b.last().percentage < m {
            b.last().percentage
        } else {
            m
        }
    }
}

/// The single battery value and the battery list made consistent: with no
/// listed battery, the single value (if any) becomes a whole-device entry;
/// with listed batteries and no single value, the single value is the lowest
/// listed percentage.
pub open spec fn reconciled(d: BluetoothDeviceView) -> BluetoothDeviceView {
    if d.batteries.len() == 0 {
        match d.battery {
            Some(p) => BluetoothDeviceView {
                batteries: seq![BatteryView { label: Seq::empty(), percentage: p }],
                ..d
            },
            None => d,
        }
    } else if d.battery is None {
        BluetoothDeviceView { battery: Some(min_percentage(d.batteries)), ..d }
    } else {
        d
    }
}

/// The lowest percentage is one of the batteries' and no battery is lower.
pub proof fn lemma_min_percentage(b: Seq<BatteryView>)
    requires
        b.len() > 0,
    ensures
        exists|k: int| 0 <= k < b.len() && b[k].percentage == min_percentage(b),
        forall|k: int| 0 <= k < b.len() ==> min_percentage(b) <= #[trigger] b[k].percentage,
    decreases b.len(),
{
    if b.len() == 1 {
        assert(b[0].percentage == min_percentage(b));
    } else {
        let rest = b.drop_last();
        lemma_min_percentage(rest);
        let w = choose|k: int| 0 <= k < rest.len() && rest[k].percentage == min_percentage(rest);
        assert(b[w] == rest[w]);
        assert(b[b.len() - 1] == b.last());
        assert forall|k: int| 0 <= k < b.len() implies min_percentage(b) <= #[trigger] b[k].percentage by {
            if k < b.len() - 1 {
                assert(b[k] == rest[k]);
            }
        }
    }
}

/// After reconciling, a device has a battery value exactly when it has a
/// battery list; a value taken from the list is its lowest percentage, and
/// a known value is kept.
pub proof fn lemma_reconciled_consistent(d: BluetoothDeviceView)
    ensures
        reconciled(d).battery is Some <==> reconciled(d).batteries.len() > 0,
        d.battery is Some ==> reconciled(d).battery == d.battery,
        d.battery is None && d.batteries.len() > 0 ==> (reconciled(d).battery matches Some(m) && (forall|k: int|
            0 <= k < d.batteries.len() ==> m <= #[trigger] d.batteries[k].percentage) && (exists|k: int|
            0 <= k < d.batteries.len() && d.batteries[k].percentage == m)),
        reconciled(d).batteries.len() >= d.batteries.len(),
{
    if d.battery is None && d.batteries.len() > 0 {
        lemma_min_percentage(d.batteries);
    }
}

/// Makes the single battery value and the battery list consistent.
pub fn reconcile_batteries(dev: &mut BluetoothDevice)
    ensures
        final(dev)@ == reconciled(old(dev)@),
{
    if dev.batteries.len() == 0 {
        match dev.battery {
            Some(p) => {
                dev.batteries.push(Battery { label: String::new(), percentage: p });
                assert(battery_views(dev.batteries@) =~= seq![
                    BatteryView { label: Seq::empty(), percentage: p },
                ]);
            },
            None => {},
        }
    } else if dev.battery.is_none() {
        let mut m: i32 = dev.batteries[0].percentage;
        let mut i: usize = 1;
        assert(battery_views(dev.batteries@).take(1).drop_last() =~= Seq::<BatteryView>::empty());
        while i < dev.batteries.len()
            invariant
                1 <= i <= dev.batteries.len(),
                m == min_percentage(battery_views(dev.batteries@).take(i as int)),
            decreases dev.batteries.len() - i,
        {
            let p = dev.batteries[i].percentage;
            assert(battery_views(dev.batteries@).take(i + 1).drop_last() =~= battery_views(
                dev.batteries@,
            ).take(i as int));
            if p < m {
                m = p;
            }
            i += 1;
        }
        assert(battery_views(dev.batteries@).take(dev.batteries.len() as int) =~= battery_views(
            dev.batteries@,
        ));
        dev.battery = Some(m);
    }
}

// ---------------------------------------------------------------------------
// bluetoothctl devices
// ---------------------------------------------------------------------------

/// The words joined with `sep` between them.
pub open spec fn join(ws: Seq<Seq<char>>, sep: Seq<char>) -> Seq<char>
    decreases ws.len(),
{
    if ws.len() == 0 {
        Seq::empty()
    } else if ws.len() == 1 {
        ws[0]
    } else {
        join(ws.drop_last(), sep) + sep + ws.last()
    }
}

/// The address and name on a `Device <address> <name...>` line; the name is
/// the remaining words joined by single spaces.
pub open spec fn device_entry(line: Seq<char>) -> Option<(Seq<char>, Seq<char>)> {
    let w = words(line);
    if w.len() >= 3 && w[0] == "Device"@ {
        Some((w[1], join(w.skip(2), " "@)))
    } else {
        None
    }
}

/// The entries of every `Device` line, in order.
pub open spec fn device_entries(ls: Seq<Seq<char>>) -> Seq<(Seq<char>, Seq<char>)>
    decreases ls.len(),
{
    if ls.len() == 0 {
        Seq::empty()
    } else {
        let e = device_entries(ls.drop_last());
        match device_entry(ls.last()) {
            Some(x) => e.push(x),
            None => e,
        }
    }
}

/// A listed device: (address, name).
pub struct DeviceEntry {
    pub address: String,
    pub name: String,
}

/// The address and name of each listing entry.
pub open spec fn entry_views(e: Seq<DeviceEntry>) -> Seq<(Seq<char>, Seq<char>)> {
    e.map_values(|x: DeviceEntry| (x.address@, x.name@))
}

fn join_words(ws: &Vec<Vec<char>>, from: usize) -> (r: Vec<char>)
    requires
        from <= ws.len(),
    ensures
        r@ == join(views(ws@).skip(from as int), " "@),
{
    let sep = chars_of(" ");
    let mut r: Vec<char> = Vec::new();
    let mut i: usize = from;
    assert(views(ws@).skip(from as int).take(0) =~= Seq::<Seq<char>>::empty());
    while i < ws.len()
        invariant
            from <= i <= ws.len(),
            sep@ == " "@,
            r@ == join(views(ws@).skip(from as int).take(i - from), " "@),
        decreases ws.len() - i,
    {
        let ghost all = views(ws@).skip(from as int);
        assert(all.take(i + 1 - from).drop_last() =~= all.take(i - from));
        assert(all.take(i + 1 - from).last() == ws@[i as int]@);
        if i == from {
            r = slice(&ws[i], 0, ws[i].len());
            assert(ws@[i as int]@.subrange(0, ws@[i as int]@.len() as int) =~= ws@[i as int]@);
        } else {
            let with_sep = concat(&r, &sep);
            r = concat(&with_sep, &ws[i]);
        }
        i += 1;
    }
    assert(views(ws@).skip(from as int).take(ws.len() - from) =~= views(ws@).skip(from as int));
    r
}

/// The devices listed by `bluetoothctl devices` (or `devices Connected`).
pub fn device_entries_in(listing: &str) -> (r: Vec<DeviceEntry>)
    ensures
        entry_views(r@) == device_entries(lines(listing@)),
{
    let ls = lines_of(&chars_of(listing));
    let device = chars_of("Device");
    let mut r: Vec<DeviceEntry> = Vec::new();
    let mut i: usize = 0;
    while i < ls.len()
        invariant
            i <= ls.len(),
            views(ls@) == lines(listing@),
            device@ == "Device"@,
            entry_views(r@) == device_entries(views(ls@).take(i as int)),
        decreases ls.len() - i,
    {
        assert(views(ls@).take(i + 1).drop_last() =~= views(ls@).take(i as int));
        assert(views(ls@).take(i + 1).last() == ls@[i as int]@);
        let w = words_of(&ls[i]);
        if w.len() >= 3 && same(&w[0], &device) {
            let name = join_words(&w, 2);
            let e = DeviceEntry { address: string_of(&w[1]), name: string_of(&name) };
            let ghost before = entry_views(r@);
            r.push(e);
            assert(entry_views(r@) =~= before.push((w@[1]@, name@)));
        }
        i += 1;
    }
    assert(views(ls@).take(ls.len() as int) =~= views(ls@));
    r
}

/// A listed device: its `bluetoothctl info` record, named from the listing
/// when the record has no name, or a record holding only the listed name and
/// address when there was no info.
pub open spec fn listed_device_of(
    address: Seq<char>,
    name: Seq<char>,
    info: Option<BluetoothDeviceView>,
) -> BluetoothDeviceView {
    match info {
        Some(d) => if d.name.len() == 0 {
            BluetoothDeviceView { name: name, ..d }
        } else {
            d
        },
        None => BluetoothDeviceView {
            name: name,
            address: address,
            connected: false,
            paired: false,
            trusted: false,
            rssi: 0,
            battery: None,
            batteries: Seq::empty(),
            audio_profiles: Seq::empty(),
        },
    }
}

/// The view of an optional device record.
pub open spec fn device_opt_view(d: Option<BluetoothDevice>) -> Option<BluetoothDeviceView> {
    match d {
        Some(x) => Some(x@),
        None => None,
    }
}

/// The record shown for a listing entry, given its looked-up record.
pub fn listed_device(entry: DeviceEntry, info: Option<BluetoothDevice>) -> (d: BluetoothDevice)
    ensures
        d@ == listed_device_of(entry.address@, entry.name@, device_opt_view(info)),
{
    let ghost gi = device_opt_view(info);
    match info {
        Some(mut dev) => {
            let ghost d = dev@;
            assert(gi == Some(d));
            let n = dev.name.as_str().unicode_len();
            assert(n == d.name.len());
            if n == 0 {
                dev.name = entry.name;
                assert(dev@ == BluetoothDeviceView { name: entry.name@, ..d });
            }
            assert(dev@ == listed_device_of(entry.address@, entry.name@, Some(d)));
            dev
        },
        None => {
            assert(battery_views(Seq::<Battery>::empty()) =~= Seq::<BatteryView>::empty());
            assert(profile_views(Seq::<AudioProfile>::empty()) =~= Seq::<crate::bluetooth::AudioProfileView>::empty());
            BluetoothDevice {
            name: entry.name,
            address: entry.address,
            connected: false,
            paired: false,
            trusted: false,
            rssi: 0,
            battery: None,
            batteries: Vec::new(),
            audio_profiles: Vec::new(),
            }
        },
    }
}

// ---------------------------------------------------------------------------
// Listing order
// ---------------------------------------------------------------------------

/// Connected devices first, then paired ones, then by name.
pub open spec fn device_before(a: BluetoothDeviceView, b: BluetoothDeviceView) -> bool {
    ||| a.connected && !b.connected
    ||| a.connected == b.connected && a.paired && !b.paired
    ||| a.connected == b.connected && a.paired == b.paired && text_less(a.name, b.name)
}

/// The display order of devices.
pub open spec fn device_order() -> spec_fn(BluetoothDevice, BluetoothDevice) -> bool {
    |a: BluetoothDevice, b: BluetoothDevice| device_before(a@, b@)
}

/// The display order of devices is a strict weak order.
pub proof fn lemma_device_order()
    ensures
        strict_weak(device_order()),
{
    let less = device_order();
    assert forall|a: BluetoothDevice| !#[trigger] less(a, a) by {
        lemma_text_less_irreflexive(a@.name);
    }
    assert forall|a: BluetoothDevice, b: BluetoothDevice, c: BluetoothDevice|
        #[trigger] less(a, b) && #[trigger] less(b, c) implies less(a, c) by {
        if text_less(a@.name, b@.name) && text_less(b@.name, c@.name) {
            lemma_text_less_transitive(a@.name, b@.name, c@.name);
        }
    }
    assert forall|a: BluetoothDevice, b: BluetoothDevice, c: BluetoothDevice|
        !#[trigger] less(a, b) && !#[trigger] less(b, c) implies !less(a, c) by {
        lemma_text_less_total(a@.name, b@.name);
        lemma_text_less_total(b@.name, c@.name);
        if text_less(b@.name, a@.name) && text_less(c@.name, b@.name) {
            lemma_text_less_transitive(c@.name, b@.name, a@.name);
        }
        if text_less(a@.name, c@.name) {
            lemma_text_less_total(a@.name, c@.name);
            if text_less(c@.name, b@.name) && text_less(b@.name, a@.name) {
                lemma_text_less_transitive(c@.name, b@.name, a@.name);
                lemma_text_less_transitive(a@.name, c@.name, a@.name);
                lemma_text_less_irreflexive(a@.name);
            }
            if c@.name == b@.name && text_less(b@.name, a@.name) {
                lemma_text_less_transitive(a@.name, c@.name, a@.name);
                lemma_text_less_irreflexive(a@.name);
            }
            if a@.name == b@.name && text_less(c@.name, b@.name) {
                lemma_text_less_transitive(a@.name, c@.name, a@.name);
                lemma_text_less_irreflexive(a@.name);
            }
        }
    }
}

/// Orders devices for display: connected first, then paired, then by name;
/// devices that tie keep their order.
pub fn sort_devices(devices: Vec<BluetoothDevice>) -> (r: Vec<BluetoothDevice>)
    ensures
        is_stable_sort(r@, devices@, device_order()),
{
    proof {
        lemma_device_order();
    }
    let lt = |a: &BluetoothDevice, b: &BluetoothDevice| -> (r: bool)
        ensures
            r == device_before(a@, b@),
        {
            if a.connected != b.connected {
                a.connected && !b.connected
            } else if a.paired != b.paired {
                a.paired && !b.paired
            } else {
                text_lt(&chars_of(a.name.as_str()), &chars_of(b.name.as_str()))
            }
        };
    stable_sort(devices, lt, Ghost(device_order()))
}

/// In devices sorted for display, a connected device never follows a
/// disconnected one; among devices of the same connected state, a paired
/// device never follows an unpaired one; among devices alike in both, the
/// names do not fall.
pub proof fn lemma_sorted_devices_order(out: Seq<BluetoothDevice>, inp: Seq<BluetoothDevice>)
    requires
        is_stable_sort(out, inp, device_order()),
    ensures
        out.len() == inp.len(),
        forall|i: int, j: int|
            0 <= i < j < out.len() ==> {
                &&& (#[trigger] out[j])@.connected ==> (#[trigger] out[i])@.connected
                &&& out[i]@.connected == out[j]@.connected && out[j]@.paired ==> out[i]@.paired
                &&& out[i]@.connected == out[j]@.connected && out[i]@.paired == out[j]@.paired ==> !text_less(
                    out[j]@.name,
                    out[i]@.name,
                )
            },
{
    let perm = choose|perm: Seq<int>| stable_order_by(out, inp, perm, device_order());
    assert forall|i: int, j: int| 0 <= i < j < out.len() implies !device_before((#[trigger] out[j])@, (#[trigger] out[i])@) by {
        assert(!device_order()(out[j], out[i]));
    }
}

} // verus!
