//! Colours: `#rrggbb` / `#rrggbbaa` parsing and the palette derived from a
//! pywal colour scheme.
use vstd::prelude::*;
use vstd::string::StringSliceAdditionalSpecFns;

verus! {

/// A colour with alpha.
#[derive(Debug, Clone, Copy, PartialEq, Eq)]
pub struct Rgba {
    pub a: u8,
    pub r: u8,
    pub g: u8,
    pub b: u8,
}

/// `bytes` without leading `'#'` bytes.
pub open spec fn strip_hash(bytes: Seq<u8>) -> Seq<u8>
    decreases bytes.len(),
{
    if bytes.len() > 0 && bytes[0] == 35 {
        strip_hash(bytes.drop_first())
    } else {
        bytes
    }
}

/// The value of one ASCII hexadecimal digit.
pub open spec fn hex_value(c: u8) -> Option<u8> {
    if 48 <= c <= 57 {
        Some((c - 48) as u8)
    } else if 97 <= c <= 102 {
        Some((c - 87) as u8)
    } else if 65 <= c <= 70 {
        Some((c - 55) as u8)
    } else {
        None
    }
}

/// `u8::from_str_radix` of a two-byte text in base 16: two hex digits, or
/// `'+'` and one hex digit.
pub open spec fn hex_pair(a: u8, b: u8) -> Option<u8> {
    if a == 43 {
        hex_value(b)
    } else {
        match (hex_value(a), hex_value(b)) {
            (Some(x), Some(y)) => Some((x * 16 + y) as u8),
            _ => None,
        }
    }
}

/// A UTF-8 continuation byte: a cut before it would split a character.
pub open spec fn is_continuation(c: u8) -> bool {
    128 <= c < 192
}

/// The two-byte pieces of a six- or eight-byte colour can be cut out.
pub open spec fn cuttable(t: Seq<u8>) -> bool {
    (t.len() == 6 || t.len() == 8) ==> {
        &&& !is_continuation(t[2])
        &&& !is_continuation(t[4])
        &&& t.len() == 8 ==> !is_continuation(t[6])
    }
}

/// The colour a hex text (its UTF-8 bytes) names, leading `'#'` signs
/// removed: six bytes are `rrggbb` (opaque), eight are `rrggbbaa`.
pub open spec fn hex_color(bytes: Seq<u8>) -> Option<Rgba> {
    let t = strip_hash(bytes);
    if t.len() == 6 {
        match (hex_pair(t[0], t[1]), hex_pair(t[2], t[3]), hex_pair(t[4], t[5])) {
            (Some(r), Some(g), Some(b)) => Some(Rgba { a: 255, r, g, b }),
            _ => None,
        }
    } else if t.len() == 8 {
        match (hex_pair(t[0], t[1]), hex_pair(t[2], t[3]), hex_pair(t[4], t[5]), hex_pair(t[6], t[7])) {
            (Some(r), Some(g), Some(b), Some(a)) => Some(Rgba { a, r, g, b }),
            _ => None,
        }
    } else {
        None
    }
}

fn hex_value_exec(c: u8) -> (r: Option<u8>)
    ensures
        r == hex_value(c),
{
    if 48 <= c && c <= 57 {
        Some(c - 48)
    } else if 97 <= c && c <= 102 {
        Some(c - 87)
    } else if 65 <= c && c <= 70 {
        Some(c - 55)
    } else {
        None
    }
}

fn hex_pair_exec(a: u8, b: u8) -> (r: Option<u8>)
    ensures
        r == hex_pair(a, b),
{
    if a == 43 {
        hex_value_exec(b)
    } else {
        match (hex_value_exec(a), hex_value_exec(b)) {
            (Some(x), Some(y)) => Some(x * 16 + y),
            _ => None,
        }
    }
}

/// Can the colour pieces of this text be cut out without splitting a
/// character?
pub fn hex_is_cuttable(hex: &str) -> (r: bool)
    ensures
        r == cuttable(strip_hash(hex.spec_bytes())),
{
    let bytes = hex.as_bytes();
    let mut i: usize = 0;
    assert(bytes@.subrange(0, bytes@.len() as int) =~= bytes@);
    while i < bytes.len() && bytes[i] == 35
        invariant
            i <= bytes@.len(),
            strip_hash(bytes@.subrange(i as int, bytes@.len() as int)) == strip_hash(bytes@),
        decreases bytes@.len() - i,
    {
        assert(bytes@.subrange(i as int, bytes@.len() as int).drop_first() =~= bytes@.subrange(i + 1, bytes@.len() as int));
        i += 1;
    }
    let n = bytes.len() - i;
    let ghost t = bytes@.subrange(i as int, bytes@.len() as int);
    assert(strip_hash(t) == t);
    if n == 6 || n == 8 {
        let c2 = bytes[i + 2];
        let c4 = bytes[i + 4];
        assert(t[2] == c2 && t[4] == c4);
        let ok6 = if n == 8 {
            let c6 = bytes[i + 6];
            assert(t[6] == c6);
            !(128 <= c6 && c6 < 192)
        } else {
            true
        };
        !(128 <= c2 && c2 < 192) && !(128 <= c4 && c4 < 192) && ok6
    } else {
        true
    }
}

/// Parses `#rrggbb` or `#rrggbbaa` (any number of leading `'#'`).
pub fn parse_hex(hex: &str) -> (r: Option<Rgba>)
    requires
        cuttable(strip_hash(hex.spec_bytes())),
    ensures
        r == hex_color(hex.spec_bytes()),
{
    let bytes = hex.as_bytes();
    let mut i: usize = 0;
    assert(bytes@.subrange(0, bytes@.len() as int) =~= bytes@);
    while i < bytes.len() && bytes[i] == 35
        invariant
            i <= bytes@.len(),
            strip_hash(bytes@.subrange(i as int, bytes@.len() as int)) == strip_hash(bytes@),
        decreases bytes@.len() - i,
    {
        assert(bytes@.subrange(i as int, bytes@.len() as int).drop_first() =~= bytes@.subrange(i + 1, bytes@.len() as int));
        i += 1;
    }
    let n = bytes.len() - i;
    let ghost t = bytes@.subrange(i as int, bytes@.len() as int);
    assert(strip_hash(t) == t);
    if n == 6 {
        assert(t[0] == bytes@[i as int] && t[1] == bytes@[i + 1] && t[2] == bytes@[i + 2]);
        assert(t[3] == bytes@[i + 3] && t[4] == bytes@[i + 4] && t[5] == bytes@[i + 5]);
        let r = hex_pair_exec(bytes[i], bytes[i + 1]);
        let g = hex_pair_exec(bytes[i + 2], bytes[i + 3]);
        let b = hex_pair_exec(bytes[i + 4], bytes[i + 5]);
        match (r, g, b) {
            (Some(r), Some(g), Some(b)) => Some(Rgba { a: 255, r, g, b }),
            _ => None,
        }
    } else if n == 8 {
        assert(t[0] == bytes@[i as int] && t[1] == bytes@[i + 1] && t[2] == bytes@[i + 2]);
        assert(t[3] == bytes@[i + 3] && t[4] == bytes@[i + 4] && t[5] == bytes@[i + 5]);
        assert(t[6] == bytes@[i + 6] && t[7] == bytes@[i + 7]);
        let r = hex_pair_exec(bytes[i], bytes[i + 1]);
        let g = hex_pair_exec(bytes[i + 2], bytes[i + 3]);
        let b = hex_pair_exec(bytes[i + 4], bytes[i + 5]);
        let a = hex_pair_exec(bytes[i + 6], bytes[i + 7]);
        match (r, g, b, a) {
            (Some(r), Some(g), Some(b), Some(a)) => Some(Rgba { a, r, g, b }),
            _ => None,
        }
    } else {
        None
    }
}

/// The colours of the interface.
#[derive(Debug, Clone, Copy)]
pub struct Palette {
    pub background: Rgba,
    pub foreground: Rgba,
    pub accent: Rgba,
    pub card_bg: Rgba,
    pub secondary_fg: Rgba,
    pub separator: Rgba,
}

/// The colour a scheme entry names, or the fallback when the entry is
/// missing or unreadable.
pub open spec fn color_or(entry: Option<Seq<u8>>, fallback: Rgba) -> Rgba {
    match entry {
        Some(b) => match hex_color(b) {
            Some(c) => c,
            None => fallback,
        },
        None => fallback,
    }
}

/// A channel brightened by 15, capped at 255.
pub open spec fn brighten(c: u8) -> u8 {
    if c + 15 > 255 {
        255
    } else {
        (c + 15) as u8
    }
}

/// The bytes of an optional colour entry.
pub open spec fn entry_bytes(s: Option<&str>) -> Option<Seq<u8>> {
    match s {
        Some(x) => Some(x.spec_bytes()),
        None => None,
    }
}

/// A missing entry, or one `parse_hex` can cut into byte pairs.
pub open spec fn entry_cuttable(s: Option<&str>) -> bool {
    match s {
        Some(x) => cuttable(strip_hash(x.spec_bytes())),
        None => true,
    }
}

/// The palette of a pywal scheme: the background (default `#09090b`) at
/// alpha 136, the foreground (default `#f8fafc`), the accent from `color1`
/// (default `#00f0ff`), cards in the background brightened by 15 and
/// opaque, secondary text in the foreground at alpha 180 and separators at
/// alpha 60.
pub open spec fn palette_of(background: Option<Seq<u8>>, foreground: Option<Seq<u8>>, color1: Option<Seq<u8>>) -> Palette {
    let bg0 = color_or(background, Rgba { a: 255, r: 9, g: 9, b: 11 });
    let bg = Rgba { a: 136, ..bg0 };
    let fg = color_or(foreground, Rgba { a: 255, r: 248, g: 250, b: 252 });
    let accent = color_or(color1, Rgba { a: 255, r: 0, g: 240, b: 255 });
    Palette {
        background: bg,
        foreground: fg,
        accent: accent,
        card_bg: Rgba { a: 255, r: brighten(bg.r), g: brighten(bg.g), b: brighten(bg.b) },
        secondary_fg: Rgba { a: 180, ..fg },
        separator: Rgba { a: 60, ..fg },
    }
}

fn color_entry(entry: Option<&str>, fallback: Rgba) -> (c: Rgba)
    requires
        entry_cuttable(entry),
    ensures
        c == color_or(entry_bytes(entry), fallback),
{
    match entry {
        Some(s) => match parse_hex(s) {
            Some(c) => c,
            None => fallback,
        },
        None => fallback,
    }
}

fn brighten_exec(c: u8) -> (r: u8)
    ensures
        r == brighten(c),
{
    if c > 240 {
        255
    } else {
        c + 15
    }
}

/// The palette for a pywal colour scheme's `background`, `foreground` and
/// `color1` entries.
pub fn pywal_palette(background: Option<&str>, foreground: Option<&str>, color1: Option<&str>) -> (p: Palette)
    requires
        entry_cuttable(background),
        entry_cuttable(foreground),
        entry_cuttable(color1),
    ensures
        p == palette_of(entry_bytes(background), entry_bytes(foreground), entry_bytes(color1)),
{
    let bg0 = color_entry(background, Rgba { a: 255, r: 9, g: 9, b: 11 });
    let bg = Rgba { a: 136, r: bg0.r, g: bg0.g, b: bg0.b };
    let fg = color_entry(foreground, Rgba { a: 255, r: 248, g: 250, b: 252 });
    let accent = color_entry(color1, Rgba { a: 255, r: 0, g: 240, b: 255 });
    Palette {
        background: bg,
        foreground: fg,
        accent,
        card_bg: Rgba { a: 255, r: brighten_exec(bg.r), g: brighten_exec(bg.g), b: brighten_exec(bg.b) },
        secondary_fg: Rgba { a: 180, r: fg.r, g: fg.g, b: fg.b },
        separator: Rgba { a: 60, r: fg.r, g: fg.g, b: fg.b },
    }
}

/// The palette follows the scheme: a readable `color1` entry is the accent,
/// a readable foreground is the foreground, and a readable background is the
/// background at alpha 136. Each default (`#00f0ff`, `#f8fafc`, `#09090b`)
/// is taken only when its entry is missing or unreadable. Cards are the
/// background brightened by 15 per channel, capped at 255, and opaque;
/// secondary text and separators are the foreground at alpha 180 and 60.
pub proof fn lemma_palette_follows_scheme(
    background: Option<Seq<u8>>,
    foreground: Option<Seq<u8>>,
    color1: Option<Seq<u8>>,
)
    ensures
        ({
            let p = palette_of(background, foreground, color1);
            &&& color1 matches Some(e) ==> (hex_color(e) matches Some(c) ==> p.accent == c)
            &&& (color1 is None || hex_color(color1->0) is None) ==> p.accent == (Rgba { a: 255, r: 0, g: 240, b: 255 })
            &&& foreground matches Some(e) ==> (hex_color(e) matches Some(c) ==> p.foreground == c)
            &&& (foreground is None || hex_color(foreground->0) is None) ==> p.foreground == (Rgba { a: 255, r: 248, g: 250, b: 252 })
            &&& background matches Some(e) ==> (hex_color(e) matches Some(c) ==> p.background == (Rgba { a: 136, ..c }))
            &&& (background is None || hex_color(background->0) is None) ==> p.background == (Rgba { a: 136, r: 9, g: 9, b: 11 })
            &&& p.card_bg.a == 255
            &&& p.card_bg.r == if p.background.r > 240 { 255 } else { p.background.r + 15 }
            &&& p.card_bg.g == if p.background.g > 240 { 255 } else { p.background.g + 15 }
            &&& p.card_bg.b == if p.background.b > 240 { 255 } else { p.background.b + 15 }
            &&& p.secondary_fg == (Rgba { a: 180, ..p.foreground })
            &&& p.separator == (Rgba { a: 60, ..p.foreground })
        }),
{
}

} // verus!
