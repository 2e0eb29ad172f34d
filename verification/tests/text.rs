use auralink::order::text_lt;
use auralink::process::decimal_string;
use auralink::text::{
    chars_of, find_in, lines_of, lowered, read_i32, read_i64, read_u64, read_u8, replaced, rfind_in, split_on,
    terse_fields_of, trimmed, unescaped, words_of,
};
use auralink::theme::{hex_is_cuttable, parse_hex, pywal_palette, Rgba};

fn chars(s: &str) -> Vec<char> {
    s.chars().collect()
}

fn all(v: &[&str]) -> Vec<Vec<char>> {
    v.iter().map(|s| chars(s)).collect()
}

#[test]
fn lines_like_str_lines() {
    assert_eq!(lines_of(&chars("a\nb\r\n\nc")), all(&["a", "b", "", "c"]));
    assert_eq!(lines_of(&chars("a\n")), all(&["a"]));
    assert_eq!(lines_of(&chars("")), all(&[]));
    assert_eq!(lines_of(&chars("\n")), all(&[""]));
    assert_eq!(lines_of(&chars("x\r")), all(&["x\r"]));
}

#[test]
fn words_like_split_whitespace() {
    assert_eq!(words_of(&chars("  Device\tAA  name\u{3000}x \n")), all(&["Device", "AA", "name", "x"]));
    assert!(words_of(&chars(" \t ")).is_empty());
}

#[test]
fn trimming_and_searching() {
    assert_eq!(trimmed(&chars(" \t a b \n")), chars("a b"));
    assert_eq!(find_in(&chars("abcabc"), &chars("ca")), Some(2));
    assert_eq!(find_in(&chars("abc"), &chars("x")), None);
    assert_eq!(rfind_in(&chars("a/b/c"), '/'), Some(3));
    assert_eq!(rfind_in(&chars("abc"), '/'), None);
    assert_eq!(lowered(&chars("ÄbC-Z")), chars("Äbc-z"));
    assert_eq!(replaced(&chars("a:b:c"), ':', '_'), chars("a_b_c"));
    assert_eq!(split_on(&chars("a--b----c"), &chars("--")), all(&["a", "b", "", "c"]));
    assert_eq!(split_on(&chars(""), &chars("x")), all(&[""]));
}

#[test]
fn nmcli_terse_fields() {
    assert_eq!(terse_fields_of(&chars("My\\:Net:AA\\:BB:70:WPA\\\\2:*")), all(&["My:Net", "AA:BB", "70", "WPA\\2", "*"]));
    assert_eq!(terse_fields_of(&chars("")), all(&[""]));
    assert_eq!(terse_fields_of(&chars("a:")), all(&["a", ""]));
    assert_eq!(unescaped(&chars("a\\:b\\\\c\\")), chars("a:b\\c"));
}

#[test]
fn integer_reading() {
    assert_eq!(read_i32(&chars("-60")), Some(-60));
    assert_eq!(read_i32(&chars("+7")), Some(7));
    assert_eq!(read_i32(&chars("2147483648")), None);
    assert_eq!(read_i32(&chars("-2147483648")), Some(i32::MIN));
    assert_eq!(read_i32(&chars("")), None);
    assert_eq!(read_i32(&chars("-")), None);
    assert_eq!(read_i32(&chars(" 5")), None);
    assert_eq!(read_u8(&chars("255")), Some(255));
    assert_eq!(read_u8(&chars("256")), None);
    assert_eq!(read_u8(&chars("-0")), None);
    assert_eq!(read_u64(&chars("18446744073709551615")), Some(u64::MAX));
    assert_eq!(read_u64(&chars("18446744073709551616")), None);
    assert_eq!(read_i64(&chars("0042")), Some(42));
    assert_eq!(decimal_string(0), "0");
    assert_eq!(decimal_string(907), "907");
    assert_eq!(decimal_string(u64::MAX), "18446744073709551615");
}

#[test]
fn text_order_is_code_point_order() {
    assert!(text_lt(&chars("Alpha"), &chars("alpha")));
    assert!(text_lt(&chars("ab"), &chars("abc")));
    assert!(!text_lt(&chars("abc"), &chars("abc")));
    assert!(!text_lt(&chars("b"), &chars("abc")));
    assert!(text_lt(&chars("z"), &chars("é")));
}

#[test]
fn hex_colours() {
    assert_eq!(parse_hex("#1a2B3c"), Some(Rgba { a: 255, r: 0x1a, g: 0x2b, b: 0x3c }));
    assert_eq!(parse_hex("##ff000080"), Some(Rgba { a: 0x80, r: 255, g: 0, b: 0 }));
    assert_eq!(parse_hex("+f+f+f"), Some(Rgba { a: 255, r: 15, g: 15, b: 15 }));
    assert_eq!(parse_hex("#12345"), None);
    assert_eq!(parse_hex("#gg0000"), None);
    assert_eq!(parse_hex("-10000"), None);
    assert_eq!(parse_hex("#"), None);
    assert!(hex_is_cuttable("#ffffff"));
    assert!(hex_is_cuttable("é"));
    assert!(!hex_is_cuttable("aé123"));
    assert!(hex_is_cuttable("abé12"));
}

#[test]
fn pywal_palette_defaults() {
    let p = pywal_palette(None, None, None);
    assert_eq!(p.background, Rgba { a: 136, r: 9, g: 9, b: 11 });
    assert_eq!(p.foreground, Rgba { a: 255, r: 248, g: 250, b: 252 });
    assert_eq!(p.accent, Rgba { a: 255, r: 0, g: 240, b: 255 });
    assert_eq!(p.card_bg, Rgba { a: 255, r: 24, g: 24, b: 26 });
    assert_eq!(p.secondary_fg, Rgba { a: 180, r: 248, g: 250, b: 252 });
    assert_eq!(p.separator, Rgba { a: 60, r: 248, g: 250, b: 252 });
}

#[test]
fn pywal_palette_from_scheme() {
    let p = pywal_palette(Some("#f5f0e1"), Some("#10203040"), Some("nonsense"));
    assert_eq!(p.background, Rgba { a: 136, r: 0xf5, g: 0xf0, b: 0xe1 });
    assert_eq!(p.card_bg, Rgba { a: 255, r: 255, g: 255, b: 0xf0 });
    assert_eq!(p.foreground, Rgba { a: 0x40, r: 0x10, g: 0x20, b: 0x30 });
    assert_eq!(p.secondary_fg, Rgba { a: 180, r: 0x10, g: 0x20, b: 0x30 });
    assert_eq!(p.accent, Rgba { a: 255, r: 0, g: 240, b: 255 });
}

#[test]
fn characters_round_trip() {
    let s = "héllo 🌌";
    let v = chars_of(s);
    assert_eq!(v.len(), 7);
    assert_eq!(auralink::text::string_of(&v), s);
}
