//! Text primitives over sequences of characters: trimming, searching,
//! splitting into lines, words and fields, and decimal integers.
//!
//! Every executable function here works on `Vec<char>` and is specified by a
//! spec function over `Seq<char>` that states the std behaviour it mirrors
//! (`str::trim`, `str::lines`, `str::split`, `str::split_whitespace`,
//! `str::find`, `<int>::from_str`).
use vstd::prelude::*;

verus! {

// ---------------------------------------------------------------------------
// Conversions between `&str`, `String` and `Vec<char>`
// ---------------------------------------------------------------------------

/// The characters of a string slice, in order.
pub fn chars_of(s: &str) -> (v: Vec<char>)
    ensures
        v@ == s@,
{
    let mut v: Vec<char> = Vec::new();
    for c in it: s.chars()
        invariant
            v@ == it.seq().take(it.index() as int),
            it.seq() == s@,
    {
        v.push(c);
    }
    v
}

/// Appends one character to a string (std's `String::push`).
#[verifier::external_body]
fn push_char(s: &mut String, c: char)
    ensures
        final(s)@ == old(s)@.push(c),
{
    s.push(c);
}

/// The string made of the given characters.
pub fn string_of(v: &Vec<char>) -> (s: String)
    ensures
        s@ == v@,
{
    let mut s = String::new();
    let mut i: usize = 0;
    while i < v.len()
        invariant
            i <= v.len(),
            s@ == v@.take(i as int),
        decreases v.len() - i,
    {
        push_char(&mut s, v[i]);
        assert(v@.take(i as int).push(v@[i as int]) =~= v@.take(i + 1));
        i += 1;
    }
    assert(v@.take(v.len() as int) =~= v@);
    s
}

/// The characters of `v` from index `lo` up to, not including, `hi`.
pub fn slice(v: &Vec<char>, lo: usize, hi: usize) -> (r: Vec<char>)
    requires
        lo <= hi <= v.len(),
    ensures
        r@ == v@.subrange(lo as int, hi as int),
{
    let mut r: Vec<char> = Vec::new();
    let mut i: usize = lo;
    while i < hi
        invariant
            lo <= i <= hi <= v.len(),
            r@ == v@.subrange(lo as int, i as int),
        decreases hi - i,
    {
        r.push(v[i]);
        assert(v@.subrange(lo as int, i as int).push(v@[i as int]) =~= v@.subrange(
            lo as int,
            i + 1,
        ));
        i += 1;
    }
    r
}

/// `a` followed by `b`.
pub fn concat(a: &Vec<char>, b: &Vec<char>) -> (r: Vec<char>)
    ensures
        r@ == a@ + b@,
{
    let mut r = slice(a, 0, a.len());
    let mut i: usize = 0;
    while i < b.len()
        invariant
            i <= b.len(),
            r@ == a@ + b@.take(i as int),
        decreases b.len() - i,
    {
        r.push(b[i]);
        assert(a@ + b@.take(i as int) + seq![b@[i as int]] =~= a@ + b@.take(i + 1));
        i += 1;
    }
    assert(b@.take(b.len() as int) =~= b@);
    r
}

/// Character-by-character equality of two character vectors.
pub fn same(a: &Vec<char>, b: &Vec<char>) -> (r: bool)
    ensures
        r == (a@ == b@),
{
    if a.len() != b.len() {
        return false;
    }
    let mut i: usize = 0;
    while i < a.len()
        invariant
            i <= a.len() == b.len(),
            a@.take(i as int) == b@.take(i as int),
        decreases a.len() - i,
    {
        if a[i] != b[i] {
            return false;
        }
        assert(a@.take(i + 1) =~= a@.take(i as int).push(a@[i as int]));
        assert(b@.take(i + 1) =~= b@.take(i as int).push(b@[i as int]));
        i += 1;
    }
    assert(a@.take(a.len() as int) =~= a@);
    assert(b@.take(b.len() as int) =~= b@);
    true
}

// ---------------------------------------------------------------------------
// Whitespace and trimming
// ---------------------------------------------------------------------------

/// Unicode `White_Space`, the property behind `char::is_whitespace`.
pub open spec fn is_ws(c: char) -> bool {
    let n = c as u32;
    ||| 9 <= n <= 13
    ||| n == 32
    ||| n == 0x85
    ||| n == 0xA0
    ||| n == 0x1680
    ||| 0x2000 <= n <= 0x200A
    ||| n == 0x2028
    ||| n == 0x2029
    ||| n == 0x202F
    ||| n == 0x205F
    ||| n == 0x3000
}

/// `char::is_whitespace`.
pub fn is_whitespace(c: char) -> (r: bool)
    ensures
        r == is_ws(c),
{
    let n = c as u32;
    (9 <= n && n <= 13) || n == 32 || n == 0x85 || n == 0xA0 || n == 0x1680 || (0x2000 <= n && n
        <= 0x200A) || n == 0x2028 || n == 0x2029 || n == 0x202F || n == 0x205F || n == 0x3000
}

/// `s` without its leading whitespace.
pub open spec fn trim_start(s: Seq<char>) -> Seq<char>
    decreases s.len(),
{
    if s.len() > 0 && is_ws(s[0]) {
        trim_start(s.drop_first())
    } else {
        s
    }
}

/// `s` without its trailing whitespace.
pub open spec fn trim_end(s: Seq<char>) -> Seq<char>
    decreases s.len(),
{
    if s.len() > 0 && is_ws(s.last()) {
        trim_end(s.drop_last())
    } else {
        s
    }
}

/// `s` without leading and trailing whitespace (`str::trim`).
pub open spec fn trim(s: Seq<char>) -> Seq<char> {
    trim_end(trim_start(s))
}

/// `v` without leading and trailing whitespace.
pub fn trimmed(v: &Vec<char>) -> (r: Vec<char>)
    ensures
        r@ == trim(v@),
{
    let n = v.len();
    let mut i: usize = 0;
    assert(v@.subrange(0, n as int) =~= v@);
    while i < n && is_whitespace(v[i])
        invariant
            i <= n == v.len(),
            trim_start(v@.subrange(i as int, n as int)) == trim_start(v@),
        decreases n - i,
    {
        assert(v@.subrange(i as int, n as int).drop_first() =~= v@.subrange(i + 1, n as int));
        i += 1;
    }
    assert(trim_start(v@.subrange(i as int, n as int)) == v@.subrange(i as int, n as int));
    let mut j: usize = n;
    while j > i && is_whitespace(v[j - 1])
        invariant
            i <= j <= n == v.len(),
            trim_end(v@.subrange(i as int, j as int)) == trim(v@),
        decreases j,
    {
        assert(v@.subrange(i as int, j as int).drop_last() =~= v@.subrange(i as int, j - 1));
        j -= 1;
    }
    slice(v, i, j)
}

// ---------------------------------------------------------------------------
// Searching
// ---------------------------------------------------------------------------

/// `pat` occurs in `s` starting at index `i`.
pub open spec fn matches_at(s: Seq<char>, pat: Seq<char>, i: int) -> bool {
    0 <= i && i + pat.len() <= s.len() && s.subrange(i, i + pat.len()) == pat
}

/// The first index at or after `i` where `pat` occurs in `s`.
pub open spec fn find_from(s: Seq<char>, pat: Seq<char>, i: int) -> Option<int>
    decreases s.len() + 1 - i,
{
    if i < 0 || i + pat.len() > s.len() {
        None
    } else if matches_at(s, pat, i) {
        Some(i)
    } else {
        find_from(s, pat, i + 1)
    }
}

/// The first index where `pat` occurs in `s` (`str::find`, in characters).
pub open spec fn find(s: Seq<char>, pat: Seq<char>) -> Option<int> {
    find_from(s, pat, 0)
}

/// `pat` occurs somewhere in `s` (`str::contains`).
pub open spec fn contains(s: Seq<char>, pat: Seq<char>) -> bool {
    find(s, pat) is Some
}

/// What `find_from` finds is a match, with no match between `i` and it.
pub proof fn lemma_find_from(s: Seq<char>, pat: Seq<char>, i: int)
    requires
        0 <= i,
    ensures
        find_from(s, pat, i) matches Some(k) ==> {
            &&& i <= k
            &&& matches_at(s, pat, k)
            &&& forall|j: int| i <= j < k ==> !matches_at(s, pat, j)
        },
        find_from(s, pat, i) is None ==> forall|j: int| i <= j ==> !matches_at(s, pat, j),
    decreases s.len() + 1 - i,
{
    if i + pat.len() <= s.len() && !matches_at(s, pat, i) {
        lemma_find_from(s, pat, i + 1);
    }
}

/// The first index at or after `start` where `pat` occurs in `v`.
pub fn find_after(v: &Vec<char>, pat: &Vec<char>, start: usize) -> (r: Option<usize>)
    requires
        start <= v.len(),
    ensures
        r matches Some(k) ==> find_from(v@, pat@, start as int) == Some(k as int),
        r is None ==> find_from(v@, pat@, start as int) is None,
{
    if pat.len() > v.len() {
        return None;
    }
    let last = v.len() - pat.len();
    if start > last {
        return None;
    }
    let mut i: usize = start;
    loop
        invariant
            start <= i <= last,
            last + pat.len() == v.len(),
            find_from(v@, pat@, start as int) == find_from(v@, pat@, i as int),
        decreases last + 1 - i,
    {
        let mut k: usize = 0;
        let mut ok = true;
        while k < pat.len()
            invariant
                i <= last,
                last + pat.len() == v.len(),
                k <= pat.len(),
                ok ==> v@.subrange(i as int, i + k) == pat@.take(k as int),
                !ok ==> !matches_at(v@, pat@, i as int),
            decreases pat.len() - k,
        {
            if ok {
                if v[i + k] != pat[k] {
                    ok = false;
                    assert(v@.subrange(i as int, i + pat.len())[k as int] != pat@[k as int]);
                } else {
                    assert(v@.subrange(i as int, i + k + 1) =~= v@.subrange(i as int, i + k).push(
                        v@[i + k],
                    ));
                    assert(pat@.take(k + 1) =~= pat@.take(k as int).push(pat@[k as int]));
                }
            }
            k += 1;
        }
        if ok {
            assert(pat@.take(pat.len() as int) =~= pat@);
            return Some(i);
        }
        if i == last {
            assert(find_from(v@, pat@, i + 1) is None);
            assert(find_from(v@, pat@, i as int) == find_from(v@, pat@, i + 1));
            return None;
        }
        i += 1;
    }
}

/// The first index where `pat` occurs in `v`.
pub fn find_in(v: &Vec<char>, pat: &Vec<char>) -> (r: Option<usize>)
    ensures
        r matches Some(k) ==> find(v@, pat@) == Some(k as int),
        r is None ==> find(v@, pat@) is None,
{
    find_after(v, pat, 0)
}

/// Does `pat` occur in `v`?
pub fn includes(v: &Vec<char>, pat: &Vec<char>) -> (r: bool)
    ensures
        r == contains(v@, pat@),
{
    find_in(v, pat).is_some()
}

/// `s` begins with `p`.
pub open spec fn starts_with(s: Seq<char>, p: Seq<char>) -> bool {
    p.len() <= s.len() && s.take(p.len() as int) == p
}

/// `s` ends with `p`.
pub open spec fn ends_with(s: Seq<char>, p: Seq<char>) -> bool {
    p.len() <= s.len() && s.skip(s.len() - p.len()) == p
}

/// Does `v` begin with `p`?
pub fn begins_with(v: &Vec<char>, p: &Vec<char>) -> (r: bool)
    ensures
        r == starts_with(v@, p@),
{
    if p.len() > v.len() {
        return false;
    }
    let head = slice(v, 0, p.len());
    same(&head, p)
}

/// Does `v` end with `p`?
pub fn finishes_with(v: &Vec<char>, p: &Vec<char>) -> (r: bool)
    ensures
        r == ends_with(v@, p@),
{
    if p.len() > v.len() {
        return false;
    }
    let tail = slice(v, v.len() - p.len(), v.len());
    assert(v@.subrange(v.len() - p.len(), v.len() as int) =~= v@.skip(v.len() - p.len()));
    same(&tail, p)
}

/// The index of the last occurrence of character `c` in `s` (`str::rfind`).
pub open spec fn rfind_char(s: Seq<char>, c: char) -> Option<int>
    decreases s.len(),
{
    if s.len() == 0 {
        None
    } else if s.last() == c {
        Some(s.len() - 1)
    } else {
        rfind_char(s.drop_last(), c)
    }
}

/// The index of the last `c` in `v`.
pub fn rfind_in(v: &Vec<char>, c: char) -> (r: Option<usize>)
    ensures
        r matches Some(k) ==> rfind_char(v@, c) == Some(k as int) && k < v.len(),
        r is None ==> rfind_char(v@, c) is None,
{
    let mut j: usize = v.len();
    assert(v@.take(j as int) =~= v@);
    while j > 0
        invariant
            j <= v.len(),
            rfind_char(v@.take(j as int), c) == rfind_char(v@, c),
        decreases j,
    {
        if v[j - 1] == c {
            return Some(j - 1);
        }
        assert(v@.take(j as int).drop_last() =~= v@.take(j - 1));
        j -= 1;
    }
    None
}

// ---------------------------------------------------------------------------
// Case and replacement
// ---------------------------------------------------------------------------

/// ASCII lowercase of one character; other characters are unchanged.
pub open spec fn lower_char(c: char) -> char {
    if 'A' <= c <= 'Z' {
        ((c as u32) + 32) as char
    } else {
        c
    }
}

/// ASCII uppercase of one character; other characters are unchanged.
pub open spec fn upper_char(c: char) -> char {
    if 'a' <= c <= 'z' {
        ((c as u32) - 32) as char
    } else {
        c
    }
}

/// `s` with ASCII letters in lower case.
pub open spec fn lower(s: Seq<char>) -> Seq<char> {
    s.map_values(|c: char| lower_char(c))
}

/// ASCII lowercase of `c`.
pub fn to_lower_char(c: char) -> (r: char)
    ensures
        r == lower_char(c),
{
    if 'A' <= c && c <= 'Z' {
        let n = (c as u32) + 32;
        char_from(n)
    } else {
        c
    }
}

/// The character with code `n`, for an ASCII letter code.
fn char_from(n: u32) -> (c: char)
    requires
        65 <= n <= 90 || 97 <= n <= 122,
    ensures
        c == n as char,
{
    let b = n as u8;
    b as char
}

/// `v` with ASCII letters in lower case.
pub fn lowered(v: &Vec<char>) -> (r: Vec<char>)
    ensures
        r@ == lower(v@),
{
    let mut r: Vec<char> = Vec::new();
    let mut i: usize = 0;
    while i < v.len()
        invariant
            i <= v.len(),
            r@ == lower(v@.take(i as int)),
        decreases v.len() - i,
    {
        r.push(to_lower_char(v[i]));
        assert(lower(v@.take(i + 1)) =~= lower(v@.take(i as int)).push(lower_char(v@[i as int])));
        i += 1;
    }
    assert(v@.take(v.len() as int) =~= v@);
    r
}

/// `s` with every occurrence of character `a` replaced by `b`.
pub open spec fn replace_char(s: Seq<char>, a: char, b: char) -> Seq<char> {
    s.map_values(|c: char| if c == a { b } else { c })
}

/// `v` with each `a` replaced by `b`.
pub fn replaced(v: &Vec<char>, a: char, b: char) -> (r: Vec<char>)
    ensures
        r@ == replace_char(v@, a, b),
{
    let mut r: Vec<char> = Vec::new();
    let mut i: usize = 0;
    while i < v.len()
        invariant
            i <= v.len(),
            r@ == replace_char(v@.take(i as int), a, b),
        decreases v.len() - i,
    {
        let c = v[i];
        r.push(if c == a { b } else { c });
        assert(replace_char(v@.take(i + 1), a, b) =~= replace_char(v@.take(i as int), a, b).push(
            if c == a { b } else { c },
        ));
        i += 1;
    }
    assert(v@.take(v.len() as int) =~= v@);
    r
}


/// The character sequences held by a sequence of character vectors.
pub open spec fn views(v: Seq<Vec<char>>) -> Seq<Seq<char>> {
    v.map_values(|x: Vec<char>| x@)
}

// ---------------------------------------------------------------------------
// Splitting
// ---------------------------------------------------------------------------

/// The pieces of `s` from index `p` on, cut at each non-overlapping
/// occurrence of `pat`, searched from the left (`str::split` with a string
/// pattern).
pub open spec fn split_from(s: Seq<char>, pat: Seq<char>, p: int) -> Seq<Seq<char>>
    decreases s.len() + 1 - p,
{
    if pat.len() == 0 || p < 0 || p > s.len() {
        Seq::empty()
    } else {
        match find_from(s, pat, p) {
            None => seq![s.subrange(p, s.len() as int)],
            Some(k) => {
                proof {
                    lemma_find_from(s, pat, p);
                }
                seq![s.subrange(p, k)] + split_from(s, pat, k + pat.len())
            },
        }
    }
}

/// `s` cut at each occurrence of the non-empty `pat`.
pub open spec fn split(s: Seq<char>, pat: Seq<char>) -> Seq<Seq<char>> {
    split_from(s, pat, 0)
}

/// `v` cut at each occurrence of the non-empty `pat`.
pub fn split_on(v: &Vec<char>, pat: &Vec<char>) -> (r: Vec<Vec<char>>)
    requires
        pat.len() > 0,
    ensures
        views(r@) == split(v@, pat@),
        r.len() >= 1,
{
    let mut r: Vec<Vec<char>> = Vec::new();
    let mut p: usize = 0;
    loop
        invariant
            pat.len() > 0,
            p <= v.len(),
            split(v@, pat@) == views(r@) + split_from(v@, pat@, p as int),
        decreases v.len() + 1 - p,
    {
        proof {
            lemma_find_from(v@, pat@, p as int);
        }
        match find_after(v, pat, p) {
            None => {
                let piece = slice(v, p, v.len());
                let ghost before = views(r@);
                r.push(piece);
                assert(views(r@) =~= before.push(piece@));
                assert(split(v@, pat@) =~= views(r@));
                return r;
            },
            Some(k) => {
                let piece = slice(v, p, k);
                let ghost before = views(r@);
                r.push(piece);
                assert(views(r@) =~= before.push(piece@));
                assert(split_from(v@, pat@, p as int) =~= seq![piece@] + split_from(
                    v@,
                    pat@,
                    k + pat.len(),
                ));
                assert(split(v@, pat@) =~= views(r@) + split_from(v@, pat@, k + pat.len()));
                p = k + pat.len();
            },
        }
    }
}

/// A line without one trailing carriage return.
pub open spec fn strip_cr(l: Seq<char>) -> Seq<char> {
    if l.len() > 0 && l.last() == '\r' {
        l.drop_last()
    } else {
        l
    }
}

/// The lines of `s` (`str::lines`): `s` cut at each `'\n'`, a `'\r'` that
/// stood just before a cut `'\n'` removed, and no final empty line.
pub open spec fn lines(s: Seq<char>) -> Seq<Seq<char>> {
    let pieces = split(s, seq!['\n']);
    let n = pieces.len();
    let body = pieces.take(n - 1).map_values(|l: Seq<char>| strip_cr(l));
    if pieces[n - 1].len() == 0 {
        body
    } else {
        body.push(pieces[n - 1])
    }
}

/// `l` without one trailing carriage return.
pub fn strip_cr_exec(l: Vec<char>) -> (r: Vec<char>)
    ensures
        r@ == strip_cr(l@),
{
    let ghost orig = l@;
    let mut l = l;
    if l.len() > 0 && l[l.len() - 1] == '\r' {
        l.pop();
        assert(l@ =~= orig.drop_last());
    }
    l
}


/// The lines of the text `v`.
pub fn lines_of(v: &Vec<char>) -> (r: Vec<Vec<char>>)
    ensures
        views(r@) == lines(v@),
{
    let nl: Vec<char> = vec!['\n'];
    assert(nl@ =~= seq!['\n']);
    let mut pieces = split_on(v, &nl);
    let ghost all = views(pieces@);
    let last = pieces.pop().unwrap();
    assert(views(pieces@) =~= all.take(all.len() - 1));
    let mut r: Vec<Vec<char>> = Vec::new();
    let mut i: usize = 0;
    let n = pieces.len();
    while i < n
        invariant
            n == pieces.len(),
            i <= n,
            views(pieces@) == all.take(all.len() - 1),
            views(r@) == all.take(all.len() - 1).take(i as int).map_values(
                |l: Seq<char>| strip_cr(l),
            ),
        decreases n - i,
    {
        let l = slice(&pieces[i], 0, pieces[i].len());
        assert(l@ =~= views(pieces@)[i as int]);
        let s = strip_cr_exec(l);
        let ghost before = views(r@);
        r.push(s);
        assert(views(r@) =~= before.push(s@));
        assert(all.take(all.len() - 1).take(i + 1) =~= all.take(all.len() - 1).take(i as int).push(
            all.take(all.len() - 1)[i as int],
        ));
        i += 1;
    }
    assert(all.take(all.len() - 1).take(n as int) =~= all.take(all.len() - 1));
    if last.len() > 0 {
        let ghost before = views(r@);
        r.push(last);
        assert(views(r@) =~= before.push(all[all.len() - 1]));
    }
    r
}


/// The whitespace-separated words of `s` (`str::split_whitespace`).
pub open spec fn words(s: Seq<char>) -> Seq<Seq<char>>
    decreases s.len(),
{
    if s.len() == 0 {
        Seq::empty()
    } else {
        let w = words(s.drop_last());
        let c = s.last();
        if is_ws(c) {
            w
        } else if s.len() >= 2 && !is_ws(s[s.len() - 2]) && w.len() > 0 {
            w.update(w.len() - 1, w.last().push(c))
        } else {
            w.push(seq![c])
        }
    }
}

/// The whitespace-separated words of `v`.
pub fn words_of(v: &Vec<char>) -> (r: Vec<Vec<char>>)
    ensures
        views(r@) == words(v@),
{
    let mut r: Vec<Vec<char>> = Vec::new();
    let mut i: usize = 0;
    while i < v.len()
        invariant
            i <= v.len(),
            views(r@) == words(v@.take(i as int)),
        decreases v.len() - i,
    {
        let c = v[i];
        let ghost pre = v@.take(i as int);
        let ghost next = v@.take(i + 1);
        assert(next.drop_last() =~= pre);
        assert(next.last() == c);
        if is_whitespace(c) {
        } else if i >= 1 && !is_whitespace(v[i - 1]) && r.len() > 0 {
            assert(next[next.len() - 2] == v@[i - 1]);
            let ghost before = views(r@);
            let mut cur = r.pop().unwrap();
            let ghost mid = views(r@);
            assert(mid =~= before.drop_last());
            cur.push(c);
            r.push(cur);
            assert(views(r@) =~= before.update(before.len() - 1, before.last().push(c)));
        } else {
            if i >= 1 {
                assert(next[next.len() - 2] == v@[i - 1]);
            }
            let ghost before = views(r@);
            let mut w: Vec<char> = Vec::new();
            w.push(c);
            r.push(w);
            assert(views(r@) =~= before.push(seq![c]));
        }
        i += 1;
    }
    assert(v@.take(v.len() as int) =~= v@);
    r
}

/// Scanning state for `nmcli --terse` fields: the fields closed so far, the
/// field being read, and whether the previous character was a backslash.
pub open spec fn terse_scan(s: Seq<char>) -> (Seq<Seq<char>>, Seq<char>, bool)
    decreases s.len(),
{
    if s.len() == 0 {
        (Seq::empty(), Seq::empty(), false)
    } else {
        let (parts, cur, esc) = terse_scan(s.drop_last());
        let c = s.last();
        if esc {
            (parts, cur.push(c), false)
        } else if c == '\\' {
            (parts, cur, true)
        } else if c == ':' {
            (parts.push(cur), Seq::empty(), false)
        } else {
            (parts, cur.push(c), false)
        }
    }
}

/// The fields of one `nmcli --terse` line: cut at each unescaped `':'`, with
/// each backslash escape replaced by the character it escapes.
pub open spec fn terse_fields(s: Seq<char>) -> Seq<Seq<char>> {
    terse_scan(s).0.push(terse_scan(s).1)
}

/// The fields of an `nmcli -t` line.
pub fn terse_fields_of(v: &Vec<char>) -> (r: Vec<Vec<char>>)
    ensures
        views(r@) == terse_fields(v@),
{
    let mut parts: Vec<Vec<char>> = Vec::new();
    let mut cur: Vec<char> = Vec::new();
    let mut esc = false;
    let mut i: usize = 0;
    while i < v.len()
        invariant
            i <= v.len(),
            (views(parts@), cur@, esc) == terse_scan(v@.take(i as int)),
        decreases v.len() - i,
    {
        let c = v[i];
        assert(v@.take(i + 1).drop_last() =~= v@.take(i as int));
        if esc {
            cur.push(c);
            esc = false;
        } else if c == '\\' {
            esc = true;
        } else if c == ':' {
            let ghost before = views(parts@);
            let done = cur;
            parts.push(done);
            assert(views(parts@) =~= before.push(done@));
            cur = Vec::new();
        } else {
            cur.push(c);
        }
        i += 1;
    }
    assert(v@.take(v.len() as int) =~= v@);
    let ghost before = views(parts@);
    let last = cur;
    parts.push(last);
    assert(views(parts@) =~= before.push(last@));
    parts
}

/// Unescaping of a `nmcli --terse` value: each backslash escape replaced by
/// the character it escapes; a lone trailing backslash is dropped.
pub open spec fn unescape_scan(s: Seq<char>) -> (Seq<char>, bool)
    decreases s.len(),
{
    if s.len() == 0 {
        (Seq::empty(), false)
    } else {
        let (out, esc) = unescape_scan(s.drop_last());
        let c = s.last();
        if esc {
            (out.push(c), false)
        } else if c == '\\' {
            (out, true)
        } else {
            (out.push(c), false)
        }
    }
}

/// `s` with each backslash escape replaced by the character it escapes.
pub open spec fn unescape(s: Seq<char>) -> Seq<char> {
    unescape_scan(s).0
}

/// `v` with its backslash escapes resolved.
pub fn unescaped(v: &Vec<char>) -> (r: Vec<char>)
    ensures
        r@ == unescape(v@),
{
    let mut out: Vec<char> = Vec::new();
    let mut esc = false;
    let mut i: usize = 0;
    while i < v.len()
        invariant
            i <= v.len(),
            (out@, esc) == unescape_scan(v@.take(i as int)),
        decreases v.len() - i,
    {
        let c = v[i];
        assert(v@.take(i + 1).drop_last() =~= v@.take(i as int));
        if esc {
            out.push(c);
            esc = false;
        } else if c == '\\' {
            esc = true;
        } else {
            out.push(c);
        }
        i += 1;
    }
    assert(v@.take(v.len() as int) =~= v@);
    out
}

// ---------------------------------------------------------------------------
// Decimal integers
// ---------------------------------------------------------------------------

/// An ASCII decimal digit.
pub open spec fn is_digit(c: char) -> bool {
    '0' <= c <= '9'
}

/// The value of a decimal digit.
pub open spec fn digit_value(c: char) -> int {
    (c as u32) - 48
}

/// Every character of `d` is a decimal digit.
pub open spec fn all_digits(d: Seq<char>) -> bool {
    forall|i: int| 0 <= i < d.len() ==> is_digit(#[trigger] d[i])
}

/// The number written by the decimal digits `d`.
pub open spec fn digits_value(d: Seq<char>) -> int
    decreases d.len(),
{
    if d.len() == 0 {
        0
    } else {
        digits_value(d.drop_last()) * 10 + digit_value(d.last())
    }
}

/// What `<int>::from_str` gives for an integer type whose range is
/// `lo..=hi`: an optional `'+'` (or `'-'` where `lo < 0`), then one or more
/// ASCII digits, and a value inside the range.
pub open spec fn parse_int(s: Seq<char>, lo: int, hi: int) -> Option<int> {
    if s.len() == 0 {
        None
    } else {
        let neg = s[0] == '-' && lo < 0;
        let d = if s[0] == '+' || neg {
            s.drop_first()
        } else {
            s
        };
        if d.len() == 0 || !all_digits(d) {
            None
        } else {
            let v = if neg {
                -digits_value(d)
            } else {
                digits_value(d)
            };
            if lo <= v <= hi {
                Some(v)
            } else {
                None
            }
        }
    }
}

/// Digits never write a negative number.
pub proof fn lemma_digits_value_nonneg(d: Seq<char>)
    requires
        all_digits(d),
    ensures
        digits_value(d) >= 0,
    decreases d.len(),
{
    if d.len() > 0 {
        lemma_digits_value_nonneg(d.drop_last());
    }
}

/// Leading digits write a number no larger than all of them.
pub proof fn lemma_digits_value_prefix(d: Seq<char>, k: int)
    requires
        all_digits(d),
        0 <= k <= d.len(),
    ensures
        digits_value(d.take(k)) <= digits_value(d),
    decreases d.len(),
{
    if k < d.len() {
        assert(d.drop_last().take(k) =~= d.take(k));
        lemma_digits_value_prefix(d.drop_last(), k);
        lemma_digits_value_nonneg(d.drop_last());
    } else {
        assert(d.take(k) =~= d);
    }
}

/// Decimal integer reading for a range `lo..=hi` that holds 0 and lies
/// inside `-2^64..=2^64`.
pub fn parse_int_in(v: &Vec<char>, lo: i128, hi: i128) -> (r: Option<i128>)
    requires
        -0x1_0000_0000_0000_0000 <= lo <= 0 <= hi <= 0x1_0000_0000_0000_0000,
    ensures
        r matches Some(x) ==> parse_int(v@, lo as int, hi as int) == Some(x as int),
        r is None ==> parse_int(v@, lo as int, hi as int) is None,
{
    if v.len() == 0 {
        return None;
    }
    let neg = v[0] == '-' && lo < 0;
    let start: usize = if v[0] == '+' || neg {
        1
    } else {
        0
    };
    let ghost d = if v@[0] == '+' || neg {
        v@.drop_first()
    } else {
        v@
    };
    assert(d =~= v@.subrange(start as int, v.len() as int));
    if start == v.len() {
        return None;
    }
    let bound: u128 = if neg {
        (0 - lo) as u128
    } else {
        hi as u128
    };
    let mut mag: u128 = 0;
    let mut i: usize = start;
    while i < v.len()
        invariant
            start <= i <= v.len(),
            d == v@.subrange(start as int, v.len() as int),
            all_digits(d.take(i - start)),
            mag == digits_value(d.take(i - start)),
            mag <= bound,
            bound <= 0x1_0000_0000_0000_0000,
            v.len() > 0,
            -0x1_0000_0000_0000_0000 <= lo <= 0 <= hi <= 0x1_0000_0000_0000_0000,
            neg == (v@[0] == '-' && lo < 0),
            d == (if v@[0] == '+' || neg {
                v@.drop_first()
            } else {
                v@
            }),
            bound == (if neg {
                -lo
            } else {
                hi as int
            }),
        decreases v.len() - i,
    {
        let c = v[i];
        let ghost k = i - start;
        assert(d[k] == c);
        assert(d.take(k + 1).drop_last() =~= d.take(k));
        if !('0' <= c && c <= '9') {
            assert(!is_digit(d[k]));
            assert(!all_digits(d));
            assert(parse_int(v@, lo as int, hi as int) is None);
            return None;
        }
        let dv = (c as u32 - 48) as u128;
        mag = mag * 10 + dv;
        assert(d.take(k + 1).last() == c);
        assert(mag == digits_value(d.take(k + 1)));
        assert(all_digits(d.take(k + 1))) by {
            assert forall|j: int| 0 <= j < k + 1 implies is_digit(#[trigger] d.take(k + 1)[j]) by {
                if j < k {
                    assert(d.take(k + 1)[j] == d.take(k)[j]);
                }
            }
        }
        i += 1;
        if mag > bound {
            proof {
                if all_digits(d) {
                    lemma_digits_value_prefix(d, k + 1);
                    assert(digits_value(d) > bound);
                }
            }
            assert(parse_int(v@, lo as int, hi as int) is None);
            return None;
        }
    }
    assert(d.take(d.len() as int) =~= d);
    if neg {
        Some(0 - (mag as i128))
    } else {
        Some(mag as i128)
    }
}

/// `i32::from_str`.
pub open spec fn parse_i32(s: Seq<char>) -> Option<i32> {
    match parse_int(s, i32::MIN as int, i32::MAX as int) {
        Some(x) => Some(x as i32),
        None => None,
    }
}

/// `i64::from_str`.
pub open spec fn parse_i64(s: Seq<char>) -> Option<i64> {
    match parse_int(s, i64::MIN as int, i64::MAX as int) {
        Some(x) => Some(x as i64),
        None => None,
    }
}

/// `u64::from_str`.
pub open spec fn parse_u64(s: Seq<char>) -> Option<u64> {
    match parse_int(s, 0, u64::MAX as int) {
        Some(x) => Some(x as u64),
        None => None,
    }
}

/// `u8::from_str`.
pub open spec fn parse_u8(s: Seq<char>) -> Option<u8> {
    match parse_int(s, 0, u8::MAX as int) {
        Some(x) => Some(x as u8),
        None => None,
    }
}

/// `v` read as an `i32`.
pub fn read_i32(v: &Vec<char>) -> (r: Option<i32>)
    ensures
        r == parse_i32(v@),
{
    match parse_int_in(v, i32::MIN as i128, i32::MAX as i128) {
        Some(x) => Some(x as i32),
        None => None,
    }
}

/// `v` read as an `i64`.
pub fn read_i64(v: &Vec<char>) -> (r: Option<i64>)
    ensures
        r == parse_i64(v@),
{
    match parse_int_in(v, i64::MIN as i128, i64::MAX as i128) {
        Some(x) => Some(x as i64),
        None => None,
    }
}

/// `v` read as a `u64`.
pub fn read_u64(v: &Vec<char>) -> (r: Option<u64>)
    ensures
        r == parse_u64(v@),
{
    match parse_int_in(v, 0, u64::MAX as i128) {
        Some(x) => Some(x as u64),
        None => None,
    }
}

/// `v` read as a `u8`.
pub fn read_u8(v: &Vec<char>) -> (r: Option<u8>)
    ensures
        r == parse_u8(v@),
{
    match parse_int_in(v, 0, u8::MAX as i128) {
        Some(x) => Some(x as u8),
        None => None,
    }
}

} // verus!
