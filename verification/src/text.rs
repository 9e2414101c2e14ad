//! Character-sequence operations used by the source transformations: trimming, searching,
//! splitting into words, and conversion to and from strings.
use vstd::prelude::*;

verus! {

broadcast use vstd::seq_lib::group_seq_properties;

/// The characters with the Unicode `White_Space` property, which `char::is_whitespace` accepts.
pub open spec fn is_ws(c: char) -> bool {
    ||| c == '\t' || c == '\n' || c == '\u{0B}' || c == '\u{0C}' || c == '\r' || c == ' '
    ||| c == '\u{85}' || c == '\u{A0}' || c == '\u{1680}'
    ||| ('\u{2000}' <= c && c <= '\u{200A}')
    ||| c == '\u{2028}' || c == '\u{2029}' || c == '\u{202F}' || c == '\u{205F}' || c == '\u{3000}'
}

/// A space or a tab.
pub open spec fn is_blank(c: char) -> bool {
    c == ' ' || c == '\t'
}

pub fn char_is_ws(c: char) -> (r: bool)
    ensures
        r == is_ws(c),
{
    c == '\t' || c == '\n' || c == '\u{0B}' || c == '\u{0C}' || c == '\r' || c == ' ' || c
        == '\u{85}' || c == '\u{A0}' || c == '\u{1680}' || ('\u{2000}' <= c && c <= '\u{200A}')
        || c == '\u{2028}' || c == '\u{2029}' || c == '\u{202F}' || c == '\u{205F}' || c
        == '\u{3000}'
}

/// An ASCII letter.
pub open spec fn is_ascii_alpha(c: char) -> bool {
    ('a' <= c && c <= 'z') || ('A' <= c && c <= 'Z')
}

/// An ASCII letter or digit.
pub open spec fn is_ascii_alnum(c: char) -> bool {
    is_ascii_alpha(c) || ('0' <= c && c <= '9')
}

/// Index of the first character at or after `i` that is not whitespace (or the length).
pub open spec fn ws_skip_from(s: Seq<char>, i: int) -> int
    decreases s.len() - i,
{
    if 0 <= i < s.len() && is_ws(s[i]) {
        ws_skip_from(s, i + 1)
    } else {
        i
    }
}

/// Index just after the last character before `j` that is not whitespace (or 0).
pub open spec fn ws_back_from(s: Seq<char>, j: int) -> int
    decreases j,
{
    if 0 < j <= s.len() && is_ws(s[j - 1]) {
        ws_back_from(s, j - 1)
    } else {
        j
    }
}

/// Index just after the last character before `j` that is not a space or tab (or 0).
pub open spec fn blank_back_from(s: Seq<char>, j: int) -> int
    decreases j,
{
    if 0 < j <= s.len() && is_blank(s[j - 1]) {
        blank_back_from(s, j - 1)
    } else {
        j
    }
}

/// `s` without leading whitespace (`str::trim_start`).
pub open spec fn trim_start(s: Seq<char>) -> Seq<char> {
    s.skip(ws_skip_from(s, 0))
}

/// `s` without trailing whitespace (`str::trim_end`).
pub open spec fn trim_end(s: Seq<char>) -> Seq<char> {
    s.take(ws_back_from(s, s.len() as int))
}

/// `s` without leading and trailing whitespace (`str::trim`).
pub open spec fn trim(s: Seq<char>) -> Seq<char> {
    trim_end(trim_start(s))
}

/// `s` without trailing spaces and tabs.
pub open spec fn strip_blank_end(s: Seq<char>) -> Seq<char> {
    s.take(blank_back_from(s, s.len() as int))
}

/// Whether `s` begins with `p`.
pub open spec fn starts_with(s: Seq<char>, p: Seq<char>) -> bool {
    p.len() <= s.len() && s.take(p.len() as int) == p
}

/// Whether `s` ends with `p`.
pub open spec fn ends_with(s: Seq<char>, p: Seq<char>) -> bool {
    p.len() <= s.len() && s.skip(s.len() - p.len()) == p
}

/// Whether `p` occurs in `s` at position `i`.
pub open spec fn occurs_at(s: Seq<char>, p: Seq<char>, i: int) -> bool {
    0 <= i && i + p.len() <= s.len() && s.subrange(i, i + p.len()) == p
}

/// The first position at or after `i` where `p` occurs in `s`.
pub open spec fn find_from(s: Seq<char>, p: Seq<char>, i: int) -> Option<int>
    decreases s.len() + 1 - i,
{
    if i < 0 || i + p.len() > s.len() {
        None
    } else if occurs_at(s, p, i) {
        Some(i)
    } else {
        find_from(s, p, i + 1)
    }
}

/// The first position where `p` occurs in `s` (`str::find`).
pub open spec fn find(s: Seq<char>, p: Seq<char>) -> Option<int> {
    find_from(s, p, 0)
}

/// Whether `p` occurs in `s`.
pub open spec fn contains(s: Seq<char>, p: Seq<char>) -> bool {
    find(s, p) is Some
}

/// The last position at or before `i` where `p` occurs in `s`.
pub open spec fn rfind_from(s: Seq<char>, p: Seq<char>, i: int) -> Option<int>
    decreases i + 1,
{
    if i < 0 {
        None
    } else if occurs_at(s, p, i) {
        Some(i)
    } else {
        rfind_from(s, p, i - 1)
    }
}

/// The last position where `p` occurs in `s` (`str::rfind`).
pub open spec fn rfind(s: Seq<char>, p: Seq<char>) -> Option<int> {
    rfind_from(s, p, s.len() - p.len())
}

/// The words of `s` from position `i` on, `cur` being the part of a word already read
/// (`str::split_whitespace`).
pub open spec fn words_from(s: Seq<char>, i: int, cur: Seq<char>) -> Seq<Seq<char>>
    decreases s.len() - i,
{
    if i < 0 || i >= s.len() {
        if cur.len() > 0 {
            seq![cur]
        } else {
            seq![]
        }
    } else if is_ws(s[i]) {
        (if cur.len() > 0 {
            seq![cur]
        } else {
            seq![]
        }) + words_from(s, i + 1, seq![])
    } else {
        words_from(s, i + 1, cur.push(s[i]))
    }
}

/// The whitespace-separated words of `s`.
pub open spec fn words(s: Seq<char>) -> Seq<Seq<char>> {
    words_from(s, 0, seq![])
}

/// The words joined with single spaces.
pub open spec fn join_spaces(w: Seq<Seq<char>>) -> Seq<char>
    decreases w.len(),
{
    if w.len() == 0 {
        seq![]
    } else if w.len() == 1 {
        w[0]
    } else {
        join_spaces(w.drop_last()) + seq![' '] + w.last()
    }
}

/// `n` spaces.
pub open spec fn spaces(n: nat) -> Seq<char> {
    Seq::new(n, |i: int| ' ')
}

pub proof fn lemma_trim_len(s: Seq<char>)
    ensures
        trim_start(s).len() <= s.len(),
        trim_end(s).len() <= s.len(),
        trim(s).len() <= s.len(),
        0 <= ws_skip_from(s, 0) <= s.len(),
        0 <= ws_back_from(s, s.len() as int) <= s.len(),
{
    lemma_ws_skip_bound(s, 0);
    lemma_ws_back_bound(s, s.len() as int);
    lemma_ws_skip_bound(trim_start(s), 0);
    lemma_ws_back_bound(trim_start(s), trim_start(s).len() as int);
}

pub proof fn lemma_ws_skip_bound(s: Seq<char>, i: int)
    requires
        0 <= i <= s.len(),
    ensures
        i <= ws_skip_from(s, i) <= s.len(),
    decreases s.len() - i,
{
    if i < s.len() && is_ws(s[i]) {
        lemma_ws_skip_bound(s, i + 1);
    }
}

pub proof fn lemma_ws_back_bound(s: Seq<char>, j: int)
    requires
        0 <= j <= s.len(),
    ensures
        0 <= ws_back_from(s, j) <= j,
    decreases j,
{
    if j > 0 && is_ws(s[j - 1]) {
        lemma_ws_back_bound(s, j - 1);
    }
}

pub proof fn lemma_find_from(s: Seq<char>, p: Seq<char>, i: int)
    ensures
        find_from(s, p, i) matches Some(k) ==> occurs_at(s, p, k) && i <= k,
    decreases s.len() + 1 - i,
{
    if !(i < 0 || i + p.len() > s.len()) && !occurs_at(s, p, i) {
        lemma_find_from(s, p, i + 1);
    }
}

pub proof fn lemma_rfind_from(s: Seq<char>, p: Seq<char>, i: int)
    ensures
        rfind_from(s, p, i) matches Some(k) ==> occurs_at(s, p, k) && k <= i,
    decreases i + 1,
{
    if i >= 0 && !occurs_at(s, p, i) {
        lemma_rfind_from(s, p, i - 1);
    }
}

/// The characters of a string slice.
pub fn chars_of(s: &str) -> (r: Vec<char>)
    ensures
        r@ == s@,
{
    let mut r: Vec<char> = Vec::new();
    for c in it: s.chars()
        invariant
            r@ == it.seq().take(it.index()),
    {
        let ghost before = r@;
        r.push(c);
        assert(r@ =~= it.seq().take(it.index() + 1));
    }
    assert(r@ =~= s@);
    r
}

#[verifier::external_body]
pub(crate) fn push_char(s: &mut String, c: char)
    ensures
        final(s)@ == old(s)@.push(c),
{
    s.push(c);
}

/// A string holding the characters.
pub fn string_of(v: &Vec<char>) -> (r: String)
    ensures
        r@ == v@,
{
    let mut r = String::new();
    let mut i: usize = 0;
    while i < v.len()
        invariant
            i <= v.len(),
            r@ == v@.take(i as int),
        decreases v.len() - i,
    {
        push_char(&mut r, v[i]);
        assert(r@ =~= v@.take(i + 1));
        i = i + 1;
    }
    assert(v@.take(i as int) =~= v@);
    r
}

/// The characters `s[a..b]`.
pub fn slice_of(s: &Vec<char>, a: usize, b: usize) -> (r: Vec<char>)
    requires
        a <= b <= s.len(),
    ensures
        r@ == s@.subrange(a as int, b as int),
{
    let mut r: Vec<char> = Vec::new();
    let mut i: usize = a;
    while i < b
        invariant
            a <= i <= b,
            b <= s.len(),
            r@ == s@.subrange(a as int, i as int),
        decreases b - i,
    {
        r.push(s[i]);
        assert(r@ =~= s@.subrange(a as int, i + 1));
        i = i + 1;
    }
    r
}

/// Appends the characters of `t` to `out`.
pub fn push_all(out: &mut Vec<char>, t: &Vec<char>)
    ensures
        final(out)@ == old(out)@ + t@,
{
    let mut i: usize = 0;
    while i < t.len()
        invariant
            i <= t.len(),
            out@ == old(out)@ + t@.take(i as int),
        decreases t.len() - i,
    {
        out.push(t[i]);
        assert(out@ =~= old(out)@ + t@.take(i + 1));
        i = i + 1;
    }
    assert(t@.take(i as int) =~= t@);
}

/// Appends the characters of `t` to `out`.
pub fn push_str(out: &mut Vec<char>, t: &str)
    ensures
        final(out)@ == old(out)@ + t@,
{
    let v = chars_of(t);
    push_all(out, &v);
}

/// Appends `n` spaces to `out`.
pub fn push_spaces(out: &mut Vec<char>, n: usize)
    ensures
        final(out)@ == old(out)@ + spaces(n as nat),
{
    let mut i: usize = 0;
    while i < n
        invariant
            i <= n,
            out@ == old(out)@ + spaces(i as nat),
        decreases n - i,
    {
        out.push(' ');
        assert(out@ =~= old(out)@ + spaces((i + 1) as nat));
        i = i + 1;
    }
}

/// Index of the first non-whitespace character.
pub fn ws_skip(s: &Vec<char>) -> (r: usize)
    ensures
        r == ws_skip_from(s@, 0),
        r <= s.len(),
{
    let mut i: usize = 0;
    while i < s.len() && char_is_ws(s[i])
        invariant
            i <= s.len(),
            ws_skip_from(s@, i as int) == ws_skip_from(s@, 0),
        decreases s.len() - i,
    {
        i = i + 1;
    }
    i
}

/// Index just after the last non-whitespace character.
pub fn ws_back(s: &Vec<char>) -> (r: usize)
    ensures
        r == ws_back_from(s@, s.len() as int),
        r <= s.len(),
{
    let mut j: usize = s.len();
    while j > 0 && char_is_ws(s[j - 1])
        invariant
            j <= s.len(),
            ws_back_from(s@, j as int) == ws_back_from(s@, s.len() as int),
        decreases j,
    {
        j = j - 1;
    }
    j
}

/// Index just after the last character that is not a space or tab.
pub fn blank_back(s: &Vec<char>) -> (r: usize)
    ensures
        r == blank_back_from(s@, s.len() as int),
        r <= s.len(),
{
    let mut j: usize = s.len();
    while j > 0 && (s[j - 1] == ' ' || s[j - 1] == '\t')
        invariant
            j <= s.len(),
            blank_back_from(s@, j as int) == blank_back_from(s@, s.len() as int),
        decreases j,
    {
        j = j - 1;
    }
    j
}

pub fn trim_start_of(s: &Vec<char>) -> (r: Vec<char>)
    ensures
        r@ == trim_start(s@),
        r@.len() <= s@.len(),
{
    proof {
        lemma_trim_len(s@);
    }
    let a = ws_skip(s);
    slice_of(s, a, s.len())
}

pub fn trim_end_of(s: &Vec<char>) -> (r: Vec<char>)
    ensures
        r@ == trim_end(s@),
        r@.len() <= s@.len(),
{
    proof {
        lemma_trim_len(s@);
    }
    let b = ws_back(s);
    slice_of(s, 0, b)
}

pub fn trim_of(s: &Vec<char>) -> (r: Vec<char>)
    ensures
        r@ == trim(s@),
        r@.len() <= s@.len(),
{
    let t = trim_start_of(s);
    trim_end_of(&t)
}

/// Splits off trailing spaces and tabs: the part before them, and them.
pub fn strip_trailing(s: &Vec<char>) -> (r: (Vec<char>, Vec<char>))
    ensures
        r.0@ == strip_blank_end(s@),
        r.0@ + r.1@ == s@,
{
    let b = blank_back(s);
    let core = slice_of(s, 0, b);
    let tail = slice_of(s, b, s.len());
    assert(core@ + tail@ =~= s@);
    (core, tail)
}

/// Whether `p` occurs in `s` at `i`.
pub fn occurs_at_exec(s: &Vec<char>, p: &Vec<char>, i: usize) -> (r: bool)
    ensures
        r == occurs_at(s@, p@, i as int),
{
    if i > s.len() || p.len() > s.len() - i {
        return false;
    }
    let mut k: usize = 0;
    while k < p.len()
        invariant
            k <= p.len(),
            i + p.len() <= s.len(),
            forall|m: int| 0 <= m < k ==> s@[i + m] == p@[m],
        decreases p.len() - k,
    {
        if s[i + k] != p[k] {
            assert(s@.subrange(i as int, i + p.len())[k as int] != p@[k as int]);
            return false;
        }
        k = k + 1;
    }
    assert(s@.subrange(i as int, i + p.len()) =~= p@);
    true
}

pub fn starts_with_exec(s: &Vec<char>, p: &Vec<char>) -> (r: bool)
    ensures
        r == starts_with(s@, p@),
{
    let r = occurs_at_exec(s, p, 0);
    proof {
        if p@.len() <= s@.len() {
            assert(s@.subrange(0, p@.len() as int) =~= s@.take(p@.len() as int));
        }
    }
    r
}

pub fn starts_with_str(s: &Vec<char>, p: &str) -> (r: bool)
    ensures
        r == starts_with(s@, p@),
{
    let pv = chars_of(p);
    starts_with_exec(s, &pv)
}

pub fn ends_with_exec(s: &Vec<char>, p: &Vec<char>) -> (r: bool)
    ensures
        r == ends_with(s@, p@),
{
    if p.len() > s.len() {
        return false;
    }
    let r = occurs_at_exec(s, p, s.len() - p.len());
    proof {
        assert(s@.subrange(s@.len() - p@.len(), s@.len() as int) =~= s@.skip(s@.len() - p@.len()));
    }
    r
}

pub fn ends_with_str(s: &Vec<char>, p: &str) -> (r: bool)
    ensures
        r == ends_with(s@, p@),
{
    let pv = chars_of(p);
    ends_with_exec(s, &pv)
}

pub fn find_exec(s: &Vec<char>, p: &Vec<char>) -> (r: Option<usize>)
    ensures
        match r {
            Some(i) => find(s@, p@) == Some(i as int) && occurs_at(s@, p@, i as int) && i + p@.len() <= s@.len(),
            None => find(s@, p@) is None,
        },
{
    if p.len() > s.len() {
        return None;
    }
    let last = s.len() - p.len();
    let mut i: usize = 0;
    loop
        invariant
            p.len() <= s.len(),
            last == s.len() - p.len(),
            i <= last,
            find_from(s@, p@, i as int) == find(s@, p@),
        decreases last - i,
    {
        if occurs_at_exec(s, p, i) {
            return Some(i);
        }
        if i == last {
            assert(find_from(s@, p@, i + 1) is None);
            return None;
        }
        i = i + 1;
    }
}

pub fn find_str(s: &Vec<char>, p: &str) -> (r: Option<usize>)
    ensures
        match r {
            Some(i) => find(s@, p@) == Some(i as int) && occurs_at(s@, p@, i as int) && i + p@.len() <= s@.len(),
            None => find(s@, p@) is None,
        },
{
    let pv = chars_of(p);
    find_exec(s, &pv)
}

pub fn contains_str(s: &Vec<char>, p: &str) -> (r: bool)
    ensures
        r == contains(s@, p@),
{
    find_str(s, p).is_some()
}

pub fn rfind_exec(s: &Vec<char>, p: &Vec<char>) -> (r: Option<usize>)
    ensures
        match r {
            Some(i) => rfind(s@, p@) == Some(i as int) && occurs_at(s@, p@, i as int) && i + p@.len() <= s@.len(),
            None => rfind(s@, p@) is None,
        },
{
    if p.len() > s.len() {
        proof {
            assert(rfind_from(s@, p@, s@.len() - p@.len()) is None);
        }
        return None;
    }
    let mut i: usize = s.len() - p.len();
    loop
        invariant
            i <= s.len() - p.len(),
            p.len() <= s.len(),
            rfind_from(s@, p@, i as int) == rfind(s@, p@),
        decreases i,
    {
        if occurs_at_exec(s, p, i) {
            return Some(i);
        }
        if i == 0 {
            assert(rfind_from(s@, p@, -1) is None);
            return None;
        }
        i = i - 1;
    }
}

/// The whitespace-separated words of `s` (`str::split_whitespace`).
pub fn words_of(s: &Vec<char>) -> (r: Vec<Vec<char>>)
    ensures
        r@.map_values(|w: Vec<char>| w@) == words(s@),
{
    let mut done: Vec<Vec<char>> = Vec::new();
    let mut cur: Vec<char> = Vec::new();
    let mut i: usize = 0;
    while i < s.len()
        invariant
            i <= s.len(),
            words(s@) == done@.map_values(|w: Vec<char>| w@) + words_from(s@, i as int, cur@),
        decreases s.len() - i,
    {
        let ghost before = done@.map_values(|w: Vec<char>| w@);
        if char_is_ws(s[i]) {
            if cur.len() > 0 {
                let ghost c = cur@;
                done.push(cur);
                assert(done@.map_values(|w: Vec<char>| w@) =~= before + seq![c]);
                cur = Vec::new();
                assert(seq![c] + words_from(s@, i + 1, seq![]) =~= (if c.len() > 0 {
                    seq![c]
                } else {
                    seq![]
                }) + words_from(s@, i + 1, seq![]));
            } else {
                assert(words_from(s@, i as int, cur@) =~= words_from(s@, i + 1, seq![]));
            }
            assert(cur@ =~= Seq::<char>::empty());
        } else {
            cur.push(s[i]);
        }
        i = i + 1;
    }
    if cur.len() > 0 {
        let ghost before = done@.map_values(|w: Vec<char>| w@);
        let ghost c = cur@;
        done.push(cur);
        assert(done@.map_values(|w: Vec<char>| w@) =~= before + seq![c]);
    } else {
        assert(done@.map_values(|w: Vec<char>| w@) + words_from(s@, i as int, cur@) =~= done@.map_values(|w: Vec<char>| w@));
    }
    done
}

/// Words joined with single spaces.
pub fn join_words(w: &Vec<Vec<char>>) -> (r: Vec<char>)
    ensures
        r@ == join_spaces(w@.map_values(|x: Vec<char>| x@)),
{
    let mut out: Vec<char> = Vec::new();
    let mut i: usize = 0;
    while i < w.len()
        invariant
            i <= w.len(),
            out@ == join_spaces(w@.map_values(|x: Vec<char>| x@).take(i as int)),
        decreases w.len() - i,
    {
        let ghost ws = w@.map_values(|x: Vec<char>| x@);
        if i > 0 {
            out.push(' ');
        }
        push_all(&mut out, &w[i]);
        proof {
            let t = ws.take(i + 1);
            assert(t.drop_last() =~= ws.take(i as int));
            assert(t.last() == w@[i as int]@);
            if i == 0 {
                assert(out@ =~= join_spaces(t));
            } else {
                assert(out@ =~= join_spaces(t));
            }
        }
        i = i + 1;
    }
    assert(w@.map_values(|x: Vec<char>| x@).take(i as int) =~= w@.map_values(|x: Vec<char>| x@));
    out
}

/// Whether `a` comes before `b` in the order of `String`: character by character, a proper
/// prefix first.
pub open spec fn text_before(a: Seq<char>, b: Seq<char>) -> bool
    decreases a.len(),
{
    if a.len() == 0 {
        b.len() > 0
    } else if b.len() == 0 {
        false
    } else if a[0] != b[0] {
        (a[0] as int) < (b[0] as int)
    } else {
        text_before(a.drop_first(), b.drop_first())
    }
}

/// Whether `a` comes before `b` in the order of `String`. That order compares the UTF-8 bytes,
/// which order as the characters they encode do.
pub fn text_less(a: &str, b: &str) -> (r: bool)
    ensures
        r == text_before(a@, b@),
{
    let x = chars_of(a);
    let y = chars_of(b);
    let mut i: usize = 0;
    assert(x@.skip(0) =~= x@);
    assert(y@.skip(0) =~= y@);
    while i < x.len() && i < y.len()
        invariant
            x@ == a@,
            y@ == b@,
            i <= x@.len(),
            i <= y@.len(),
            text_before(x@, y@) == text_before(x@.skip(i as int), y@.skip(i as int)),
        decreases x@.len() - i,
    {
        let c = x[i];
        let d = y[i];
        assert(x@.skip(i as int)[0] == c);
        assert(y@.skip(i as int)[0] == d);
        if c != d {
            return c < d;
        }
        assert(x@.skip(i as int).drop_first() =~= x@.skip(i + 1));
        assert(y@.skip(i as int).drop_first() =~= y@.skip(i + 1));
        i = i + 1;
    }
    i < y.len()
}


/// `text_before` is irreflexive.
pub proof fn lemma_text_before_irreflexive(a: Seq<char>)
    ensures
        !text_before(a, a),
    decreases a.len(),
{
    if a.len() > 0 {
        lemma_text_before_irreflexive(a.drop_first());
    }
}

/// `text_before` is transitive.
pub proof fn lemma_text_before_transitive(a: Seq<char>, b: Seq<char>, c: Seq<char>)
    requires
        text_before(a, b),
        text_before(b, c),
    ensures
        text_before(a, c),
    decreases a.len(),
{
    if a.len() > 0 && b.len() > 0 && c.len() > 0 && a[0] == b[0] && b[0] == c[0] {
        lemma_text_before_transitive(a.drop_first(), b.drop_first(), c.drop_first());
    }
}

/// Of two different texts, one comes before the other.
pub proof fn lemma_text_before_total(a: Seq<char>, b: Seq<char>)
    requires
        a != b,
    ensures
        text_before(a, b) || text_before(b, a),
    decreases a.len(),
{
    if a.len() > 0 && b.len() > 0 {
        if a[0] == b[0] {
            if a.drop_first() == b.drop_first() {
                assert(a =~= seq![a[0]] + a.drop_first());
                assert(b =~= seq![b[0]] + b.drop_first());
            }
            lemma_text_before_total(a.drop_first(), b.drop_first());
        }
    } else if a.len() == 0 && b.len() == 0 {
        assert(a =~= b);
    }
}

/// Whether each text comes before the next.
pub open spec fn strictly_sorted(s: Seq<Seq<char>>) -> bool {
    forall|i: int, j: int| 0 <= i < j < s.len() ==> text_before(#[trigger] s[i], #[trigger] s[j])
}

/// Adds `item` to texts kept in order, unless it is there.
pub fn insert_sorted(v: &mut Vec<String>, item: String)
    requires
        strictly_sorted(old(v)@.map_values(|s: String| s@)),
    ensures
        strictly_sorted(final(v)@.map_values(|s: String| s@)),
        final(v)@.map_values(|s: String| s@).to_set() == old(v)@.map_values(|s: String| s@).to_set().insert(item@),
{
    let ghost views = v@.map_values(|s: String| s@);
    let mut i: usize = 0;
    while i < v.len()
        invariant
            views == v@.map_values(|s: String| s@),
            strictly_sorted(views),
            i <= v@.len(),
            forall|j: int| 0 <= j < i ==> text_before(#[trigger] views[j], item@),
        ensures
            i <= v@.len(),
            forall|j: int| 0 <= j < i ==> text_before(#[trigger] views[j], item@),
            i < v@.len() ==> !text_before(views[i as int], item@),
        decreases v@.len() - i,
    {
        if !text_less(v[i].as_str(), item.as_str()) {
            break;
        }
        i = i + 1;
    }
    if i < v.len() && v[i] == item {
        proof {
            assert(views[i as int] == item@);
            assert(views.to_set() =~= views.to_set().insert(item@));
        }
        return;
    }
    proof {
        if i < views.len() {
            assert(views[i as int] != item@);
            lemma_text_before_total(views[i as int], item@);
        }
    }
    v.insert(i, item);
    proof {
        let nv = v@.map_values(|s: String| s@);
        assert(nv =~= views.insert(i as int, item@));
        assert forall|a: int, b: int| 0 <= a < b < nv.len() implies text_before(#[trigger] nv[a], #[trigger] nv[b]) by {
            if b < i {
                assert(nv[a] == views[a] && nv[b] == views[b]);
            } else if b == i {
                assert(nv[a] == views[a]);
            } else if a < i {
                assert(nv[a] == views[a] && nv[b] == views[b - 1]);
            } else if a == i {
                assert(nv[b] == views[b - 1]);
                if b - 1 > i {
                    assert(text_before(views[i as int], views[b - 1]));
                    lemma_text_before_transitive(item@, views[i as int], views[b - 1]);
                }
            } else {
                assert(nv[a] == views[a - 1] && nv[b] == views[b - 1]);
            }
        }
        assert forall|x: Seq<char>| #[trigger] nv.to_set().contains(x) == views.to_set().insert(item@).contains(x) by {
            if nv.to_set().contains(x) {
                let k = choose|k: int| 0 <= k < nv.len() && nv[k] == x;
                if k < i {
                    assert(views[k] == x);
                } else if k > i {
                    assert(views[k - 1] == x);
                }
            }
            if views.to_set().contains(x) {
                let k = choose|k: int| 0 <= k < views.len() && views[k] == x;
                if k < i {
                    assert(nv[k] == x);
                } else {
                    assert(nv[k + 1] == x);
                }
            }
            if x == item@ {
                assert(nv[i as int] == x);
            }
        }
        assert(nv.to_set() =~= views.to_set().insert(item@));
    }
}

} // verus!
