//! Desugaring of indentation-based blocks into braces.
//!
//! A line that ends in a block colon (`if x:`), a `=> do`, a struct-like declaration
//! (`Point :: struct`) or a struct literal head (`p := Point:`) opens a block; the block holds
//! the following lines that are indented deeper, and is closed with `}` at the opening line's
//! indentation as soon as a line comes back to it. Inline forms such as `if c: ret 1 else: ret 2`
//! are rewritten to braces on the same line.
use vstd::prelude::*;

use crate::text::{
    blank_back_from, chars_of, contains, contains_str, ends_with, ends_with_exec, ends_with_str,
    find, find_exec, find_from, is_ascii_alnum, is_ascii_alpha, is_blank, is_ws, join_spaces,
    join_words, occurs_at, occurs_at_exec, push_all, push_spaces, push_str, rfind, rfind_exec,
    slice_of, spaces, starts_with, starts_with_exec, starts_with_str, string_of, strip_blank_end, strip_trailing,
    trim, trim_end, trim_end_of, trim_of, trim_start, trim_start_of, words, words_of,
    ws_back_from, ws_skip_from, lemma_trim_len,
};

verus! {

broadcast use vstd::seq_lib::group_seq_properties;

// ---------------------------------------------------------------------------------------------
// Indentation of a line
// ---------------------------------------------------------------------------------------------

/// Index of the first character at or after `i` that is not a space or tab.
pub open spec fn indent_end_from(s: Seq<char>, i: int) -> int
    decreases s.len() - i,
{
    if 0 <= i < s.len() && is_blank(s[i]) {
        indent_end_from(s, i + 1)
    } else {
        i
    }
}

/// Width of the leading spaces and tabs from `i` on: a space counts 1, a tab 4.
pub open spec fn indent_width_from(s: Seq<char>, i: int) -> nat
    decreases s.len() - i,
{
    if 0 <= i < s.len() && is_blank(s[i]) {
        (if s[i] == ' ' {
            1nat
        } else {
            4nat
        }) + indent_width_from(s, i + 1)
    } else {
        0
    }
}

/// The indentation width of a line and the line without its indentation.
pub open spec fn line_indent_spec(s: Seq<char>) -> (nat, Seq<char>) {
    (indent_width_from(s, 0), s.skip(indent_end_from(s, 0)))
}

proof fn lemma_indent_width_bound(s: Seq<char>, i: int)
    requires
        0 <= i <= s.len(),
    ensures
        indent_width_from(s, i) <= 4 * (s.len() - i),
    decreases s.len() - i,
{
    if i < s.len() && is_blank(s[i]) {
        lemma_indent_width_bound(s, i + 1);
    }
}

/// The indentation width of a line and the rest of the line.
fn line_indent(line: &Vec<char>) -> (r: (usize, Vec<char>))
    requires
        line.len() <= usize::MAX / 4,
    ensures
        r.0 == line_indent_spec(line@).0,
        r.1@ == line_indent_spec(line@).1,
{
    let mut count: usize = 0;
    let mut i: usize = 0;
    proof {
        lemma_indent_width_bound(line@, 0);
    }
    while i < line.len() && (line[i] == ' ' || line[i] == '\t')
        invariant
            i <= line.len(),
            line.len() <= usize::MAX / 4,
            count + indent_width_from(line@, i as int) == indent_width_from(line@, 0),
            indent_end_from(line@, i as int) == indent_end_from(line@, 0),
            indent_width_from(line@, 0) <= 4 * line.len(),
        decreases line.len() - i,
    {
        if line[i] == ' ' {
            count = count + 1;
        } else {
            count = count + 4;
        }
        i = i + 1;
    }
    (count, slice_of(line, i, line.len()))
}

// ---------------------------------------------------------------------------------------------
// The block colon
// ---------------------------------------------------------------------------------------------

/// The position of the colon that opens a block, scanning from `i` with the given depths of
/// `<>`, `()` and `{}` nesting. A colon counts when no bracket is open, or when only angle
/// brackets are open and no `>` follows it; it does not count as part of `::` or `:=`.
pub open spec fn colon_from(s: Seq<char>, i: int, angle: nat, paren: nat, brace: nat) -> Option<int>
    decreases s.len() - i,
{
    if i < 0 || i >= s.len() {
        None
    } else {
        let c = s[i];
        if c == '<' {
            colon_from(s, i + 1, angle + 1, paren, brace)
        } else if c == '>' {
            colon_from(s, i + 1, if angle > 0 { (angle - 1) as nat } else { 0 }, paren, brace)
        } else if c == '(' {
            colon_from(s, i + 1, angle, paren + 1, brace)
        } else if c == ')' {
            colon_from(s, i + 1, angle, if paren > 0 { (paren - 1) as nat } else { 0 }, brace)
        } else if c == '{' {
            colon_from(s, i + 1, angle, paren, brace + 1)
        } else if c == '}' {
            colon_from(s, i + 1, angle, paren, if brace > 0 { (brace - 1) as nat } else { 0 })
        } else if c == ':' {
            let after = s.skip(i + 1);
            let ready = (angle == 0 && paren == 0 && brace == 0) || (angle > 0 && paren == 0
                && brace == 0 && !contains(after, ">"@));
            if !ready {
                colon_from(s, i + 1, angle, paren, brace)
            } else if i > 0 && s[i - 1] == ':' {
                colon_from(s, i + 1, angle, paren, brace)
            } else if after.len() > 0 && (after[0] == ':' || after[0] == '=') {
                colon_from(s, i + 1, angle, paren, brace)
            } else {
                Some(i)
            }
        } else {
            colon_from(s, i + 1, angle, paren, brace)
        }
    }
}

proof fn lemma_colon_from(s: Seq<char>, i: int, angle: nat, paren: nat, brace: nat)
    ensures
        colon_from(s, i, angle, paren, brace) matches Some(k) ==> i <= k < s.len(),
    decreases s.len() - i,
{
    if 0 <= i < s.len() {
        let c = s[i];
        lemma_colon_from(s, i + 1, angle + 1, paren, brace);
        lemma_colon_from(s, i + 1, if angle > 0 { (angle - 1) as nat } else { 0 }, paren, brace);
        lemma_colon_from(s, i + 1, angle, paren + 1, brace);
        lemma_colon_from(s, i + 1, angle, if paren > 0 { (paren - 1) as nat } else { 0 }, brace);
        lemma_colon_from(s, i + 1, angle, paren, brace + 1);
        lemma_colon_from(s, i + 1, angle, paren, if brace > 0 { (brace - 1) as nat } else { 0 });
        lemma_colon_from(s, i + 1, angle, paren, brace);
    }
}

/// The position of the block colon in `s`, if any.
pub open spec fn block_colon(s: Seq<char>) -> Option<int> {
    colon_from(s, 0, 0, 0, 0)
}

/// The text before and after the block colon of `candidate`.
fn split_block_colon(candidate: &Vec<char>) -> (r: Option<(Vec<char>, Vec<char>)>)
    ensures
        match r {
            Some((before, after)) => block_colon(candidate@) is Some && 0 <= block_colon(candidate@)->0 < candidate@.len() && before@ == candidate@.take(
                block_colon(candidate@)->0,
            ) && after@ == candidate@.skip(block_colon(candidate@)->0 + 1),
            None => block_colon(candidate@) is None,
        },
{
    proof {
        lemma_colon_from(candidate@, 0, 0, 0, 0);
    }
    let mut angle: usize = 0;
    let mut paren: usize = 0;
    let mut brace: usize = 0;
    let mut idx: usize = 0;
    let n = candidate.len();
    while idx < n
        invariant
            idx <= n,
            n == candidate.len(),
            angle <= idx,
            paren <= idx,
            brace <= idx,
            colon_from(candidate@, idx as int, angle as nat, paren as nat, brace as nat)
                == block_colon(candidate@),
        decreases n - idx,
    {
        let c = candidate[idx];
        if c == '<' {
            angle = angle + 1;
        } else if c == '>' {
            if angle > 0 {
                angle = angle - 1;
            }
        } else if c == '(' {
            paren = paren + 1;
        } else if c == ')' {
            if paren > 0 {
                paren = paren - 1;
            }
        } else if c == '{' {
            brace = brace + 1;
        } else if c == '}' {
            if brace > 0 {
                brace = brace - 1;
            }
        } else if c == ':' {
            let after = slice_of(candidate, idx + 1, n);
            let ready = (angle == 0 && paren == 0 && brace == 0) || (angle > 0 && paren == 0
                && brace == 0 && !contains_str(&after, ">"));
            if ready && !(idx > 0 && candidate[idx - 1] == ':') && !(after.len() > 0 && (after[0]
                == ':' || after[0] == '=')) {
                let before = slice_of(candidate, 0, idx);
                return Some((before, after));
            }
        }
        idx = idx + 1;
    }
    None
}

// ---------------------------------------------------------------------------------------------
// Keywords
// ---------------------------------------------------------------------------------------------

/// Keywords whose line may open a block with a colon.
pub open spec fn is_block_keyword(w: Seq<char>) -> bool {
    w == "if"@ || w == "else"@ || w == "for"@ || w == "loop"@ || w == "while"@ || w == "unsafe"@
        || w == "match"@ || w == "impl"@
}

/// Whether the head before a colon starts a block: it begins with a block keyword, `impl<`,
/// `mod`, `pub mod`, `pub impl` or `} else`, or contains the word `match`.
pub open spec fn keyword_allows_block(head: Seq<char>) -> bool {
    let w = words(trim_start(head));
    ||| w.len() > 0 && (is_block_keyword(w[0]) || starts_with(w[0], "impl<"@) || w[0] == "mod"@)
    ||| w.len() > 1 && w[0] == "pub"@ && (w[1] == "mod"@ || w[1] == "impl"@)
    ||| w.len() > 1 && w[0] == "}"@ && w[1] == "else"@
    ||| w.contains("match"@)
}

fn vec_eq_str(v: &Vec<char>, s: &str) -> (r: bool)
    ensures
        r == (v@ == s@),
{
    let t = chars_of(s);
    if v.len() != t.len() {
        return false;
    }
    let r = occurs_at_exec(v, &t, 0);
    proof {
        if r {
            assert(v@.subrange(0, t@.len() as int) =~= v@);
        } else {
            if v@ == s@ {
                assert(v@.subrange(0, t@.len() as int) =~= v@);
            }
        }
    }
    r
}

#[verifier::loop_isolation(false)]
fn leading_keyword_allows_block(head: &Vec<char>) -> (r: bool)
    ensures
        r == keyword_allows_block(head@),
{
    let trimmed = trim_start_of(head);
    let w = words_of(&trimmed);
    let ghost wv = w@.map_values(|x: Vec<char>| x@);
    assert(wv == words(trim_start(head@)));
    if w.len() > 0 {
        let first = &w[0];
        assert(first@ == wv[0]);
        if vec_eq_str(first, "if") || vec_eq_str(first, "else") || vec_eq_str(first, "for")
            || vec_eq_str(first, "loop") || vec_eq_str(first, "while") || vec_eq_str(first, "unsafe")
            || vec_eq_str(first, "match") || vec_eq_str(first, "impl") || starts_with_str(first, "impl<")
            || vec_eq_str(first, "mod") {
            return true;
        }
        if w.len() > 1 {
            assert(w[1]@ == wv[1]);
            if vec_eq_str(first, "pub") && (vec_eq_str(&w[1], "mod") || vec_eq_str(&w[1], "impl")) {
                return true;
            }
            if vec_eq_str(first, "}") && vec_eq_str(&w[1], "else") {
                return true;
            }
        }
    }
    let mut i: usize = 0;
    while i < w.len()
        invariant
            i <= w.len(),
            wv == w@.map_values(|x: Vec<char>| x@),
            forall|j: int| 0 <= j < i ==> wv[j] != "match"@,
        decreases w.len() - i,
    {
        if vec_eq_str(&w[i], "match") {
            assert(wv[i as int] == "match"@);
            return true;
        }
        i = i + 1;
    }
    false
}

/// Keywords after `=` or `:=` that make a line an expression rather than a struct literal.
pub open spec fn is_expression_keyword(w: Seq<char>) -> bool {
    w == "match"@ || w == "if"@ || w == "for"@ || w == "while"@ || w == "loop"@ || w == "unsafe"@
        || w == "do"@
}

/// Characters allowed after the first in a struct literal head.
pub open spec fn head_char_ok(c: char) -> bool {
    is_ascii_alnum(c) || c == '_' || c == ':' || c == '<' || c == '>' || c == ',' || c == ' ' || c
        == '[' || c == ']' || c == '.' || c == ';' || c == '\'' || c == '&' || c == '*' || c == '?'
        || c == '='
}

fn char_head_ok(c: char) -> (r: bool)
    ensures
        r == head_char_ok(c),
{
    ('a' <= c && c <= 'z') || ('A' <= c && c <= 'Z') || ('0' <= c && c <= '9') || c == '_' || c
        == ':' || c == '<' || c == '>' || c == ',' || c == ' ' || c == '[' || c == ']' || c == '.'
        || c == ';' || c == '\'' || c == '&' || c == '*' || c == '?' || c == '='
}

/// The right-hand side of the first `:=`, or else of the first `=`, with leading whitespace
/// removed.
pub open spec fn assignment_rhs(t: Seq<char>) -> Option<Seq<char>> {
    if find(t, ":="@) is Some {
        Some(trim_start(t.skip(find(t, ":="@)->0 + ":="@.len())))
    } else if find(t, "="@) is Some {
        Some(trim_start(t.skip(find(t, "="@)->0 + "="@.len())))
    } else {
        None
    }
}

/// Whether a line head looks like `name := Type` (or `name = Type`), so that a colon after it
/// opens a struct literal.
pub open spec fn struct_literal_head(head: Seq<char>) -> bool {
    let t = trim(head);
    if t.len() == 0 || contains(t, "=>"@) {
        false
    } else {
        match assignment_rhs(t) {
            None => false,
            Some(rhs) => {
                let w = words(rhs);
                if w.len() > 0 && is_expression_keyword(w[0]) {
                    false
                } else {
                    (is_ascii_alpha(t[0]) || t[0] == '_') && forall|k: int|
                        1 <= k < t.len() ==> head_char_ok(#[trigger] t[k])
                }
            },
        }
    }
}

fn skip_from(s: &Vec<char>, k: usize) -> (r: Vec<char>)
    requires
        k <= s.len(),
    ensures
        r@ == s@.skip(k as int),
{
    slice_of(s, k, s.len())
}

#[verifier::loop_isolation(false)]
fn looks_like_struct_literal_head(head: &Vec<char>) -> (r: bool)
    ensures
        r == struct_literal_head(head@),
{
    let trimmed = trim_of(head);
    if trimmed.len() == 0 {
        return false;
    }
    if contains_str(&trimmed, "=>") {
        return false;
    }
    let assign = chars_of(":=");
    let eq = chars_of("=");
    let after_assign = match find_exec(&trimmed, &assign) {
        Some(i) => {
            proof {
                assert(occurs_at(trimmed@, assign@, i as int));
            }
            trim_start_of(&skip_from(&trimmed, i + assign.len()))
        },
        None => match find_exec(&trimmed, &eq) {
            Some(i) => {
                proof {
                    assert(occurs_at(trimmed@, eq@, i as int));
                }
                trim_start_of(&skip_from(&trimmed, i + eq.len()))
            },
            None => {
                return false;
            },
        },
    };
    assert(assignment_rhs(trimmed@) == Some(after_assign@));
    let w = words_of(&after_assign);
    if w.len() > 0 {
        let k = &w[0];
        assert(k@ == words(after_assign@)[0]);
        if vec_eq_str(k, "match") || vec_eq_str(k, "if") || vec_eq_str(k, "for") || vec_eq_str(
            k,
            "while",
        ) || vec_eq_str(k, "loop") || vec_eq_str(k, "unsafe") || vec_eq_str(k, "do") {
            return false;
        }
    }
    let first = trimmed[0];
    if !(('a' <= first && first <= 'z') || ('A' <= first && first <= 'Z') || first == '_') {
        return false;
    }
    let mut i: usize = 1;
    while i < trimmed.len()
        invariant
            1 <= i <= trimmed.len(),
            forall|k: int| 1 <= k < i ==> head_char_ok(#[trigger] trimmed@[k]),
        decreases trimmed.len() - i,
    {
        if !char_head_ok(trimmed[i]) {
            return false;
        }
        i = i + 1;
    }
    true
}

// ---------------------------------------------------------------------------------------------
// Segment conversions
// ---------------------------------------------------------------------------------------------

/// The text that `s` is split into by `strip_trailing`: the trailing spaces and tabs.
pub open spec fn blank_tail(s: Seq<char>) -> Seq<char> {
    s.skip(strip_blank_end(s).len() as int)
}

/// `" x "` for a non-empty `x`, else nothing.
pub open spec fn padded(x: Seq<char>) -> Seq<char> {
    if x.len() > 0 {
        " "@ + x + " "@
    } else {
        seq![]
    }
}

fn push_padded(out: &mut Vec<char>, x: &Vec<char>)
    ensures
        final(out)@ == old(out)@ + padded(x@),
{
    if x.len() > 0 {
        push_str(out, " ");
        push_all(out, x);
        push_str(out, " ");
        assert(out@ =~= old(out)@ + padded(x@));
    } else {
        assert(out@ =~= old(out)@ + padded(x@));
    }
}

fn split_trailing(s: &Vec<char>) -> (r: (Vec<char>, Vec<char>))
    ensures
        r.0@ == strip_blank_end(s@),
        r.1@ == blank_tail(s@),
{
    let (core, tail) = strip_trailing(s);
    assert(tail@ =~= blank_tail(s@));
    (core, tail)
}

/// The rewriting of `=> do` into `=> {`: a `do` at the end opens a block, a `do {` keeps its
/// brace, and a `do body` (with or without a closing `}`) becomes `=> { body }`.
pub open spec fn do_segment(seg: Seq<char>) -> Option<Seq<char>> {
    match find(seg, "=> do"@) {
        None => None,
        Some(pos) => {
            let before = seg.take(pos);
            let after = seg.skip(pos + "=> do"@.len());
            let ta = trim_start(after);
            if ta.len() == 0 {
                Some(before + "=> {"@)
            } else if ta[0] == '{' {
                Some(before + "=>"@ + (if after.len() > 0 && is_blank(after[0]) {
                    " "@
                } else {
                    seq![]
                }) + ta)
            } else {
                let core = strip_blank_end(ta);
                let tws = blank_tail(ta);
                let body0 = trim_end(core);
                let body = if body0.len() > 0 && body0.last() == '}' {
                    strip_blank_end(body0.drop_last())
                } else {
                    body0
                };
                Some(before + "=> {"@ + padded(body) + "}"@ + tws)
            }
        },
    }
}

fn convert_do_segment(segment: &Vec<char>) -> (r: Option<Vec<char>>)
    ensures
        match r {
            Some(v) => do_segment(segment@) == Some(v@),
            None => do_segment(segment@) is None,
        },
{
    let pat = chars_of("=> do");
    match find_exec(segment, &pat) {
        None => None,
        Some(pos) => {
            proof {
                assert(occurs_at(segment@, pat@, pos as int));
            }
            let _n = segment.len();
            let before = slice_of(segment, 0, pos);
            let after = skip_from(segment, pos + pat.len());
            let trimmed_after = trim_start_of(&after);
            if trimmed_after.len() == 0 {
                let mut out = before;
                push_str(&mut out, "=> {");
                return Some(out);
            }
            if trimmed_after[0] == '{' {
                let mut out = before;
                push_str(&mut out, "=>");
                let ghost mid = out@;
                if after.len() > 0 && (after[0] == ' ' || after[0] == '\t') {
                    push_str(&mut out, " ");
                } else {
                    assert(out@ =~= mid + Seq::<char>::empty());
                }
                push_all(&mut out, &trimmed_after);
                return Some(out);
            }
            let (body_core, trailing_ws) = split_trailing(&trimmed_after);
            let body0 = trim_end_of(&body_core);
            let body = if body0.len() > 0 && body0[body0.len() - 1] == '}' {
                let dropped = slice_of(&body0, 0, body0.len() - 1);
                assert(dropped@ =~= body0@.drop_last());
                split_trailing(&dropped).0
            } else {
                body0
            };
            let mut out = before;
            push_str(&mut out, "=> {");
            push_padded(&mut out, &body);
            push_str(&mut out, "}");
            push_all(&mut out, &trailing_ws);
            Some(out)
        },
    }
}

/// The rewriting of a struct-like declaration head (`Name :: struct`, or `Name :: @attr table`)
/// into one that opens a brace block.
pub open spec fn struct_like(seg: Seq<char>, kw: Seq<char>) -> Option<Seq<char>> {
    let ts = trim_start(seg);
    if starts_with(ts, "use "@) || starts_with(ts, "pub use "@) {
        None
    } else {
        let core = strip_blank_end(seg);
        let tws = blank_tail(seg);
        let direct = ":: "@ + kw;
        if ends_with(core, direct) {
            Some(core.take(core.len() - direct.len()) + direct + " {"@ + tws)
        } else {
            let t = trim_end(core);
            match rfind(t, "::"@) {
                None => None,
                Some(idx) => {
                    let after = trim(t.skip(idx + "::"@.len()));
                    let toks = words(after);
                    if after.len() == 0 || toks.len() == 0 {
                        None
                    } else if toks.last() != kw {
                        None
                    } else if !(forall|k: int|
                        0 <= k < toks.len() - 1 ==> starts_with(#[trigger] toks[k], "@"@)) {
                        None
                    } else {
                        Some(t.take(idx) + ":: "@ + join_spaces(toks) + " {"@ + tws)
                    }
                },
            }
        }
    }
}

#[verifier::loop_isolation(false)]
fn convert_struct_like(segment: &Vec<char>, keyword: &str) -> (r: Option<Vec<char>>)
    ensures
        match r {
            Some(v) => struct_like(segment@, keyword@) == Some(v@),
            None => struct_like(segment@, keyword@) is None,
        },
{
    let trimmed_start = trim_start_of(segment);
    if starts_with_str(&trimmed_start, "use ") || starts_with_str(&trimmed_start, "pub use ") {
        return None;
    }
    let (core, trailing_ws) = split_trailing(segment);
    let mut direct = chars_of(":: ");
    push_str(&mut direct, keyword);
    if ends_with_exec(&core, &direct) {
        let prefix = slice_of(&core, 0, core.len() - direct.len());
        let mut out = prefix;
        push_all(&mut out, &direct);
        push_str(&mut out, " {");
        push_all(&mut out, &trailing_ws);
        return Some(out);
    }
    let trimmed = trim_end_of(&core);
    let sep = chars_of("::");
    match rfind_exec(&trimmed, &sep) {
        None => None,
        Some(idx) => {
            proof {
                assert(occurs_at(trimmed@, sep@, idx as int));
            }
            let after = trim_of(&skip_from(&trimmed, idx + sep.len()));
            if after.len() == 0 {
                return None;
            }
            let tokens = words_of(&after);
            let ghost tv = tokens@.map_values(|x: Vec<char>| x@);
            if tokens.len() == 0 {
                return None;
            }
            let kw = chars_of(keyword);
            assert(tokens@[tokens.len() - 1]@ == tv.last());
            if !vec_eq_str(&tokens[tokens.len() - 1], keyword) {
                return None;
            }
            let mut k: usize = 0;
            while k + 1 < tokens.len()
                invariant
                    k + 1 <= tokens.len(),
                    tv == tokens@.map_values(|x: Vec<char>| x@),
                    forall|j: int| 0 <= j < k ==> starts_with(#[trigger] tv[j], "@"@),
                decreases tokens.len() - k,
            {
                assert(tokens@[k as int]@ == tv[k as int]);
                if !starts_with_str(&tokens[k], "@") {
                    return None;
                }
                k = k + 1;
            }
            let prefix = slice_of(&trimmed, 0, idx);
            let mut out = prefix;
            push_str(&mut out, ":: ");
            let joined = join_words(&tokens);
            push_all(&mut out, &joined);
            push_str(&mut out, " {");
            push_all(&mut out, &trailing_ws);
            Some(out)
        },
    }
}

/// Index of the first space or tab at or after `i` (or the length).
pub open spec fn blank_find_from(s: Seq<char>, i: int) -> int
    decreases s.len() - i,
{
    if 0 <= i < s.len() && !is_blank(s[i]) {
        blank_find_from(s, i + 1)
    } else {
        i
    }
}

/// The rewriting of `@name args` into `@name(args)`.
pub open spec fn attribute_args(seg: Seq<char>) -> Option<Seq<char>> {
    let core = strip_blank_end(seg);
    let tws = blank_tail(seg);
    let t = trim_start(core);
    if !(t.len() > 0 && t[0] == '@') || contains(t, "("@) {
        None
    } else {
        let leading = core.take(core.len() - t.len());
        let rest = t.skip(1);
        let ne = blank_find_from(rest, 0);
        let name = rest.take(ne);
        let args = trim(rest.skip(ne));
        if name.len() == 0 || args.len() == 0 || contains(args, ":"@) {
            None
        } else {
            Some(leading + "@"@ + name + "("@ + args + ")"@ + tws)
        }
    }
}

fn convert_attribute_args(segment: &Vec<char>) -> (r: Option<Vec<char>>)
    ensures
        match r {
            Some(v) => attribute_args(segment@) == Some(v@),
            None => attribute_args(segment@) is None,
        },
{
    let (core, trailing_ws) = split_trailing(segment);
    let trimmed = trim_start_of(&core);
    if !(trimmed.len() > 0 && trimmed[0] == '@') {
        return None;
    }
    if contains_str(&trimmed, "(") {
        return None;
    }
    proof {
        assert(trimmed@.len() <= core@.len());
    }
    let leading = slice_of(&core, 0, core.len() - trimmed.len());
    let rest = skip_from(&trimmed, 1);
    let mut name_end: usize = 0;
    while name_end < rest.len() && !(rest[name_end] == ' ' || rest[name_end] == '\t')
        invariant
            name_end <= rest.len(),
            blank_find_from(rest@, name_end as int) == blank_find_from(rest@, 0),
        decreases rest.len() - name_end,
    {
        name_end = name_end + 1;
    }
    let name = slice_of(&rest, 0, name_end);
    if name.len() == 0 {
        return None;
    }
    let args = trim_of(&skip_from(&rest, name_end));
    if args.len() == 0 {
        return None;
    }
    if contains_str(&args, ":") {
        return None;
    }
    let mut out = leading;
    push_str(&mut out, "@");
    push_all(&mut out, &name);
    push_str(&mut out, "(");
    push_all(&mut out, &args);
    push_str(&mut out, ")");
    push_all(&mut out, &trailing_ws);
    Some(out)
}

/// The rewriting of an inline segment: `head: body` after a block keyword becomes
/// `head { body }`, with an inline ` else:` part becoming `else { ... }`; nested colons are
/// rewritten the same way.
pub open spec fn inline_segment(seg: Seq<char>) -> Seq<char>
    decreases seg.len(),
{
    let t = trim(seg);
    if t.len() == 0 {
        seq![]
    } else if block_colon(t) is Some && keyword_allows_block(t.take(block_colon(t)->0)) {
        let i = block_colon(t)->0;
        let head = t.take(i);
        let tail = t.skip(i + 1);
        let inner = trim_start(tail);
        let th = trim_end(head);
        if inner.len() == 0 {
            th + " {}"@
        } else if find(inner, " else:"@) is Some {
            let idx = find(inner, " else:"@)->0;
            if inner.take(idx).len() < seg.len() && trim_start(inner.skip(idx + " else:"@.len())).len()
                < seg.len() {
                th + " {"@ + padded(inline_segment(inner.take(idx))) + "}"@ + " "@ + "else {"@ + padded(
                    inline_segment(trim_start(inner.skip(idx + " else:"@.len()))),
                ) + "}"@
            } else {
                seq![]
            }
        } else if inner[0] == '{' {
            th + " "@ + inner
        } else if inner.len() < seg.len() {
            th + " {"@ + padded(inline_segment(inner)) + "}"@
        } else {
            seq![]
        }
    } else {
        t
    }
}

fn convert_inline_segment(segment: &Vec<char>) -> (r: Vec<char>)
    ensures
        r@ == inline_segment(segment@),
    decreases segment@.len(),
{
    let trimmed = trim_of(segment);
    proof {
        lemma_trim_len(segment@);
    }
    if trimmed.len() == 0 {
        return Vec::new();
    }
    if let Some((head, tail)) = split_block_colon(&trimmed) {
        if leading_keyword_allows_block(&head) {
            let inner_body = trim_start_of(&tail);
            let trimmed_head = trim_end_of(&head);
            proof {
                lemma_trim_len(tail@);
            }
            if inner_body.len() == 0 {
                let mut out = trimmed_head;
                push_str(&mut out, " {}");
                return out;
            }
            let pat = chars_of(" else:");
            if let Some(idx) = find_exec(&inner_body, &pat) {
                proof {
                    assert(occurs_at(inner_body@, pat@, idx as int));
                }
                let then_part = slice_of(&inner_body, 0, idx);
                let else_part = trim_start_of(&skip_from(&inner_body, idx + pat.len()));
                proof {
                    lemma_trim_len(inner_body@.skip(idx + pat@.len()));
                }
                let then_converted = convert_inline_segment(&then_part);
                let else_converted = convert_inline_segment(&else_part);
                let mut out = trimmed_head;
                push_str(&mut out, " {");
                push_padded(&mut out, &then_converted);
                push_str(&mut out, "}");
                push_str(&mut out, " ");
                push_str(&mut out, "else {");
                push_padded(&mut out, &else_converted);
                push_str(&mut out, "}");
                return out;
            }
            if inner_body[0] == '{' {
                let mut out = trimmed_head;
                push_str(&mut out, " ");
                push_all(&mut out, &inner_body);
                return out;
            }
            let nested = convert_inline_segment(&inner_body);
            let mut out = trimmed_head;
            push_str(&mut out, " {");
            push_padded(&mut out, &nested);
            push_str(&mut out, "}");
            return out;
        }
    }
    trimmed
}

/// A line ending in `=>` opens a brace block.
pub open spec fn arrow_block(base: Seq<char>, opens: bool) -> (Seq<char>, bool) {
    let core = strip_blank_end(base);
    let tws = blank_tail(base);
    let t = trim_end(core);
    if ends_with(t, "=>"@) && !ends_with(t, "=> {"@) {
        (t + " {"@ + tws, true)
    } else {
        (base, opens)
    }
}

fn ensure_arrow_block(base: Vec<char>, opens_block: bool) -> (r: (Vec<char>, bool))
    ensures
        r.0@ == arrow_block(base@, opens_block).0,
        r.1 == arrow_block(base@, opens_block).1,
{
    let (core, trailing_ws) = split_trailing(&base);
    let trimmed = trim_end_of(&core);
    if ends_with_str(&trimmed, "=>") && !ends_with_str(&trimmed, "=> {") {
        let mut expanded = trimmed;
        push_str(&mut expanded, " {");
        push_all(&mut expanded, &trailing_ws);
        return (expanded, true);
    }
    (base, opens_block)
}


// ---------------------------------------------------------------------------------------------
// Converting the leading part of a line
// ---------------------------------------------------------------------------------------------

/// The struct-like keywords, in the order they are tried.
pub open spec fn struct_like_any(seg: Seq<char>) -> Option<Seq<char>> {
    if struct_like(seg, "struct"@) is Some {
        struct_like(seg, "struct"@)
    } else if struct_like(seg, "table"@) is Some {
        struct_like(seg, "table"@)
    } else if struct_like(seg, "compose"@) is Some {
        struct_like(seg, "compose"@)
    } else if struct_like(seg, "db"@) is Some {
        struct_like(seg, "db"@)
    } else if struct_like(seg, "enum"@) is Some {
        struct_like(seg, "enum"@)
    } else {
        struct_like(seg, "trait"@)
    }
}

/// A head followed by a colon and an inline body: an empty body opens a block, a body in
/// braces is kept, any other body is converted and put in braces.
pub open spec fn inline_open(th: Seq<char>, ib: Seq<char>, tws: Seq<char>) -> (Seq<char>, bool) {
    if ib.len() == 0 {
        (th + " {"@ + tws, true)
    } else if ib[0] == '{' {
        (th + " "@ + ib + tws, false)
    } else {
        (th + " {"@ + padded(inline_segment(ib)) + "}"@ + tws, false)
    }
}

/// The rewriting of a line with a block colon, when one of the colon rules applies.
pub open spec fn colon_rewrite(stripped: Seq<char>, tws: Seq<char>) -> Option<(Seq<char>, bool)> {
    match block_colon(stripped) {
        None => None,
        Some(i) => {
            let head = stripped.take(i);
            let tail = stripped.skip(i + 1);
            let th = trim_end(head);
            let ib = trim_start(tail);
            if keyword_allows_block(head) {
                Some(
                    if ib.len() == 0 {
                        arrow_block(th + " {"@ + tws, true)
                    } else if find(ib, " else:"@) is Some {
                        let idx = find(ib, " else:"@)->0;
                        (th + " {"@ + padded(inline_segment(ib.take(idx))) + "}"@ + " "@ + "else {"@
                            + padded(inline_segment(trim_start(ib.skip(idx + " else:"@.len()))))
                            + "}"@ + tws, false)
                    } else if ib[0] == '{' {
                        arrow_block(th + " "@ + ib + tws, false)
                    } else {
                        arrow_block(th + " {"@ + " "@ + inline_segment(ib) + " }"@ + tws, false)
                    },
                )
            } else if ends_with(th, "? else"@) {
                Some(inline_open(th, ib, tws))
            } else if trim(tail).len() == 0 && struct_literal_head(th) {
                Some(arrow_block(th + " {"@ + tws, true))
            } else if rfind(th, "=>"@) is Some && keyword_allows_block(
                trim_start(th.skip(rfind(th, "=>"@)->0 + "=>"@.len())),
            ) {
                Some(inline_open(th, ib, tws))
            } else {
                None
            }
        },
    }
}

/// The rewriting of a line starting with `else` (not `else:`) into `else { ... }`.
pub open spec fn else_rewrite(stripped: Seq<char>, tws: Seq<char>) -> Option<(Seq<char>, bool)> {
    let t = trim_start(stripped);
    if starts_with(t, "else"@) {
        let rem = t.skip("else"@.len() as int);
        if rem.len() == 0 {
            Some(("else {"@ + "}"@ + tws, false))
        } else if rem[0] == ':' {
            None
        } else if is_ws(rem[0]) {
            Some(("else {"@ + padded(inline_segment(trim_start(rem))) + "}"@ + tws, false))
        } else {
            Some(("else {"@ + padded(inline_segment(rem)) + "}"@ + tws, false))
        }
    } else {
        None
    }
}

/// The rewriting of one line (without indentation), and whether it opens a block whose body
/// is on the following, deeper indented lines.
pub open spec fn block_leader(seg: Seq<char>) -> (Seq<char>, bool) {
    if do_segment(seg) is Some {
        let conv = do_segment(seg)->0;
        arrow_block(conv, ends_with(trim_end(conv), "{"@) && ends_with(trim_end(seg), "=> do"@))
    } else if attribute_args(seg) is Some {
        (attribute_args(seg)->0, false)
    } else if struct_like_any(seg) is Some {
        arrow_block(struct_like_any(seg)->0, true)
    } else {
        let stripped = strip_blank_end(seg);
        let tws = blank_tail(seg);
        if colon_rewrite(stripped, tws) is Some {
            colon_rewrite(stripped, tws)->0
        } else if else_rewrite(stripped, tws) is Some {
            else_rewrite(stripped, tws)->0
        } else {
            arrow_block(seg, false)
        }
    }
}

fn convert_any_struct_like(segment: &Vec<char>) -> (r: Option<Vec<char>>)
    ensures
        match r {
            Some(v) => struct_like_any(segment@) == Some(v@),
            None => struct_like_any(segment@) is None,
        },
{
    if let Some(c) = convert_struct_like(segment, "struct") {
        return Some(c);
    }
    if let Some(c) = convert_struct_like(segment, "table") {
        return Some(c);
    }
    if let Some(c) = convert_struct_like(segment, "compose") {
        return Some(c);
    }
    if let Some(c) = convert_struct_like(segment, "db") {
        return Some(c);
    }
    if let Some(c) = convert_struct_like(segment, "enum") {
        return Some(c);
    }
    convert_struct_like(segment, "trait")
}

fn convert_inline_open(th: Vec<char>, ib: &Vec<char>, tws: &Vec<char>) -> (r: (Vec<char>, bool))
    ensures
        r.0@ == inline_open(th@, ib@, tws@).0,
        r.1 == inline_open(th@, ib@, tws@).1,
{
    if ib.len() == 0 {
        let mut base = th;
        push_str(&mut base, " {");
        push_all(&mut base, tws);
        return (base, true);
    }
    if ib[0] == '{' {
        let mut base = th;
        push_str(&mut base, " ");
        push_all(&mut base, ib);
        push_all(&mut base, tws);
        return (base, false);
    }
    let converted_inline = convert_inline_segment(ib);
    let mut base = th;
    push_str(&mut base, " {");
    push_padded(&mut base, &converted_inline);
    push_str(&mut base, "}");
    push_all(&mut base, tws);
    (base, false)
}

fn convert_colon(stripped: &Vec<char>, trailing_ws: &Vec<char>) -> (r: Option<(Vec<char>, bool)>)
    ensures
        match r {
            Some((v, b)) => colon_rewrite(stripped@, trailing_ws@) == Some((v@, b)),
            None => colon_rewrite(stripped@, trailing_ws@) is None,
        },
{
    let (head, tail) = match split_block_colon(stripped) {
        Some(p) => p,
        None => {
            return None;
        },
    };
    let trimmed_head = trim_end_of(&head);
    let inline_body = trim_start_of(&tail);
    if leading_keyword_allows_block(&head) {
        if inline_body.len() == 0 {
            let mut base = trimmed_head;
            push_str(&mut base, " {");
            push_all(&mut base, trailing_ws);
            let (v, b) = ensure_arrow_block(base, true);
            return Some((v, b));
        }
        let pat = chars_of(" else:");
        if let Some(idx) = find_exec(&inline_body, &pat) {
            let then_part = slice_of(&inline_body, 0, idx);
            let else_part = trim_start_of(&skip_from(&inline_body, idx + pat.len()));
            let then_converted = convert_inline_segment(&then_part);
            let else_converted = convert_inline_segment(&else_part);
            let mut base = trimmed_head;
            push_str(&mut base, " {");
            push_padded(&mut base, &then_converted);
            push_str(&mut base, "}");
            push_str(&mut base, " ");
            push_str(&mut base, "else {");
            push_padded(&mut base, &else_converted);
            push_str(&mut base, "}");
            push_all(&mut base, trailing_ws);
            return Some((base, false));
        }
        if inline_body[0] == '{' {
            let mut base = trimmed_head;
            push_str(&mut base, " ");
            push_all(&mut base, &inline_body);
            push_all(&mut base, trailing_ws);
            let (v, b) = ensure_arrow_block(base, false);
            return Some((v, b));
        }
        let converted_inline = convert_inline_segment(&inline_body);
        let mut base = trimmed_head;
        push_str(&mut base, " {");
        push_str(&mut base, " ");
        push_all(&mut base, &converted_inline);
        push_str(&mut base, " }");
        push_all(&mut base, trailing_ws);
        let (v, b) = ensure_arrow_block(base, false);
        return Some((v, b));
    }
    if ends_with_str(&trimmed_head, "? else") {
        let (v, b) = convert_inline_open(trimmed_head, &inline_body, trailing_ws);
        return Some((v, b));
    }
    let tail_trimmed = trim_of(&tail);
    if tail_trimmed.len() == 0 && looks_like_struct_literal_head(&trimmed_head) {
        let mut base = trimmed_head;
        push_str(&mut base, " {");
        push_all(&mut base, trailing_ws);
        let (v, b) = ensure_arrow_block(base, true);
        return Some((v, b));
    }
    let arrow = chars_of("=>");
    let _len = trimmed_head.len();
    if let Some(arrow_idx) = rfind_exec(&trimmed_head, &arrow) {
        let after_arrow = trim_start_of(&skip_from(&trimmed_head, arrow_idx + arrow.len()));
        if leading_keyword_allows_block(&after_arrow) {
            let (v, b) = convert_inline_open(trimmed_head, &inline_body, trailing_ws);
            return Some((v, b));
        }
    }
    None
}

fn convert_else(stripped: &Vec<char>, trailing_ws: &Vec<char>) -> (r: Option<(Vec<char>, bool)>)
    ensures
        match r {
            Some((v, b)) => else_rewrite(stripped@, trailing_ws@) == Some((v@, b)),
            None => else_rewrite(stripped@, trailing_ws@) is None,
        },
{
    let trimmed = trim_start_of(stripped);
    let kw = chars_of("else");
    if !starts_with_exec(&trimmed, &kw) {
        return None;
    }
    let remainder = skip_from(&trimmed, kw.len());
    if remainder.len() == 0 {
        let mut base = chars_of("else {");
        push_str(&mut base, "}");
        push_all(&mut base, trailing_ws);
        return Some((base, false));
    }
    let ch = remainder[0];
    if ch == ':' {
        return None;
    }
    let converted = if crate::text::char_is_ws(ch) {
        convert_inline_segment(&trim_start_of(&remainder))
    } else {
        convert_inline_segment(&remainder)
    };
    let mut base = chars_of("else {");
    push_padded(&mut base, &converted);
    push_str(&mut base, "}");
    push_all(&mut base, trailing_ws);
    Some((base, false))
}

/// Converts the leading part of a line; also says whether the line opens a block.
pub fn convert_block_leader(segment: &str) -> (r: (String, bool))
    ensures
        r.0@ == block_leader(segment@).0,
        r.1 == block_leader(segment@).1,
{
    let chars = chars_of(segment);
    let (converted, opens) = convert_leader_chars(&chars);
    (string_of(&converted), opens)
}

fn convert_leader_chars(segment: &Vec<char>) -> (r: (Vec<char>, bool))
    ensures
        r.0@ == block_leader(segment@).0,
        r.1 == block_leader(segment@).1,
{
    if let Some(converted) = convert_do_segment(segment) {
        let opens_block = ends_with_str(&trim_end_of(&converted), "{") && ends_with_str(
            &trim_end_of(segment),
            "=> do",
        );
        return ensure_arrow_block(converted, opens_block);
    }
    if let Some(converted) = convert_attribute_args(segment) {
        return (converted, false);
    }
    if let Some(converted) = convert_any_struct_like(segment) {
        return ensure_arrow_block(converted, true);
    }
    let (stripped, trailing_ws) = split_trailing(segment);
    if let Some(r) = convert_colon(&stripped, &trailing_ws) {
        return r;
    }
    if let Some(r) = convert_else(&stripped, &trailing_ws) {
        return r;
    }
    let copy = slice_of(segment, 0, segment.len());
    assert(copy@ =~= segment@);
    ensure_arrow_block(copy, false)
}


// ---------------------------------------------------------------------------------------------
// The whole source
// ---------------------------------------------------------------------------------------------

/// `s` with every `\r\n` and every other `\r` turned into `\n`, from position `i` on.
pub open spec fn normalize_from(s: Seq<char>, i: int) -> Seq<char>
    decreases s.len() - i,
{
    if i < 0 || i >= s.len() {
        seq![]
    } else if s[i] == '\r' && i + 1 < s.len() && s[i + 1] == '\n' {
        seq!['\n'] + normalize_from(s, i + 2)
    } else if s[i] == '\r' {
        seq!['\n'] + normalize_from(s, i + 1)
    } else {
        seq![s[i]] + normalize_from(s, i + 1)
    }
}

/// The lines of `s` from `i` on, each keeping its `\n`; `cur` is the part of a line already read.
pub open spec fn lines_from(s: Seq<char>, i: int, cur: Seq<char>) -> Seq<Seq<char>>
    decreases s.len() - i,
{
    if i < 0 || i >= s.len() {
        if cur.len() > 0 {
            seq![cur]
        } else {
            seq![]
        }
    } else if s[i] == '\n' {
        seq![cur.push('\n')] + lines_from(s, i + 1, seq![])
    } else {
        lines_from(s, i + 1, cur.push(s[i]))
    }
}

/// Position just after the run of `}` that starts at `i`.
pub open spec fn brace_run_from(s: Seq<char>, i: int) -> int
    decreases s.len() - i,
{
    if 0 <= i < s.len() && s[i] == '}' {
        brace_run_from(s, i + 1)
    } else {
        i
    }
}

/// The block state while lines are read: the text written so far, the indentations of lines
/// that opened a block whose body has not started yet, and the open blocks as
/// (content indentation, brace indentation).
pub struct DesugarState {
    pub out: Seq<char>,
    pub pending: Seq<nat>,
    pub open: Seq<(nat, nat)>,
}

/// Closes the open blocks that a line at `indent` leaves; the first `closers` of them are
/// closed by the `}` the line starts with, the others get a `}` line of their own.
pub open spec fn close_blocks(out: Seq<char>, open: Seq<(nat, nat)>, closers: nat, indent: nat) -> (
    Seq<char>,
    Seq<(nat, nat)>,
)
    decreases open.len(),
{
    if open.len() > 0 && indent < open.last().0 {
        if closers > 0 {
            close_blocks(out, open.drop_last(), (closers - 1) as nat, indent)
        } else {
            close_blocks(out + spaces(open.last().1) + "}"@ + "\n"@, open.drop_last(), 0, indent)
        }
    } else {
        (out, open)
    }
}

/// Turns the pending blocks that a deeper line at `indent` begins into open blocks.
pub open spec fn open_pending(pending: Seq<nat>, open: Seq<(nat, nat)>, indent: nat) -> (
    Seq<nat>,
    Seq<(nat, nat)>,
)
    decreases pending.len(),
{
    if pending.len() > 0 && indent > pending.last() {
        open_pending(pending.drop_last(), open.push((indent, pending.last())), indent)
    } else {
        (pending, open)
    }
}

/// Appends an `else` line to the line before it: trailing blanks and the last newline go.
pub open spec fn attach(out: Seq<char>, tc: Seq<char>) -> Seq<char> {
    let o1 = strip_blank_end(out);
    let o2 = if o1.len() > 0 && o1.last() == '\n' {
        strip_blank_end(o1.drop_last())
    } else {
        o1
    };
    let o3 = if o2.len() > 0 && o2.last() != ' ' && o2.last() != '{' {
        o2 + " "@
    } else {
        o2
    };
    o3 + tc
}

/// `rest` with a leading `elif` turned into `else if`.
pub open spec fn elif_segment(rest: Seq<char>) -> Seq<char> {
    if starts_with(rest, "elif"@) && rest.len() > "elif"@.len() && (is_ws(rest["elif"@.len() as int])
        || rest["elif"@.len() as int] == ':') {
        "else if"@ + rest.skip("elif"@.len() as int)
    } else {
        rest
    }
}

/// The effect of one line (with its newline, if any) on the state.
pub open spec fn desugar_line(st: DesugarState, raw: Seq<char>) -> DesugarState {
    let has_nl = raw.len() > 0 && raw.last() == '\n';
    let line = if has_nl {
        raw.drop_last()
    } else {
        raw
    };
    let nl = if has_nl {
        "\n"@
    } else {
        seq![]
    };
    let indent = line_indent_spec(line).0;
    let rest = line_indent_spec(line).1;
    let trimmed = trim(rest);
    if trimmed.len() == 0 {
        DesugarState { out: st.out + line + nl, pending: st.pending, open: st.open }
    } else {
        let closers = brace_run_from(trimmed, 0) as nat;
        let (out1, open1) = close_blocks(st.out, st.open, closers, indent);
        let (pend2, open2) = open_pending(st.pending, open1, indent);
        if starts_with(trimmed, "#"@) {
            DesugarState { out: out1 + line + nl, pending: pend2, open: open2 }
        } else {
            let (conv, opens) = block_leader(elif_segment(rest));
            let tc = trim_start(conv);
            let attached = (starts_with(trimmed, "else"@) || starts_with(trimmed, "elif"@)) && (
            starts_with(tc, "else {"@) || starts_with(tc, "else if"@));
            let out2 = if attached {
                attach(out1, tc)
            } else {
                out1 + spaces(indent) + conv
            };
            DesugarState {
                out: out2 + nl,
                pending: if opens {
                    pend2.push(indent)
                } else {
                    pend2
                },
                open: open2,
            }
        }
    }
}

/// The state after the first `k` lines.
pub open spec fn desugar_lines(lines: Seq<Seq<char>>, k: int) -> DesugarState
    decreases k,
{
    if k <= 0 {
        DesugarState { out: seq![], pending: seq![], open: seq![] }
    } else {
        desugar_line(desugar_lines(lines, k - 1), lines[k - 1])
    }
}

/// Closes every block still open at the end, innermost first.
pub open spec fn close_all(out: Seq<char>, open: Seq<(nat, nat)>) -> Seq<char>
    decreases open.len(),
{
    if open.len() == 0 {
        out
    } else {
        close_all(out + spaces(open.last().1) + "}"@ + "\n"@, open.drop_last())
    }
}

/// Gives every block that never got a body an empty `{}`, innermost first.
pub open spec fn close_pending(out: Seq<char>, pending: Seq<nat>) -> Seq<char>
    decreases pending.len(),
{
    if pending.len() == 0 {
        out
    } else {
        close_pending(out + spaces(pending.last()) + "{}"@ + "\n"@, pending.drop_last())
    }
}

/// The brace form of an indentation-structured source.
pub open spec fn desugar(source: Seq<char>) -> Seq<char> {
    let lines = lines_from(normalize_from(source, 0), 0, seq![]);
    let st = desugar_lines(lines, lines.len() as int);
    close_pending(close_all(st.out, st.open), st.pending)
}


pub open spec fn pending_view(v: Seq<usize>) -> Seq<nat> {
    v.map_values(|x: usize| x as nat)
}

pub open spec fn open_view(v: Seq<(usize, usize)>) -> Seq<(nat, nat)> {
    v.map_values(|x: (usize, usize)| (x.0 as nat, x.1 as nat))
}

fn normalize(s: &Vec<char>) -> (r: Vec<char>)
    ensures
        r@ == normalize_from(s@, 0),
        r@.len() <= s@.len(),
{
    let mut r: Vec<char> = Vec::new();
    let mut i: usize = 0;
    while i < s.len()
        invariant
            i <= s.len(),
            r@.len() <= i,
            normalize_from(s@, 0) == r@ + normalize_from(s@, i as int),
        decreases s.len() - i,
    {
        let ghost old_r = r@;
        if s[i] == '\r' && i + 1 < s.len() && s[i + 1] == '\n' {
            r.push('\n');
            assert(normalize_from(s@, i as int) == seq!['\n'] + normalize_from(s@, i + 2));
            assert(old_r + normalize_from(s@, i as int) =~= r@ + normalize_from(s@, i + 2));
            i = i + 2;
        } else {
            let c = if s[i] == '\r' {
                '\n'
            } else {
                s[i]
            };
            r.push(c);
            assert(normalize_from(s@, i as int) == seq![c] + normalize_from(s@, i + 1));
            assert(old_r + normalize_from(s@, i as int) =~= r@ + normalize_from(s@, i + 1));
            i = i + 1;
        }
    }
    assert(r@ + normalize_from(s@, i as int) =~= r@);
    r
}

fn split_lines(s: &Vec<char>) -> (r: Vec<Vec<char>>)
    ensures
        r@.map_values(|l: Vec<char>| l@) == lines_from(s@, 0, seq![]),
        forall|k: int| 0 <= k < r@.len() ==> (#[trigger] r@[k])@.len() <= s@.len(),
{
    let mut done: Vec<Vec<char>> = Vec::new();
    let mut cur: Vec<char> = Vec::new();
    let mut i: usize = 0;
    while i < s.len()
        invariant
            i <= s.len(),
            cur@.len() <= i,
            forall|k: int| 0 <= k < done@.len() ==> (#[trigger] done@[k])@.len() <= s@.len(),
            lines_from(s@, 0, seq![]) == done@.map_values(|l: Vec<char>| l@) + lines_from(
                s@,
                i as int,
                cur@,
            ),
        decreases s.len() - i,
    {
        let ghost before = done@.map_values(|l: Vec<char>| l@);
        if s[i] == '\n' {
            cur.push('\n');
            let ghost c = cur@;
            done.push(cur);
            cur = Vec::new();
            assert(done@.map_values(|l: Vec<char>| l@) =~= before + seq![c]);
            assert(cur@ =~= Seq::<char>::empty());
        } else {
            cur.push(s[i]);
        }
        i = i + 1;
    }
    if cur.len() > 0 {
        let ghost before = done@.map_values(|l: Vec<char>| l@);
        let ghost c = cur@;
        done.push(cur);
        assert(done@.map_values(|l: Vec<char>| l@) =~= before + seq![c]);
    } else {
        assert(done@.map_values(|l: Vec<char>| l@) + lines_from(s@, i as int, cur@) =~= done@.map_values(
            |l: Vec<char>| l@,
        ));
    }
    done
}

fn close_blocks_exec(out: &mut Vec<char>, open: &mut Vec<(usize, usize)>, closers: usize, indent: usize)
    ensures
        (final(out)@, open_view(final(open)@)) == close_blocks(old(out)@, open_view(old(open)@), closers as nat, indent as nat),
{
    let mut left = closers;
    while open.len() > 0 && indent < open[open.len() - 1].0
        invariant
            close_blocks(out@, open_view(open@), left as nat, indent as nat) == close_blocks(
                old(out)@,
                open_view(old(open)@),
                closers as nat,
                indent as nat,
            ),
        decreases open.len(),
    {
        let ghost ov = open_view(open@);
        let block = open.pop().unwrap();
        assert(open_view(open@) =~= ov.drop_last());
        if left > 0 {
            left = left - 1;
        } else {
            push_spaces(out, block.1);
            push_str(out, "}");
            push_str(out, "\n");
        }
    }
}

fn open_pending_exec(pending: &mut Vec<usize>, open: &mut Vec<(usize, usize)>, indent: usize)
    ensures
        (pending_view(final(pending)@), open_view(final(open)@)) == open_pending(pending_view(old(pending)@), open_view(old(open)@), indent as nat),
{
    while pending.len() > 0 && indent > pending[pending.len() - 1]
        invariant
            open_pending(pending_view(pending@), open_view(open@), indent as nat) == open_pending(
                pending_view(old(pending)@),
                open_view(old(open)@),
                indent as nat,
            ),
        decreases pending.len(),
    {
        let ghost pv = pending_view(pending@);
        let ghost ov = open_view(open@);
        let opening = pending.pop().unwrap();
        assert(pending_view(pending@) =~= pv.drop_last());
        open.push((indent, opening));
        assert(open_view(open@) =~= ov.push((indent as nat, opening as nat)));
    }
}

fn pop_blanks(out: &mut Vec<char>)
    ensures
        final(out)@ == strip_blank_end(old(out)@),
{
    while out.len() > 0 && (out[out.len() - 1] == ' ' || out[out.len() - 1] == '\t')
        invariant
            strip_blank_end(out@) == strip_blank_end(old(out)@),
        decreases out.len(),
    {
        let ghost o = out@;
        out.pop();
        assert(out@ =~= o.drop_last());
        assert(blank_back_from(o, o.len() as int) == blank_back_from(o, o.len() - 1));
        assert(o.take(blank_back_from(o, o.len() - 1)) =~= out@.take(blank_back_from(out@, out@.len() as int))) by {
            lemma_blank_back_prefix(o, o.len() - 1);
            assert(out@ =~= o.take(o.len() - 1));
            let k = blank_back_from(o, o.len() - 1);
            assert(o.take(k) =~= o.take(o.len() - 1).take(k));
        }
    }
    proof {
        assert(blank_back_from(out@, out@.len() as int) == out@.len());
        assert(out@.take(out@.len() as int) =~= out@);
    }
}

proof fn lemma_blank_back_prefix(o: Seq<char>, j: int)
    requires
        0 <= j <= o.len(),
    ensures
        blank_back_from(o, j) == blank_back_from(o.take(j), j),
        0 <= blank_back_from(o, j) <= j,
    decreases j,
{
    if j > 0 && is_blank(o[j - 1]) {
        lemma_blank_back_prefix(o, j - 1);
        lemma_blank_back_prefix(o.take(j), j - 1);
        assert(o.take(j).take(j - 1) =~= o.take(j - 1));
    }
}

fn attach_exec(out: &mut Vec<char>, tc: &Vec<char>)
    ensures
        final(out)@ == attach(old(out)@, tc@),
{
    pop_blanks(out);
    if out.len() > 0 && out[out.len() - 1] == '\n' {
        let ghost o = out@;
        out.pop();
        assert(out@ =~= o.drop_last());
        pop_blanks(out);
    }
    if out.len() > 0 && out[out.len() - 1] != ' ' && out[out.len() - 1] != '{' {
        push_str(out, " ");
    }
    push_all(out, tc);
}


/// The state held in the three working vectors.
pub open spec fn state_of(out: Seq<char>, pending: Seq<usize>, open: Seq<(usize, usize)>) -> DesugarState {
    DesugarState { out: out, pending: pending_view(pending), open: open_view(open) }
}

fn desugar_line_exec(out: &mut Vec<char>, pending: &mut Vec<usize>, open: &mut Vec<(usize, usize)>, raw: &Vec<char>)
    requires
        raw.len() <= usize::MAX / 4,
    ensures
        state_of(final(out)@, final(pending)@, final(open)@) == desugar_line(state_of(old(out)@, old(pending)@, old(open)@), raw@),
{
    let has_nl = raw.len() > 0 && raw[raw.len() - 1] == '\n';
    let line = if has_nl {
        let l = slice_of(raw, 0, raw.len() - 1);
        assert(l@ =~= raw@.drop_last());
        l
    } else {
        let l = slice_of(raw, 0, raw.len());
        assert(l@ =~= raw@);
        l
    };
    let ghost nl: Seq<char> = if has_nl { "\n"@ } else { seq![] };
    let (indent, rest) = line_indent(&line);
    let trimmed = trim_of(&rest);
    if trimmed.len() == 0 {
        let ghost o = out@;
        push_all(out, &line);
        if has_nl {
            push_str(out, "\n");
        } else {
            assert(out@ =~= o + line@ + nl);
        }
        return;
    }
    let mut closers: usize = 0;
    while closers < trimmed.len() && trimmed[closers] == '}'
        invariant
            closers <= trimmed.len(),
            brace_run_from(trimmed@, closers as int) == brace_run_from(trimmed@, 0),
        decreases trimmed.len() - closers,
    {
        closers = closers + 1;
    }
    close_blocks_exec(out, open, closers, indent);
    open_pending_exec(pending, open, indent);
    if starts_with_str(&trimmed, "#") {
        let ghost o = out@;
        push_all(out, &line);
        if has_nl {
            push_str(out, "\n");
        } else {
            assert(out@ =~= o + line@ + nl);
        }
        return;
    }
    let elif = chars_of("elif");
    let segment = if starts_with_exec(&rest, &elif) && rest.len() > elif.len() && (
    crate::text::char_is_ws(rest[elif.len()]) || rest[elif.len()] == ':') {
        let mut r = chars_of("else if");
        push_all(&mut r, &skip_from(&rest, elif.len()));
        r
    } else {
        rest
    };
    assert(segment@ == elif_segment(line_indent_spec(line@).1));
    let (converted, opens) = convert_leader_chars(&segment);
    let tc = trim_start_of(&converted);
    let attached = (starts_with_str(&trimmed, "else") || starts_with_str(&trimmed, "elif")) && (
    starts_with_str(&tc, "else {") || starts_with_str(&tc, "else if"));
    if attached {
        attach_exec(out, &tc);
    } else {
        push_spaces(out, indent);
        push_all(out, &converted);
    }
    let ghost o2 = out@;
    if has_nl {
        push_str(out, "\n");
    } else {
        assert(out@ =~= o2 + nl);
    }
    if opens {
        let ghost pv = pending_view(pending@);
        pending.push(indent);
        assert(pending_view(pending@) =~= pv.push(indent as nat));
    }
}

fn close_all_exec(out: &mut Vec<char>, open: &mut Vec<(usize, usize)>)
    ensures
        final(out)@ == close_all(old(out)@, open_view(old(open)@)),
{
    while open.len() > 0
        invariant
            close_all(out@, open_view(open@)) == close_all(old(out)@, open_view(old(open)@)),
        decreases open.len(),
    {
        let ghost ov = open_view(open@);
        let block = open.pop().unwrap();
        assert(open_view(open@) =~= ov.drop_last());
        push_spaces(out, block.1);
        push_str(out, "}");
        push_str(out, "\n");
    }
    assert(open_view(open@) =~= Seq::<(nat, nat)>::empty());
}

fn close_pending_exec(out: &mut Vec<char>, pending: &mut Vec<usize>)
    ensures
        final(out)@ == close_pending(old(out)@, pending_view(old(pending)@)),
{
    while pending.len() > 0
        invariant
            close_pending(out@, pending_view(pending@)) == close_pending(old(out)@, pending_view(old(pending)@)),
        decreases pending.len(),
    {
        let ghost pv = pending_view(pending@);
        let opening = pending.pop().unwrap();
        assert(pending_view(pending@) =~= pv.drop_last());
        push_spaces(out, opening);
        push_str(out, "{}");
        push_str(out, "\n");
    }
    assert(pending_view(pending@) =~= Seq::<nat>::empty());
}

/// Rewrites an indentation-structured source into its brace form.
pub fn desugar_indentation(source: &str) -> (r: String)
    requires
        source@.len() <= usize::MAX / 4,
    ensures
        r@ == desugar(source@),
{
    let chars = chars_of(source);
    let normalized = normalize(&chars);
    let lines = split_lines(&normalized);
    let ghost lv = lines@.map_values(|l: Vec<char>| l@);
    let mut out: Vec<char> = Vec::new();
    let mut pending: Vec<usize> = Vec::new();
    let mut open: Vec<(usize, usize)> = Vec::new();
    assert(pending_view(pending@) =~= Seq::<nat>::empty());
    assert(open_view(open@) =~= Seq::<(nat, nat)>::empty());
    assert(out@ =~= Seq::<char>::empty());
    assert(state_of(out@, pending@, open@) == desugar_lines(lv, 0));
    let mut k: usize = 0;
    while k < lines.len()
        invariant
            k <= lines.len(),
            lv == lines@.map_values(|l: Vec<char>| l@),
            normalized@.len() <= usize::MAX / 4,
            forall|j: int| 0 <= j < lines@.len() ==> (#[trigger] lines@[j])@.len() <= normalized@.len(),
            state_of(out@, pending@, open@) == desugar_lines(lv, k as int),
        decreases lines.len() - k,
    {
        assert(lines@[k as int]@ == lv[k as int]);
        desugar_line_exec(&mut out, &mut pending, &mut open, &lines[k]);
        k = k + 1;
    }
    close_all_exec(&mut out, &mut open);
    close_pending_exec(&mut out, &mut pending);
    string_of(&out)
}

proof fn lemma_blank_back(s: Seq<char>, j: int)
    requires
        0 <= j <= s.len(),
    ensures
        0 <= blank_back_from(s, j) <= j,
        forall|k: int| blank_back_from(s, j) <= k < j ==> is_blank(#[trigger] s[k]),
    decreases j,
{
    if 0 < j && is_blank(s[j - 1]) {
        lemma_blank_back(s, j - 1);
    }
}

proof fn lemma_blank_tail_blank(s: Seq<char>)
    ensures
        forall|k: int| 0 <= k < blank_tail(s).len() ==> is_blank(#[trigger] blank_tail(s)[k]),
{
    lemma_blank_back(s, s.len() as int);
    assert forall|k: int| 0 <= k < blank_tail(s).len() implies is_blank(#[trigger] blank_tail(s)[k]) by {
        assert(blank_tail(s)[k] == s[strip_blank_end(s).len() + k]);
    }
}

proof fn lemma_ws_back_to_brace(y: Seq<char>, n: int, j: int)
    requires
        0 < n <= j <= y.len(),
        y[n - 1] == '{',
        forall|k: int| n <= k < y.len() ==> is_blank(#[trigger] y[k]),
    ensures
        ws_back_from(y, j) == n,
    decreases j,
{
    if j > n {
        lemma_ws_back_to_brace(y, n, j - 1);
    }
}

/// Text, then `{`, then spaces and tabs: with the whitespace trimmed it ends in `{`.
proof fn lemma_ends_in_brace(p: Seq<char>, w: Seq<char>)
    requires
        forall|k: int| 0 <= k < w.len() ==> is_blank(#[trigger] w[k]),
    ensures
        ends_with(trim_end(p + seq!['{'] + w), "{"@),
{
    let y = p + seq!['{'] + w;
    let n: int = p.len() as int + 1;
    assert forall|k: int| n <= k < y.len() implies is_blank(#[trigger] y[k]) by {
        assert(y[k] == w[k - n]);
    }
    lemma_ws_back_to_brace(y, n, y.len() as int);
    reveal_strlit("{");
    assert(y[n - 1] == '{');
    assert(trim_end(y) == y.take(n));
    assert(trim_end(y).skip(trim_end(y).len() - 1) =~= "{"@);
}

proof fn lemma_opening_form(p: Seq<char>, s: Seq<char>)
    ensures
        ends_with(trim_end(p + " {"@ + blank_tail(s)), "{"@),
{
    lemma_blank_tail_blank(s);
    reveal_strlit(" {");
    reveal_strlit(" ");
    assert(p + " {"@ + blank_tail(s) =~= (p + " "@) + seq!['{'] + blank_tail(s));
    lemma_ends_in_brace(p + " "@, blank_tail(s));
}

proof fn lemma_arrow_block_opens(base: Seq<char>, opens: bool)
    ensures
        arrow_block(base, opens) == (base, opens) || ends_with(trim_end(arrow_block(base, opens).0), "{"@),
{
    let t = trim_end(strip_blank_end(base));
    lemma_opening_form(t, base);
}

proof fn lemma_struct_like_opens(seg: Seq<char>, kw: Seq<char>)
    ensures
        struct_like(seg, kw) matches Some(x) ==> ends_with(trim_end(x), "{"@),
{
    let core = strip_blank_end(seg);
    let direct = ":: "@ + kw;
    lemma_opening_form(core.take(core.len() - direct.len()) + direct, seg);
    let t = trim_end(core);
    if rfind(t, "::"@) is Some {
        let idx = rfind(t, "::"@)->0;
        let toks = words(trim(t.skip(idx + "::"@.len())));
        lemma_opening_form(t.take(idx) + ":: "@ + join_spaces(toks), seg);
    }
}

/// A line that the rewriting reports as opening a block ends, but for trailing whitespace,
/// in `{`.
pub proof fn law_block_leader_opens_with_brace(seg: Seq<char>)
    ensures
        block_leader(seg).1 ==> ends_with(trim_end(block_leader(seg).0), "{"@),
{
    if do_segment(seg) is Some {
        let conv = do_segment(seg)->0;
        lemma_arrow_block_opens(conv, ends_with(trim_end(conv), "{"@) && ends_with(trim_end(seg), "=> do"@));
    } else if attribute_args(seg) is Some {
    } else if struct_like_any(seg) is Some {
        let x = struct_like_any(seg)->0;
        lemma_struct_like_opens(seg, "struct"@);
        lemma_struct_like_opens(seg, "table"@);
        lemma_struct_like_opens(seg, "compose"@);
        lemma_struct_like_opens(seg, "db"@);
        lemma_struct_like_opens(seg, "enum"@);
        lemma_struct_like_opens(seg, "trait"@);
        lemma_arrow_block_opens(x, true);
    } else {
        let stripped = strip_blank_end(seg);
        let tws = blank_tail(seg);
        lemma_arrow_block_opens(seg, false);
        if colon_rewrite(stripped, tws) is Some {
            match block_colon(stripped) {
                None => {},
                Some(i) => {
                    let head = stripped.take(i);
                    let th = trim_end(head);
                    let ib = trim_start(stripped.skip(i + 1));
                    lemma_opening_form(th, seg);
                    lemma_arrow_block_opens(th + " {"@ + tws, true);
                    lemma_arrow_block_opens(th + " "@ + ib + tws, false);
                    if ib.len() > 0 && ib[0] != '{' {
                        lemma_arrow_block_opens(th + " {"@ + " "@ + inline_segment(ib) + " }"@ + tws, false);
                    }
                },
            }
        }
    }
}

/// Letters, digits, `_` and spaces only.
pub open spec fn plain_text(s: Seq<char>) -> bool {
    forall|i: int| 0 <= i < s.len() ==> is_ascii_alnum(#[trigger] s[i]) || s[i] == '_' || s[i] == ' '
}

/// The keywords of branches, loops, `unsafe`, `match` and `impl`, whose line ending in a
/// colon opens a block.
pub open spec fn colon_block_keyword(k: Seq<char>) -> bool {
    ||| k == "if"@ || k == "else"@ || k == "for"@ || k == "while"@ || k == "loop"@
    ||| k == "unsafe"@ || k == "match"@ || k == "impl"@
}

proof fn lemma_colon_at_end(s: Seq<char>, i: int)
    requires
        s.len() >= 2,
        0 <= i <= s.len() - 1,
        s.last() == ':',
        plain_text(s.drop_last()),
    ensures
        colon_from(s, i, 0, 0, 0) == Some(s.len() - 1),
    decreases s.len() - i,
{
    if i < s.len() - 1 {
        assert(s[i] == s.drop_last()[i]);
        lemma_colon_at_end(s, i + 1);
    } else {
        assert(s[i - 1] == s.drop_last()[i - 1]);
        assert(s.skip(i + 1).len() == 0);
    }
}

proof fn lemma_first_word(s: Seq<char>, i: int, m: int, cur: Seq<char>)
    requires
        0 <= i <= m < s.len(),
        forall|j: int| i <= j < m ==> !is_ws(#[trigger] s[j]),
        is_ws(s[m]),
        cur.len() + (m - i) > 0,
    ensures
        crate::text::words_from(s, i, cur).len() > 0,
        crate::text::words_from(s, i, cur)[0] == cur + s.subrange(i, m),
    decreases m - i,
{
    if i < m {
        lemma_first_word(s, i + 1, m, cur.push(s[i]));
        assert(cur.push(s[i]) + s.subrange(i + 1, m) =~= cur + s.subrange(i, m));
    } else {
        assert(cur + s.subrange(i, m) =~= cur);
    }
}

/// A line of a branch, loop, `unsafe`, `match` or `impl` ending in a colon, `K cond:` with a
/// plain condition, opens a block: it is rewritten to `K cond {`.
#[verifier::rlimit(40)]
pub proof fn law_keyword_colon_opens_block(k: Seq<char>, cond: Seq<char>)
    requires
        colon_block_keyword(k),
        plain_text(cond),
    ensures
        block_leader(k + " "@ + cond + ":"@) == (trim_end(k + " "@ + cond) + " {"@, true),
{
    reveal_strlit("if");
    reveal_strlit("for");
    reveal_strlit("while");
    reveal_strlit("loop");
    reveal_strlit("unsafe");
    reveal_strlit("match");
    reveal_strlit("else");
    reveal_strlit("impl");
    reveal_strlit(" ");
    reveal_strlit(":");
    reveal_strlit(" {");
    reveal_strlit("=> do");
    reveal_strlit("::");
    reveal_strlit("use ");
    reveal_strlit("pub use ");
    reveal_strlit(":: ");
    reveal_strlit("=>");
    let head = k + " "@ + cond;
    let seg = head + ":"@;
    let n = seg.len() as int;
    assert(k.len() > 0);
    assert(forall|j: int| 0 <= j < k.len() ==> is_ascii_alpha(#[trigger] k[j]));
    assert(plain_text(head)) by {
        assert forall|j: int| 0 <= j < head.len() implies is_ascii_alnum(#[trigger] head[j]) || head[j] == '_'
            || head[j] == ' ' by {
            if j < k.len() {
                assert(head[j] == k[j]);
            } else if j > k.len() {
                assert(head[j] == cond[j - k.len() - 1]);
            }
        }
    }
    assert(seg.drop_last() =~= head);
    assert(seg.last() == ':');
    assert(forall|j: int| 0 <= j < n - 1 ==> seg[j] == head[j]);
    // Nothing but the last character is a colon, an `=` or whitespace other than a space.
    assert(seg[0] == k[0]);
    // no `=> do`
    crate::text::lemma_find_from(seg, "=> do"@, 0);
    if find(seg, "=> do"@) is Some {
        let p = find(seg, "=> do"@)->0;
        assert(seg.subrange(p, p + 5)[0] == '=');
        assert(seg[p] == '=');
    }
    assert(do_segment(seg) is None);
    // the segment is its own core and trim
    assert(blank_back_from(seg, n) == n);
    assert(strip_blank_end(seg) =~= seg);
    assert(blank_tail(seg) =~= Seq::<char>::empty());
    assert(ws_skip_from(seg, 0) == 0);
    assert(trim_start(seg) =~= seg);
    assert(ws_back_from(seg, n) == n);
    assert(trim_end(seg) =~= seg);
    assert(attribute_args(seg) is None);
    // not struct-like
    assert(!starts_with(seg, "use "@)) by {
        if starts_with(seg, "use "@) {
            assert(seg.take(4)[0] == 'u' && seg.take(4)[2] == 'e');
            assert(seg[0] == 'u' && seg[2] == 'e');
            assert(k == "unsafe"@);
            assert(seg[2] == k[2]);
        }
    }
    assert(!starts_with(seg, "pub use "@)) by {
        if starts_with(seg, "pub use "@) {
            assert(seg.take(8)[0] == 'p');
        }
    }
    crate::text::lemma_rfind_from(seg, "::"@, n - 2);
    if rfind(seg, "::"@) is Some {
        let p = rfind(seg, "::"@)->0;
        assert(seg.subrange(p, p + 2)[0] == ':');
        assert(seg[p] == ':');
        assert(p < n - 1);
    }
    assert forall|kw: Seq<char>| kw.len() > 0 && is_ascii_alpha(kw.last()) implies #[trigger] struct_like(seg, kw) is None by {
        let direct = ":: "@ + kw;
        if ends_with(seg, direct) {
            assert(seg.skip(n - direct.len())[direct.len() - 1] == direct[direct.len() - 1]);
            assert(direct[direct.len() - 1] == kw.last());
        }
    }
    reveal_strlit("struct");
    reveal_strlit("table");
    reveal_strlit("compose");
    reveal_strlit("db");
    reveal_strlit("enum");
    reveal_strlit("trait");
    assert(struct_like(seg, "struct"@) is None);
    assert(struct_like(seg, "table"@) is None);
    assert(struct_like(seg, "compose"@) is None);
    assert(struct_like(seg, "db"@) is None);
    assert(struct_like(seg, "enum"@) is None);
    assert(struct_like(seg, "trait"@) is None);
    assert(struct_like_any(seg) is None);
    // the block colon is the last character
    lemma_colon_at_end(seg, 0);
    assert(block_colon(seg) == Some(n - 1));
    assert(seg.take(n - 1) =~= head);
    assert(seg.skip(n) =~= Seq::<char>::empty());
    // the head's first word is the keyword
    assert(ws_skip_from(head, 0) == 0);
    assert(trim_start(head) =~= head);
    assert(head[k.len() as int] == ' ');
    lemma_first_word(head, 0, k.len() as int, seq![]);
    assert(seq![] + head.subrange(0, k.len() as int) =~= k);
    assert(keyword_allows_block(head));
    let th = trim_end(head);
    assert(trim_start(Seq::<char>::empty()) =~= Seq::<char>::empty());
    assert(th + " {"@ + blank_tail(seg) =~= th + " {"@);
    let base = th + " {"@;
    assert(base.last() == '{');
    assert(blank_back_from(base, base.len() as int) == base.len());
    assert(strip_blank_end(base) =~= base);
    assert(ws_back_from(base, base.len() as int) == base.len());
    assert(trim_end(base) =~= base);
    assert(!ends_with(base, "=>"@)) by {
        if ends_with(base, "=>"@) {
            assert(base.skip(base.len() - 2)[1] == base.last());
        }
    }
    assert(arrow_block(base, true) == (base, true));
}

} // verus!
