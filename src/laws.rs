use vstd::prelude::*;
use crate::scanner::{
    TokenKind,
    byte_at,
    digits_end,
    ident_end,
    lex,
    lemma_scan_step_progress,
    number_end,
    scan_kinds,
    scan_step,
    skip_ws,
    string_end,
};

verus! {

/// A space, tab, carriage return or newline.
pub open spec fn is_blank(b: u8) -> bool {
    b == 32 || b == 13 || b == 9 || b == 10
}

/// From `i` on, `w` is spaces, tabs, carriage returns, newlines and `//`
/// comments, each comment closed by its newline. `comment` says that `i`
/// lies inside a comment.
pub open spec fn is_filler(w: Seq<u8>, i: int, comment: bool) -> bool
    decreases w.len() - i,
{
    if i < 0 || i >= w.len() {
        !comment && i == w.len()
    } else if comment {
        is_filler(w, i + 1, w[i] != 10)
    } else if is_blank(w[i]) {
        is_filler(w, i + 1, false)
    } else if w[i] == 47 && i + 1 < w.len() && w[i + 1] == 47 {
        is_filler(w, i + 2, true)
    } else {
        false
    }
}

proof fn lemma_skip_ws_line_free(s: Seq<u8>, p: int, l1: int, l2: int, comment: bool)
    ensures
        skip_ws(s, p, l1, comment).0 == skip_ws(s, p, l2, comment).0,
    decreases s.len() - p, (if comment { 1int } else { 0int }),
{
    if 0 <= p < s.len() {
        if comment {
            if s[p] == 10 {
                lemma_skip_ws_line_free(s, p, l1, l2, false);
            } else {
                lemma_skip_ws_line_free(s, p + 1, l1, l2, true);
            }
        } else if s[p] == 32 || s[p] == 13 || s[p] == 9 {
            lemma_skip_ws_line_free(s, p + 1, l1, l2, false);
        } else if s[p] == 10 {
            lemma_skip_ws_line_free(s, p + 1, l1 + 1, l2 + 1, false);
        } else if s[p] == 47 && byte_at(s, p + 1) == 47 {
            lemma_skip_ws_line_free(s, p + 2, l1, l2, true);
        }
    }
}

proof fn lemma_string_end_line_free(s: Seq<u8>, p: int, l1: int, l2: int)
    ensures
        string_end(s, p, l1).0 == string_end(s, p, l2).0,
    decreases s.len() - p,
{
    if 0 <= p < s.len() && s[p] != 34 {
        lemma_string_end_line_free(
            s,
            p + 1,
            if s[p] == 10 { l1 + 1 } else { l1 },
            if s[p] == 10 { l2 + 1 } else { l2 },
        );
    }
}

proof fn lemma_scan_step_line_free(s: Seq<u8>, c: int, l1: int, l2: int)
    requires
        0 <= c <= s.len(),
    ensures
        scan_step(s, c, l1).kind == scan_step(s, c, l2).kind,
        scan_step(s, c, l1).end == scan_step(s, c, l2).end,
{
    lemma_skip_ws_line_free(s, c, l1, l2, false);
    lemma_scan_step_progress(s, c, l1);
    let p = skip_ws(s, c, l1, false).0;
    if p < s.len() {
        lemma_string_end_line_free(
            s,
            p + 1,
            skip_ws(s, c, l1, false).1,
            skip_ws(s, c, l2, false).1,
        );
    }
}

/// The kinds of the tokens do not depend on the line the scan starts on.
proof fn lemma_scan_kinds_line_free(s: Seq<u8>, c: int, l1: int, l2: int)
    ensures
        scan_kinds(s, c, l1) == scan_kinds(s, c, l2),
    decreases s.len() - c,
{
    if 0 <= c <= s.len() {
        lemma_scan_step_line_free(s, c, l1, l2);
        lemma_scan_step_progress(s, c, l1);
        let t1 = scan_step(s, c, l1);
        let t2 = scan_step(s, c, l2);
        if t1.kind != TokenKind::Eof {
            lemma_scan_kinds_line_free(s, t1.end, t1.line, t2.line);
        }
    }
}

proof fn lemma_skip_ws_shift(w: Seq<u8>, s: Seq<u8>, p: int, line: int, comment: bool)
    requires
        0 <= p <= s.len(),
    ensures
        skip_ws(w + s, w.len() + p, line, comment) == (
            w.len() + skip_ws(s, p, line, comment).0,
            skip_ws(s, p, line, comment).1,
        ),
    decreases s.len() - p, (if comment { 1int } else { 0int }),
{
    let t = w + s;
    assert(byte_at(t, w.len() + p + 1) == byte_at(s, p + 1));
    if p < s.len() {
        assert(t[w.len() + p] == s[p]);
        if comment {
            if s[p] == 10 {
                lemma_skip_ws_shift(w, s, p, line, false);
            } else {
                lemma_skip_ws_shift(w, s, p + 1, line, true);
            }
        } else if s[p] == 32 || s[p] == 13 || s[p] == 9 {
            lemma_skip_ws_shift(w, s, p + 1, line, false);
        } else if s[p] == 10 {
            lemma_skip_ws_shift(w, s, p + 1, line + 1, false);
        } else if s[p] == 47 && byte_at(s, p + 1) == 47 {
            if p + 2 <= s.len() {
                lemma_skip_ws_shift(w, s, p + 2, line, true);
            }
        }
    }
}

proof fn lemma_digits_end_shift(w: Seq<u8>, s: Seq<u8>, p: int)
    requires
        0 <= p <= s.len(),
    ensures
        digits_end(w + s, w.len() + p) == w.len() + digits_end(s, p),
    decreases s.len() - p,
{
    if p < s.len() {
        assert((w + s)[w.len() + p] == s[p]);
        lemma_digits_end_shift(w, s, p + 1);
    }
}

proof fn lemma_ident_end_shift(w: Seq<u8>, s: Seq<u8>, p: int)
    requires
        0 <= p <= s.len(),
    ensures
        ident_end(w + s, w.len() + p) == w.len() + ident_end(s, p),
    decreases s.len() - p,
{
    if p < s.len() {
        assert((w + s)[w.len() + p] == s[p]);
        lemma_ident_end_shift(w, s, p + 1);
    }
}

proof fn lemma_string_end_shift(w: Seq<u8>, s: Seq<u8>, p: int, line: int)
    requires
        0 <= p <= s.len(),
    ensures
        string_end(w + s, w.len() + p, line) == (
            w.len() + string_end(s, p, line).0,
            string_end(s, p, line).1,
        ),
    decreases s.len() - p,
{
    if p < s.len() {
        assert((w + s)[w.len() + p] == s[p]);
        lemma_string_end_shift(w, s, p + 1, if s[p] == 10 { line + 1 } else { line });
    }
}

proof fn lemma_scan_step_shift(w: Seq<u8>, s: Seq<u8>, c: int, line: int)
    requires
        0 <= c <= s.len(),
    ensures
        scan_step(w + s, w.len() + c, line).kind == scan_step(s, c, line).kind,
        scan_step(w + s, w.len() + c, line).end == w.len() + scan_step(s, c, line).end,
        scan_step(w + s, w.len() + c, line).line == scan_step(s, c, line).line,
{
    let t = w + s;
    let k = w.len() as int;
    lemma_skip_ws_shift(w, s, c, line, false);
    lemma_scan_step_progress(s, c, line);
    let (p, l) = skip_ws(s, c, line, false);
    if p < s.len() {
        assert(t[k + p] == s[p]);
        assert(byte_at(t, k + p + 1) == byte_at(s, p + 1));
        lemma_digits_end_shift(w, s, p + 1);
        lemma_ident_end_shift(w, s, p + 1);
        lemma_string_end_shift(w, s, p + 1, l);
        let q = digits_end(s, p + 1);
        crate::scanner::lemma_digits_end_bounds(s, p + 1);
        assert(byte_at(t, k + q) == byte_at(s, q));
        assert(byte_at(t, k + q + 1) == byte_at(s, q + 1));
        if q + 1 <= s.len() {
            lemma_digits_end_shift(w, s, q + 1);
        }
        crate::scanner::lemma_ident_end_bounds(s, p + 1);
        let e = ident_end(s, p + 1);
        assert(t.subrange(k + p, k + e) =~= s.subrange(p, e));
    }
}

proof fn lemma_scan_kinds_shift(w: Seq<u8>, s: Seq<u8>, c: int, line: int)
    requires
        0 <= c <= s.len(),
    ensures
        scan_kinds(w + s, w.len() + c, line) == scan_kinds(s, c, line),
    decreases s.len() - c,
{
    lemma_scan_step_shift(w, s, c, line);
    lemma_scan_step_progress(s, c, line);
    let t = scan_step(s, c, line);
    if t.kind != TokenKind::Eof {
        lemma_scan_kinds_shift(w, s, t.end, t.line);
    }
}

proof fn lemma_filler_skipped(t: Seq<u8>, w: Seq<u8>, i: int, line: int, comment: bool)
    requires
        0 <= i <= w.len() <= t.len(),
        forall|j: int| 0 <= j < w.len() ==> t[j] == #[trigger] w[j],
        is_filler(w, i, comment),
    ensures
        skip_ws(t, i, line, comment).0 == skip_ws(t, w.len() as int, line, false).0,
    decreases w.len() - i,
{
    let k = w.len() as int;
    if i < k {
        assert(t[i] == w[i]);
        if i + 1 < k {
            assert(t[i + 1] == w[i + 1]);
        }
        if comment {
            if w[i] == 10 {
                assert(skip_ws(t, i, line, true) == skip_ws(t, i, line, false));
                assert(skip_ws(t, i, line, false) == skip_ws(t, i + 1, line + 1, false));
                lemma_filler_skipped(t, w, i + 1, line + 1, false);
                lemma_skip_ws_line_free(t, k, line + 1, line, false);
            } else {
                lemma_filler_skipped(t, w, i + 1, line, true);
            }
        } else if is_blank(w[i]) {
            let l2 = if w[i] == 10 { line + 1 } else { line };
            lemma_filler_skipped(t, w, i + 1, l2, false);
            lemma_skip_ws_line_free(t, k, l2, line, false);
        } else {
            lemma_filler_skipped(t, w, i + 2, line, true);
        }
    }
}

/// Spaces, tabs, carriage returns, newlines and whole `//` comments put
/// before a source do not change the kinds of the tokens it scans to.
pub proof fn lemma_leading_filler_keeps_kinds(w: Seq<u8>, s: Seq<u8>, line: int)
    requires
        is_filler(w, 0, false),
    ensures
        scan_kinds(w + s, 0, line) == scan_kinds(s, 0, line),
{
    let t = w + s;
    let k = w.len() as int;
    assert forall|j: int| 0 <= j < k implies t[j] == #[trigger] w[j] by {
        assert(t[j] == w[j]);
    }
    lemma_filler_skipped(t, w, 0, line, false);
    lemma_scan_step_line_free(t, 0, line, line);
    // Both scans start their first token at the same place.
    lemma_skip_ws_line_free(t, 0, line, line, false);
    lemma_scan_kinds_shift(w, s, 0, line);
    lemma_same_start_same_kinds(t, 0, k, line);
}

proof fn lemma_same_start_same_kinds(t: Seq<u8>, c1: int, c2: int, line: int)
    requires
        0 <= c1 <= c2 <= t.len(),
        skip_ws(t, c1, line, false).0 == skip_ws(t, c2, line, false).0,
    ensures
        scan_kinds(t, c1, line) == scan_kinds(t, c2, line),
{
    let s1 = scan_step(t, c1, line);
    let s2 = scan_step(t, c2, line);
    lemma_scan_step_progress(t, c1, line);
    lemma_scan_step_progress(t, c2, line);
    let p = skip_ws(t, c1, line, false).0;
    let (_, la) = skip_ws(t, c1, line, false);
    let (_, lb) = skip_ws(t, c2, line, false);
    if p < t.len() {
        lemma_string_end_line_free(t, p + 1, la, lb);
    }
    assert(s1.kind == s2.kind);
    assert(s1.end == s2.end);
    if s1.kind != TokenKind::Eof {
        lemma_scan_kinds_line_free(t, s1.end, s1.line, s2.line);
    }
}

/// `s` and `s2` agree below `k`, and `s2` has at `k` a blank, or a slash that
/// does not follow one: `s2` is `s` with filler put in at `k`, as far as
/// anything below `k` can tell.
pub open spec fn agree_below(s: Seq<u8>, s2: Seq<u8>, k: int) -> bool {
    &&& 0 <= k <= s.len()
    &&& k < s2.len()
    &&& (is_blank(s2[k]) || (s2[k] == 47 && (k == 0 || s[k - 1] != 47)))
    &&& forall|i: int| 0 <= i < k ==> s[i] == #[trigger] s2[i]
}

proof fn lemma_digits_local(s: Seq<u8>, s2: Seq<u8>, k: int, p: int)
    requires
        agree_below(s, s2, k),
        0 <= p <= k,
        digits_end(s, p) <= k,
    ensures
        digits_end(s2, p) == digits_end(s, p),
    decreases k - p,
{
    crate::scanner::lemma_digits_end_bounds(s, p);
    if p < k {
        assert(s[p] == s2[p]);
        if crate::scanner::is_digit(s[p]) {
            lemma_digits_local(s, s2, k, p + 1);
        }
    }
}

proof fn lemma_ident_local(s: Seq<u8>, s2: Seq<u8>, k: int, p: int)
    requires
        agree_below(s, s2, k),
        0 <= p <= k,
        ident_end(s, p) <= k,
    ensures
        ident_end(s2, p) == ident_end(s, p),
    decreases k - p,
{
    crate::scanner::lemma_ident_end_bounds(s, p);
    if p < k {
        assert(s[p] == s2[p]);
        if crate::scanner::is_alpha(s[p]) || crate::scanner::is_digit(s[p]) {
            lemma_ident_local(s, s2, k, p + 1);
        }
    }
}

proof fn lemma_string_local(s: Seq<u8>, s2: Seq<u8>, k: int, p: int, line: int)
    requires
        agree_below(s, s2, k),
        0 <= p <= k,
        string_end(s, p, line).0 < k,
    ensures
        string_end(s2, p, line) == string_end(s, p, line),
    decreases k - p,
{
    crate::scanner::lemma_string_end_bounds(s, p, line);
    assert(s[p] == s2[p]);
    if s[p] != 34 {
        lemma_string_local(s, s2, k, p + 1, if s[p] == 10 { line + 1 } else { line });
    }
}

proof fn lemma_skip_ws_local(s: Seq<u8>, s2: Seq<u8>, k: int, c: int, line: int, comment: bool)
    requires
        agree_below(s, s2, k),
        0 <= c <= k,
        skip_ws(s, c, line, comment).0 < k,
    ensures
        skip_ws(s2, c, line, comment) == skip_ws(s, c, line, comment),
    decreases s.len() - c, (if comment { 1int } else { 0int }),
{
    crate::scanner::lemma_skip_ws_bounds(s, c, line, comment);
    assert(s[c] == s2[c]);
    if comment {
        if s[c] == 10 {
            lemma_skip_ws_local(s, s2, k, c, line, false);
        } else {
            crate::scanner::lemma_skip_ws_bounds(s, c + 1, line, true);
            lemma_skip_ws_local(s, s2, k, c + 1, line, true);
        }
    } else if s[c] == 32 || s[c] == 13 || s[c] == 9 {
        crate::scanner::lemma_skip_ws_bounds(s, c + 1, line, false);
        lemma_skip_ws_local(s, s2, k, c + 1, line, false);
    } else if s[c] == 10 {
        crate::scanner::lemma_skip_ws_bounds(s, c + 1, line + 1, false);
        lemma_skip_ws_local(s, s2, k, c + 1, line + 1, false);
    } else if s[c] == 47 && byte_at(s, c + 1) == 47 {
        crate::scanner::lemma_skip_ws_bounds(s, c + 2, line, true);
        assert(s[c + 1] == s2[c + 1]);
        lemma_skip_ws_local(s, s2, k, c + 2, line, true);
    } else if s[c] == 47 {
        if c + 1 < k {
            assert(s[c + 1] == s2[c + 1]);
        }
    }
}

proof fn lemma_lex_local(s: Seq<u8>, s2: Seq<u8>, k: int, p: int, line: int)
    requires
        agree_below(s, s2, k),
        k < s.len(),
        0 <= p < k,
        lex(s, p, line).end <= k,
    ensures
        lex(s2, p, line) == lex(s, p, line),
{
    let c = s[p];
    assert(s[p] == s2[p]);
    if p + 1 < k {
        assert(s[p + 1] == s2[p + 1]);
    }
    crate::scanner::lemma_digits_end_bounds(s, p + 1);
    crate::scanner::lemma_ident_end_bounds(s, p + 1);
    crate::scanner::lemma_string_end_bounds(s, p + 1, line);
    if crate::scanner::is_digit(c) {
        let q = digits_end(s, p + 1);
        if byte_at(s, q) == 46 && crate::scanner::is_digit(byte_at(s, q + 1)) {
            crate::scanner::lemma_digits_end_bounds(s, q + 1);
            if q + 1 == k {
                crate::scanner::lemma_digits_end_bounds(s, q + 2);
            }
        }
        assert(q <= number_end(s, p + 1));
        lemma_digits_local(s, s2, k, p + 1);
        if q < k {
            assert(s[q] == s2[q]);
            if q + 1 < k {
                assert(s[q + 1] == s2[q + 1]);
            }
            if byte_at(s, q) == 46 && crate::scanner::is_digit(byte_at(s, q + 1)) {
                if q + 1 < k {
                    lemma_digits_local(s, s2, k, q + 1);
                } else {
                    crate::scanner::lemma_digits_end_bounds(s, q + 2);
                }
            }
        } else {
            if byte_at(s, q) == 46 && crate::scanner::is_digit(byte_at(s, q + 1)) {
                crate::scanner::lemma_digits_end_bounds(s, q + 2);
            }
        }
    } else if crate::scanner::is_alpha(c) {
        let e = ident_end(s, p + 1);
        lemma_ident_local(s, s2, k, p + 1);
        assert(s.subrange(p, e) =~= s2.subrange(p, e));
    } else if c == 34 {
        let (q, l) = string_end(s, p + 1, line);
        if q < s.len() {
            lemma_string_local(s, s2, k, p + 1, line);
        }
    }
}

proof fn lemma_scan_step_local(s: Seq<u8>, s2: Seq<u8>, k: int, c: int, line: int)
    requires
        agree_below(s, s2, k),
        k < s.len(),
        0 <= c <= k,
        scan_step(s, c, line).kind != TokenKind::Eof,
        scan_step(s, c, line).end <= k,
    ensures
        scan_step(s2, c, line) == scan_step(s, c, line),
{
    lemma_scan_step_progress(s, c, line);
    let (p, l) = skip_ws(s, c, line, false);
    lemma_skip_ws_local(s, s2, k, c, line, false);
    lemma_lex_local(s, s2, k, p, l);
}

/// The scanner, started at `c` on `line`, comes to rest at `x` after some
/// tokens: `x` lies between two tokens (or is `c` itself).
pub open spec fn reaches(s: Seq<u8>, c: int, line: int, x: int) -> bool
    decreases s.len() - c,
    via reaches_decreases
{
    if c == x {
        true
    } else if c < 0 || c > s.len() || c > x {
        false
    } else {
        let t = scan_step(s, c, line);
        t.kind != TokenKind::Eof && reaches(s, t.end, t.line, x)
    }
}

#[via_fn]
proof fn reaches_decreases(s: Seq<u8>, c: int, line: int, x: int) {
    if 0 <= c <= s.len() {
        lemma_scan_step_progress(s, c, line);
    }
}

proof fn lemma_reaches_bound(s: Seq<u8>, c: int, line: int, x: int)
    requires
        reaches(s, c, line, x),
    ensures
        c <= x,
{
}

proof fn lemma_insert_from(s: Seq<u8>, s2: Seq<u8>, a: Seq<u8>, w: Seq<u8>, b: Seq<u8>, c: int, line: int)
    requires
        s == a + b,
        s2 == a + w + b,
        w.len() > 0,
        b.len() > 0,
        is_filler(w, 0, false),
        w[0] == 47 && a.len() > 0 ==> a.last() != 47,
        0 <= c <= a.len(),
        reaches(s, c, line, a.len() as int),
    ensures
        scan_kinds(s2, c, line) == scan_kinds(s, c, line),
    decreases a.len() - c,
{
    let k = a.len() as int;
    if c == k {
        assert(s2 =~= a + (w + b));
        lemma_scan_kinds_shift(a, w + b, 0, line);
        lemma_leading_filler_keeps_kinds(w, b, line);
        lemma_scan_kinds_shift(a, b, 0, line);
    } else {
        let t = scan_step(s, c, line);
        lemma_scan_step_progress(s, c, line);
        lemma_reaches_bound(s, t.end, t.line, k);
        assert(s2[k] == w[0]);
        if k > 0 {
            assert(s[k - 1] == a.last());
        }
        assert forall|i: int| 0 <= i < k implies s[i] == #[trigger] s2[i] by {
            assert(s[i] == a[i]);
            assert(s2[i] == a[i]);
        }
        assert(agree_below(s, s2, k));
        lemma_scan_step_local(s, s2, k, c, line);
        lemma_insert_from(s, s2, a, w, b, t.end, t.line);
    }
}

/// Spaces, tabs, carriage returns, newlines and whole `//` comments put in
/// between two tokens do not change the kinds of the tokens a source scans
/// to. `a.len()` lies between two tokens of `a + b` when a scan of `a + b`
/// comes to rest there, and some source follows it. The one exception: a
/// comment put right after a `/` would join it into a longer comment.
pub proof fn lemma_filler_between_tokens_keeps_kinds(
    a: Seq<u8>,
    w: Seq<u8>,
    b: Seq<u8>,
    line: int,
)
    requires
        is_filler(w, 0, false),
        w.len() > 0 && w[0] == 47 && a.len() > 0 ==> a.last() != 47,
        b.len() > 0,
        reaches(a + b, 0, line, a.len() as int),
    ensures
        scan_kinds(a + w + b, 0, line) == scan_kinds(a + b, 0, line),
{
    if w.len() == 0 {
        assert(a + w + b =~= a + b);
    } else {
        lemma_insert_from(a + b, a + w + b, a, w, b, 0, line);
    }
}

} // verus!
