//! The output post-processor: an ordered pipeline of text transforms that
//! turns raw captured help output into safely displayable markup.
//!
//! The order is a contract: raw text is clamped first; terminal escape
//! sequences become markup next; then bracket-delimited web addresses become
//! links; then flag-like tokens and all-uppercase words are highlighted.
//! The two highlight passes skip everything between `<` and `>`, so they
//! never re-match text inside markup inserted by an earlier pass.
use vstd::prelude::*;

use crate::textutil::chars_of;
use crate::textutil::is_blank_char;
use crate::textutil::push_str_chars;
use crate::textutil::string_of;

verus! {

/// The most characters kept of raw captured output before any transform.
pub const HELP_MAX_CHARS: usize = 30000;

/// The shortest output accepted as genuine help text.
pub const MIN_HELP_LENGTH: usize = 50;

// ---------------------------------------------------------------------------
// Clamping and stream selection
// ---------------------------------------------------------------------------
/// The text cut to at most `max` characters.
pub open spec fn clamp_spec(s: Seq<char>, max: int) -> Seq<char> {
    if s.len() <= max {
        s
    } else {
        s.take(max)
    }
}

/// Cut a text to at most `max` characters; transforms run on clamped text
/// only, so a huge output cannot drive rendering cost.
pub fn clamp_text(s: &str, max: usize) -> (r: String)
    ensures
        r@ == clamp_spec(s@, max as int),
{
    let v = chars_of(s);
    if v.len() <= max {
        let mut out: Vec<char> = Vec::new();
        crate::textutil::push_all(&mut out, &v);
        string_of(&out)
    } else {
        let mut out: Vec<char> = Vec::new();
        for i in 0..max
            invariant
                max < v.len(),
                v@ == s@,
                out@ == s@.take(i as int),
        {
            out.push(v[i]);
            proof {
                assert(s@.take(i as int).push(s@[i as int]) =~= s@.take(i + 1));
            }
        }
        string_of(&out)
    }
}

/// Which captured stream carries the help text: stdout when it is not
/// empty (clamped), else stderr verbatim.
pub fn select_output(stdout: &str, stderr: &str) -> (r: String)
    ensures
        stdout@.len() > 0 ==> r@ == clamp_spec(stdout@, HELP_MAX_CHARS as int),
        stdout@.len() == 0 ==> r@ == stderr@,
{
    if !stdout.is_empty() {
        clamp_text(stdout, HELP_MAX_CHARS)
    } else {
        stderr.to_owned()
    }
}

/// Whether an output is long enough to be accepted as help.
pub fn accept_help(output: &str) -> (r: bool)
    ensures
        r == (output@.len() >= MIN_HELP_LENGTH),
{
    let v = chars_of(output);
    v.len() >= MIN_HELP_LENGTH
}

// ---------------------------------------------------------------------------
// Escape sequences to markup
// ---------------------------------------------------------------------------
/// A decimal digit.
pub open spec fn is_digit_char(c: char) -> bool {
    48 <= c as u32 <= 57
}

/// The leading run of digits.
pub open spec fn take_digits(s: Seq<char>) -> Seq<char>
    decreases s.len(),
{
    if s.len() > 0 && is_digit_char(s[0]) {
        seq![s[0]] + take_digits(s.drop_first())
    } else {
        Seq::empty()
    }
}

/// What [`take_digits`] returns: the maximal digit prefix.
pub proof fn lemma_take_digits(s: Seq<char>)
    ensures
        take_digits(s).len() <= s.len(),
        take_digits(s) == s.take(take_digits(s).len() as int),
        forall|j: int| 0 <= j < take_digits(s).len() ==> is_digit_char(s[j]),
        take_digits(s).len() < s.len() ==> !is_digit_char(s[take_digits(s).len() as int]),
    decreases s.len(),
{
    if s.len() > 0 && is_digit_char(s[0]) {
        lemma_take_digits(s.drop_first());
        let t = take_digits(s.drop_first());
        assert(take_digits(s) =~= s.take(t.len() as int + 1));
        assert forall|j: int| 0 <= j < take_digits(s).len() implies is_digit_char(s[j]) by {
            if j > 0 {
                assert(is_digit_char(s.drop_first()[j - 1]));
            }
        }
    }
}

/// A parameter run that means "reset": empty or all zeroes.
pub open spec fn all_zero(d: Seq<char>) -> bool {
    forall|i: int| 0 <= i < d.len() ==> d[i] == '0'
}

/// Terminal escape sequences turned into markup: a select-graphic-rendition
/// sequence with one numeric parameter opens `<span class="ansi-N">`, a
/// reset (empty or zero parameter) closes it with `</span>`, and a stray
/// escape byte is dropped so no raw control byte reaches the display.
pub open spec fn ansi_spec(s: Seq<char>) -> Seq<char>
    decreases s.len(),
{
    if s.len() == 0 {
        Seq::empty()
    } else if s[0] == '\u{1b}' {
        if s.len() >= 2 && s[1] == '[' {
            let d = take_digits(s.subrange(2, s.len() as int));
            let mi = 2 + d.len() as int;
            if mi < s.len() && s[mi] == 'm' {
                (if all_zero(d) {
                    "</span>"@
                } else {
                    "<span class=\"ansi-"@ + d + "\">"@
                }) + ansi_spec(s.subrange(mi + 1, s.len() as int))
            } else {
                ansi_spec(s.drop_first())
            }
        } else {
            ansi_spec(s.drop_first())
        }
    } else {
        seq![s[0]] + ansi_spec(s.drop_first())
    }
}

/// Exec twin of [`ansi_spec`].
pub fn ansi_to_markup(s: &str) -> (r: String)
    ensures
        r@ == ansi_spec(s@),
{
    let v = chars_of(s);
    let n = v.len();
    let mut out: Vec<char> = Vec::new();
    let mut p: usize = 0;
    proof {
        assert(s@.subrange(0, n as int) =~= s@);
        assert(Seq::<char>::empty() + ansi_spec(s@) =~= ansi_spec(s@));
    }
    while p < n
        invariant
            n == v.len(),
            v@ == s@,
            0 <= p <= n,
            ansi_spec(s@) == out@ + ansi_spec(s@.subrange(p as int, n as int)),
        decreases n - p,
    {
        let ghost rest = s@.subrange(p as int, n as int);
        proof {
            assert(rest[0] == s@[p as int]);
            assert(rest.drop_first() =~= s@.subrange(p as int + 1, n as int));
        }
        let ghost out0 = out@;
        let c = v[p];
        if c == '\u{1b}' && p + 1 < n && v[p + 1] == '[' {
            // scan the parameter digits
            let mut q = p + 2;
            while q < n && 48 <= (v[q] as u32) && (v[q] as u32) <= 57
                invariant
                    n == v.len(),
                    v@ == s@,
                    p + 2 <= q <= n,
                    forall|j: int| p + 2 <= j < q ==> is_digit_char(s@[j]),
                decreases n - q,
            {
                q += 1;
            }
            let ghost after = rest.subrange(2, rest.len() as int);
            proof {
                lemma_take_digits(after);
                assert(after =~= s@.subrange(p as int + 2, n as int));
                let k = take_digits(after).len() as int;
                assert forall|j: int| 0 <= j < q - p - 2 implies is_digit_char(#[trigger] after[j]) by {
                    assert(after[j] == s@[j + p + 2]);
                }
                if k < q - p - 2 {
                    assert(!is_digit_char(after[k]));
                    assert(is_digit_char(after[k]));
                }
                if k > q - p - 2 {
                    assert(q < n);
                    assert(is_digit_char(after[q - p - 2]));
                    assert(!is_digit_char(s@[q as int]));
                }
                assert(k == q - p - 2);
                assert(take_digits(after) =~= s@.subrange(p as int + 2, q as int));
            }
            if q < n && v[q] == 'm' {
                // a complete select-graphic-rendition sequence
                let mut zero = true;
                let mut z = p + 2;
                while z < q
                    invariant
                        p + 2 <= z <= q <= n,
                        n == v.len(),
                        v@ == s@,
                        zero <==> (forall|j: int| p + 2 <= j < z ==> s@[j] == '0'),
                    decreases q - z,
                {
                    let ghost zero0 = zero;
                    if v[z] != '0' {
                        zero = false;
                    }
                    proof {
                        if zero {
                            assert forall|j: int| p + 2 <= j < z + 1 implies s@[j] == '0' by {
                                if j < z {
                                } else {
                                    assert(s@[z as int] == '0');
                                }
                            }
                        } else {
                            if zero0 {
                                assert(s@[z as int] != '0');
                            } else {
                                let w = choose|j: int| p + 2 <= j < z && s@[j] != '0';
                                assert(p + 2 <= w < z + 1 && s@[w] != '0');
                            }
                        }
                    }
                    z += 1;
                }
                proof {
                    let d = take_digits(rest.subrange(2, rest.len() as int));
                    assert(d =~= s@.subrange(p as int + 2, q as int));
                    assert(zero == all_zero(d)) by {
                        if zero {
                            assert forall|i: int| 0 <= i < d.len() implies d[i] == '0' by {
                                assert(d[i] == s@[p + 2 + i]);
                            }
                        } else {
                            let w = choose|j: int| p + 2 <= j < q && s@[j] != '0';
                            assert(d[w - p - 2] != '0');
                        }
                    }
                }
                let ghost d = take_digits(rest.subrange(2, rest.len() as int));
                if zero {
                    push_str_chars(&mut out, "</span>");
                    proof {
                        assert(out@ =~= out0 + "</span>"@);
                    }
                } else {
                    push_str_chars(&mut out, "<span class=\"ansi-");
                    let ghost base = out@;
                    let mut w = p + 2;
                    while w < q
                        invariant
                            p + 2 <= w <= q <= n,
                            n == v.len(),
                            v@ == s@,
                            out@ == base + s@.subrange(p as int + 2, w as int),
                        decreases q - w,
                    {
                        out.push(v[w]);
                        proof {
                            assert(s@.subrange(p as int + 2, w as int).push(s@[w as int])
                                =~= s@.subrange(p as int + 2, w as int + 1));
                        }
                        w += 1;
                    }
                    push_str_chars(&mut out, "\">");
                    proof {
                        assert(s@.subrange(p as int + 2, q as int) == d);
                        assert(out@ =~= out0 + ("<span class=\"ansi-"@ + d + "\">"@));
                    }
                }
                proof {
                    let mi = 2 + d.len() as int;
                    assert(rest[mi] == 'm');
                    assert(rest.subrange(mi + 1, rest.len() as int) =~= s@.subrange(
                        q as int + 1,
                        n as int,
                    ));
                    let markup = if all_zero(d) {
                        "</span>"@
                    } else {
                        "<span class=\"ansi-"@ + d + "\">"@
                    };
                    assert(ansi_spec(rest) == markup + ansi_spec(
                        s@.subrange(q as int + 1, n as int),
                    ));
                    assert(out0 + (markup + ansi_spec(s@.subrange(q as int + 1, n as int)))
                        =~= out@ + ansi_spec(s@.subrange(q as int + 1, n as int)));
                }
                p = q + 1;
            } else {
                proof {
                    let d = take_digits(rest.subrange(2, rest.len() as int));
                    let mi = 2 + d.len() as int;
                    assert(mi >= rest.len() || rest[mi] != 'm');
                    assert(ansi_spec(rest) == ansi_spec(rest.drop_first()));
                }
                p = p + 1;
            }
        } else if c == '\u{1b}' {
            proof {
                assert(rest.len() < 2 || rest[1] != '[');
                assert(ansi_spec(rest) == ansi_spec(rest.drop_first()));
            }
            p = p + 1;
        } else {
            out.push(c);
            p = p + 1;
        }
    }
    proof {
        assert(s@.subrange(n as int, n as int) =~= Seq::<char>::empty());
        assert(out@ + Seq::<char>::empty() =~= out@);
    }
    string_of(&out)
}

// ---------------------------------------------------------------------------
// Bracketed web addresses to links
// ---------------------------------------------------------------------------
/// A character that may stand inside a bracketed address: anything but a
/// blank or the closing bracket.
pub open spec fn is_url_char(c: char) -> bool {
    !is_blank_char(c) && c != '>'
}

/// The leading run of address characters.
pub open spec fn take_url(s: Seq<char>) -> Seq<char>
    decreases s.len(),
{
    if s.len() > 0 && is_url_char(s[0]) {
        seq![s[0]] + take_url(s.drop_first())
    } else {
        Seq::empty()
    }
}

/// What [`take_url`] returns: the maximal address prefix.
pub proof fn lemma_take_url(s: Seq<char>)
    ensures
        take_url(s).len() <= s.len(),
        take_url(s) == s.take(take_url(s).len() as int),
        forall|j: int| 0 <= j < take_url(s).len() ==> is_url_char(s[j]),
        take_url(s).len() < s.len() ==> !is_url_char(s[take_url(s).len() as int]),
    decreases s.len(),
{
    if s.len() > 0 && is_url_char(s[0]) {
        lemma_take_url(s.drop_first());
        let t = take_url(s.drop_first());
        assert(take_url(s) =~= s.take(t.len() as int + 1));
        assert forall|j: int| 0 <= j < take_url(s).len() implies is_url_char(s[j]) by {
            if j > 0 {
                assert(is_url_char(s.drop_first()[j - 1]));
            }
        }
    }
}

/// Whether `s` starts with `p`.
pub open spec fn starts_with(s: Seq<char>, p: Seq<char>) -> bool {
    s.len() >= p.len() && s.take(p.len() as int) == p
}

/// Length of the web scheme `s` opens with, or zero.
pub open spec fn url_scheme_len(s: Seq<char>) -> int {
    if starts_with(s, "https://"@) {
        8
    } else if starts_with(s, "http://"@) {
        7
    } else {
        0
    }
}

/// Bracket-delimited web addresses turned into links: `<scheme…>` becomes
/// `<a href="scheme…" class="man-link">scheme…</a>`; a bracket not opening
/// a complete address is kept as it is.
pub open spec fn urls_spec(s: Seq<char>) -> Seq<char>
    decreases s.len(),
{
    if s.len() == 0 {
        Seq::empty()
    } else if s[0] == '<' {
        let rest = s.drop_first();
        let pl = url_scheme_len(rest);
        let body = take_url(rest.subrange(pl, rest.len() as int));
        let ul = pl + body.len() as int;
        if pl > 0 && body.len() > 0 && 0 <= ul < rest.len() && rest[ul] == '>' {
            let u = rest.take(ul);
            "<a href=\""@ + u + "\" class=\"man-link\">"@ + u + "</a>"@ + urls_spec(
                rest.subrange(ul + 1, rest.len() as int),
            )
        } else {
            seq!['<'] + urls_spec(rest)
        }
    } else {
        seq![s[0]] + urls_spec(s.drop_first())
    }
}

/// Copy the characters of `v` between `a` and `b` to the end of `out`.
fn push_range(out: &mut Vec<char>, v: &Vec<char>, a: usize, b: usize)
    requires
        a <= b <= v@.len(),
    ensures
        final(out)@ == old(out)@ + v@.subrange(a as int, b as int),
{
    let mut w = a;
    while w < b
        invariant
            a <= w <= b <= v@.len(),
            out@ == old(out)@ + v@.subrange(a as int, w as int),
        decreases b - w,
    {
        out.push(v[w]);
        proof {
            assert(v@.subrange(a as int, w as int).push(v@[w as int]) =~= v@.subrange(
                a as int,
                w as int + 1,
            ));
        }
        w += 1;
    }
}

/// The scheme length at offset `start` of `v`, as [`url_scheme_len`] sees
/// the suffix.
fn scheme_len_at(v: &Vec<char>, start: usize) -> (r: usize)
    requires
        start <= v@.len(),
    ensures
        r as int == url_scheme_len(v@.subrange(start as int, v@.len() as int)),
        start + r <= v@.len(),
{
    let n = v.len();
    let ghost rest = v@.subrange(start as int, n as int);
    proof {
        reveal_strlit("https://");
        reveal_strlit("http://");
    }
    if n - start >= 8 && v[start] == 'h' && v[start + 1] == 't' && v[start + 2] == 't' && v[start
        + 3] == 'p' && v[start + 4] == 's' && v[start + 5] == ':' && v[start + 6] == '/' && v[start
        + 7] == '/' {
        proof {
            assert(rest.take(8) =~= "https://"@);
        }
        8
    } else if n - start >= 7 && v[start] == 'h' && v[start + 1] == 't' && v[start + 2] == 't'
        && v[start + 3] == 'p' && v[start + 4] == ':' && v[start + 5] == '/' && v[start + 6]
        == '/' {
        proof {
            if starts_with(rest, "https://"@) {
                assert(rest.take(8)[4] == rest[4]);
                assert(rest[4] == 's');
                assert(false);
            }
            assert(rest.take(7) =~= "http://"@);
        }
        7
    } else {
        proof {
            if starts_with(rest, "https://"@) {
                assert(forall|j: int| 0 <= j < 8 ==> rest.take(8)[j] == rest[j]);
                assert(rest[0] == 'h' && rest[1] == 't' && rest[2] == 't' && rest[3] == 'p'
                    && rest[4] == 's' && rest[5] == ':' && rest[6] == '/' && rest[7] == '/');
                assert(false);
            }
            if starts_with(rest, "http://"@) {
                assert(forall|j: int| 0 <= j < 7 ==> rest.take(7)[j] == rest[j]);
                assert(rest[0] == 'h' && rest[1] == 't' && rest[2] == 't' && rest[3] == 'p'
                    && rest[4] == ':' && rest[5] == '/' && rest[6] == '/');
                assert(false);
            }
        }
        0
    }
}

/// Exec twin of [`urls_spec`].
#[verifier::rlimit(100)]
pub fn mark_urls(s: &str) -> (r: String)
    ensures
        r@ == urls_spec(s@),
{
    let v = chars_of(s);
    let n = v.len();
    let mut out: Vec<char> = Vec::new();
    let mut p: usize = 0;
    proof {
        assert(s@.subrange(0, n as int) =~= s@);
        assert(Seq::<char>::empty() + urls_spec(s@) =~= urls_spec(s@));
    }
    while p < n
        invariant
            n == v.len(),
            v@ == s@,
            0 <= p <= n,
            urls_spec(s@) == out@ + urls_spec(s@.subrange(p as int, n as int)),
        decreases n - p,
    {
        let ghost whole = s@.subrange(p as int, n as int);
        proof {
            assert(whole[0] == s@[p as int]);
            assert(whole.drop_first() =~= s@.subrange(p as int + 1, n as int));
        }
        let ghost out0 = out@;
        let c = v[p];
        if c == '<' {
            let ghost rest = whole.drop_first();
            let pl = scheme_len_at(&v, p + 1);
            proof {
                assert(rest =~= v@.subrange(p as int + 1, n as int));
            }
            if pl > 0 {
                let bstart = p + 1 + pl;
                let mut q = bstart;
                while q < n && !crate::textutil::blank_char(v[q]) && v[q] != '>'
                    invariant
                        bstart <= q <= n,
                        n == v.len(),
                        v@ == s@,
                        forall|j: int| bstart <= j < q ==> is_url_char(s@[j]),
                    decreases n - q,
                {
                    q += 1;
                }
                let ghost after = rest.subrange(pl as int, rest.len() as int);
                proof {
                    lemma_take_url(after);
                    assert(after =~= s@.subrange(bstart as int, n as int));
                    let k = take_url(after).len() as int;
                    assert forall|j: int| 0 <= j < q - bstart implies is_url_char(
                        #[trigger] after[j],
                    ) by {
                        assert(after[j] == s@[j + bstart]);
                    }
                    if k < q - bstart {
                        assert(!is_url_char(after[k]));
                        assert(is_url_char(after[k]));
                    }
                    if k > q - bstart {
                        assert(q < n);
                        assert(is_url_char(after[q - bstart]));
                        assert(!is_url_char(s@[q as int]));
                    }
                    assert(k == q - bstart);
                    assert(take_url(after) =~= s@.subrange(bstart as int, q as int));
                }
                if q > bstart && q < n && v[q] == '>' {
                    // a complete bracketed address
                    let ghost u = rest.take(pl as int + take_url(after).len() as int);
                    proof {
                        assert(u =~= s@.subrange(p as int + 1, q as int));
                    }
                    push_str_chars(&mut out, "<a href=\"");
                    push_range(&mut out, &v, p + 1, q);
                    push_str_chars(&mut out, "\" class=\"man-link\">");
                    push_range(&mut out, &v, p + 1, q);
                    push_str_chars(&mut out, "</a>");
                    proof {
                        let ul = pl as int + take_url(after).len() as int;
                        assert(rest[ul] == '>');
                        assert(rest.subrange(ul + 1, rest.len() as int) =~= s@.subrange(
                            q as int + 1,
                            n as int,
                        ));
                        let markup = "<a href=\""@ + u + "\" class=\"man-link\">"@ + u + "</a>"@;
                        assert(out@ =~= out0 + markup);
                        assert(urls_spec(whole) == markup + urls_spec(
                            s@.subrange(q as int + 1, n as int),
                        ));
                        assert(out0 + (markup + urls_spec(s@.subrange(q as int + 1, n as int)))
                            =~= out@ + urls_spec(s@.subrange(q as int + 1, n as int)));
                    }
                    p = q + 1;
                } else {
                    out.push('<');
                    proof {
                        let ul = pl as int + take_url(after).len() as int;
                        if q == bstart {
                            assert(take_url(after).len() == 0);
                        } else {
                            assert(ul >= rest.len() || rest[ul] != '>') by {
                                if ul < rest.len() {
                                    assert(rest[ul] == s@[q as int]);
                                    if q < n && s@[q as int] == '>' {
                                        assert(false);
                                    }
                                }
                            }
                        }
                        assert(urls_spec(whole) == seq!['<'] + urls_spec(rest));
                        assert(out0 + (seq!['<'] + urls_spec(rest)) =~= out@ + urls_spec(rest));
                    }
                    p = p + 1;
                }
            } else {
                out.push('<');
                proof {
                    assert(urls_spec(whole) == seq!['<'] + urls_spec(rest));
                    assert(out0 + (seq!['<'] + urls_spec(rest)) =~= out@ + urls_spec(rest));
                }
                p = p + 1;
            }
        } else {
            out.push(c);
            p = p + 1;
        }
    }
    proof {
        assert(s@.subrange(n as int, n as int) =~= Seq::<char>::empty());
        assert(out@ + Seq::<char>::empty() =~= out@);
    }
    string_of(&out)
}

// ---------------------------------------------------------------------------
// Flag-like tokens
// ---------------------------------------------------------------------------
/// A word character: letter, digit or underscore.
pub open spec fn is_word_char(c: char) -> bool {
    (97 <= c as u32 <= 122) || (65 <= c as u32 <= 90) || (48 <= c as u32 <= 57) || c == '_'
}

/// A letter or digit.
pub open spec fn is_alnum_char(c: char) -> bool {
    (97 <= c as u32 <= 122) || (65 <= c as u32 <= 90) || (48 <= c as u32 <= 57)
}

/// A character that may continue a flag token: anything but a blank or the
/// start of markup.
pub open spec fn is_token_char(c: char) -> bool {
    !is_blank_char(c) && c != '<'
}

/// The leading run of token characters.
pub open spec fn take_token(s: Seq<char>) -> Seq<char>
    decreases s.len(),
{
    if s.len() > 0 && is_token_char(s[0]) {
        seq![s[0]] + take_token(s.drop_first())
    } else {
        Seq::empty()
    }
}

/// What [`take_token`] returns: the maximal token prefix.
pub proof fn lemma_take_token(s: Seq<char>)
    ensures
        take_token(s).len() <= s.len(),
        take_token(s) == s.take(take_token(s).len() as int),
        forall|j: int| 0 <= j < take_token(s).len() ==> is_token_char(s[j]),
        take_token(s).len() < s.len() ==> !is_token_char(s[take_token(s).len() as int]),
    decreases s.len(),
{
    if s.len() > 0 && is_token_char(s[0]) {
        lemma_take_token(s.drop_first());
        let t = take_token(s.drop_first());
        assert(take_token(s) =~= s.take(t.len() as int + 1));
        assert forall|j: int| 0 <= j < take_token(s).len() implies is_token_char(s[j]) by {
            if j > 0 {
                assert(is_token_char(s.drop_first()[j - 1]));
            }
        }
    }
}

/// Length of the flag token `s` opens with — one or two hyphens, a letter
/// or digit, then token characters — or zero when `s` opens with no flag.
pub open spec fn flag_len(s: Seq<char>) -> int {
    if s.len() == 0 || s[0] != '-' {
        0
    } else {
        let h: int = if s.len() >= 2 && s[1] == '-' {
            2
        } else {
            1
        };
        if s.len() > h && is_alnum_char(s[h]) {
            h + 1 + take_token(s.subrange(h + 1, s.len() as int)).len() as int
        } else {
            0
        }
    }
}

/// Flag-like tokens after a blank (or at the start) wrapped in highlight
/// markup; text between `<` and `>` is never touched.
pub open spec fn flags_spec(s: Seq<char>, bound: bool, in_tag: bool) -> Seq<char>
    decreases s.len(),
{
    if s.len() == 0 {
        Seq::empty()
    } else if in_tag {
        seq![s[0]] + flags_spec(s.drop_first(), false, s[0] != '>')
    } else if s[0] == '<' {
        seq!['<'] + flags_spec(s.drop_first(), false, true)
    } else if s[0] == '-' && bound && 1 <= flag_len(s) <= s.len() {
        let fl = flag_len(s);
        "<span class=\"man-dash\">"@ + s.take(fl) + "</span>"@ + flags_spec(
            s.subrange(fl, s.len() as int),
            false,
            false,
        )
    } else {
        seq![s[0]] + flags_spec(s.drop_first(), is_blank_char(s[0]), false)
    }
}

/// Exec twin of [`flags_spec`], from the start of a text.
#[verifier::rlimit(100)]
pub fn mark_flags(s: &str) -> (r: String)
    ensures
        r@ == flags_spec(s@, true, false),
{
    let v = chars_of(s);
    let n = v.len();
    let mut out: Vec<char> = Vec::new();
    let mut p: usize = 0;
    let mut bound = true;
    let mut in_tag = false;
    proof {
        assert(s@.subrange(0, n as int) =~= s@);
        assert(Seq::<char>::empty() + flags_spec(s@, true, false) =~= flags_spec(s@, true, false));
    }
    while p < n
        invariant
            n == v.len(),
            v@ == s@,
            0 <= p <= n,
            flags_spec(s@, true, false) == out@ + flags_spec(
                s@.subrange(p as int, n as int),
                bound,
                in_tag,
            ),
        decreases n - p,
    {
        let ghost whole = s@.subrange(p as int, n as int);
        proof {
            assert(whole[0] == s@[p as int]);
            assert(whole.drop_first() =~= s@.subrange(p as int + 1, n as int));
        }
        let ghost out0 = out@;
        let c = v[p];
        if in_tag {
            out.push(c);
            bound = false;
            in_tag = c != '>';
            p = p + 1;
        } else if c == '<' {
            out.push(c);
            bound = false;
            in_tag = true;
            p = p + 1;
        } else if c == '-' && bound {
            // measure the flag token, if one starts here
            let h: usize = if p + 1 < n && v[p + 1] == '-' {
                2
            } else {
                1
            };
            let fl: usize = if p + h < n && alnum_char(v[p + h]) {
                let mut q = p + h + 1;
                while q < n && !crate::textutil::blank_char(v[q]) && v[q] != '<'
                    invariant
                        p + h + 1 <= q <= n,
                        n == v.len(),
                        v@ == s@,
                        forall|j: int| p + h + 1 <= j < q ==> is_token_char(s@[j]),
                    decreases n - q,
                {
                    q += 1;
                }
                proof {
                    let after = whole.subrange(h as int + 1, whole.len() as int);
                    lemma_take_token(after);
                    assert(after =~= s@.subrange(p as int + h as int + 1, n as int));
                    let k = take_token(after).len() as int;
                    assert forall|j: int| 0 <= j < q - p - h - 1 implies is_token_char(
                        #[trigger] after[j],
                    ) by {
                        assert(after[j] == s@[j + p + h + 1]);
                    }
                    if k < q - p - h - 1 {
                        assert(!is_token_char(after[k]));
                        assert(is_token_char(after[k]));
                    }
                    if k > q - p - h - 1 {
                        assert(q < n);
                        assert(is_token_char(after[q - p - h - 1]));
                        assert(!is_token_char(s@[q as int]));
                    }
                    assert(k == q - p - h - 1);
                    assert(flag_len(whole) == q - p);
                }
                q - p
            } else {
                proof {
                    assert(flag_len(whole) == 0);
                }
                0
            };
            if fl > 0 {
                proof {
                    assert(whole.take(fl as int) =~= s@.subrange(p as int, p as int + fl as int));
                    assert(whole.subrange(fl as int, whole.len() as int) =~= s@.subrange(
                        p as int + fl as int,
                        n as int,
                    ));
                }
                push_str_chars(&mut out, "<span class=\"man-dash\">");
                push_range(&mut out, &v, p, p + fl);
                push_str_chars(&mut out, "</span>");
                proof {
                    let nxt = s@.subrange(p as int + fl as int, n as int);
                    let markup = "<span class=\"man-dash\">"@ + whole.take(fl as int) + "</span>"@;
                    assert(out@ =~= out0 + markup);
                    assert(flags_spec(whole, bound, in_tag) == markup + flags_spec(
                        nxt,
                        false,
                        false,
                    ));
                    assert(out0 + (markup + flags_spec(nxt, false, false)) =~= out@ + flags_spec(
                        nxt,
                        false,
                        false,
                    ));
                }
                p = p + fl;
                bound = false;
                in_tag = false;
            } else {
                out.push(c);
                proof {
                    assert(!is_blank_char('-'));
                }
                bound = false;
                in_tag = false;
                p = p + 1;
            }
        } else {
            out.push(c);
            bound = crate::textutil::blank_char(c);
            in_tag = false;
            p = p + 1;
        }
    }
    proof {
        assert(s@.subrange(n as int, n as int) =~= Seq::<char>::empty());
        assert(out@ + Seq::<char>::empty() =~= out@);
    }
    string_of(&out)
}

/// Exec twin of [`is_alnum_char`].
fn alnum_char(c: char) -> (r: bool)
    ensures
        r == is_alnum_char(c),
{
    let u = c as u32;
    (97 <= u && u <= 122) || (65 <= u && u <= 90) || (48 <= u && u <= 57)
}

// ---------------------------------------------------------------------------
// All-uppercase words
// ---------------------------------------------------------------------------
/// An upper-case letter.
pub open spec fn is_upper_char(c: char) -> bool {
    65 <= c as u32 <= 90
}

/// The leading run of upper-case letters.
pub open spec fn take_upper(s: Seq<char>) -> Seq<char>
    decreases s.len(),
{
    if s.len() > 0 && is_upper_char(s[0]) {
        seq![s[0]] + take_upper(s.drop_first())
    } else {
        Seq::empty()
    }
}

/// What [`take_upper`] returns: the maximal upper-case prefix.
pub proof fn lemma_take_upper(s: Seq<char>)
    ensures
        take_upper(s).len() <= s.len(),
        take_upper(s) == s.take(take_upper(s).len() as int),
        forall|j: int| 0 <= j < take_upper(s).len() ==> is_upper_char(s[j]),
        take_upper(s).len() < s.len() ==> !is_upper_char(s[take_upper(s).len() as int]),
    decreases s.len(),
{
    if s.len() > 0 && is_upper_char(s[0]) {
        lemma_take_upper(s.drop_first());
        let t = take_upper(s.drop_first());
        assert(take_upper(s) =~= s.take(t.len() as int + 1));
        assert forall|j: int| 0 <= j < take_upper(s).len() implies is_upper_char(s[j]) by {
            if j > 0 {
                assert(is_upper_char(s.drop_first()[j - 1]));
            }
        }
    }
}

/// Words of two or more upper-case letters, delimited by non-word
/// characters, wrapped in highlight markup; text between `<` and `>` is
/// never touched.
pub open spec fn upper_spec(s: Seq<char>, prev_word: bool, in_tag: bool) -> Seq<char>
    decreases s.len(),
{
    if s.len() == 0 {
        Seq::empty()
    } else if in_tag {
        seq![s[0]] + upper_spec(s.drop_first(), false, s[0] != '>')
    } else if s[0] == '<' {
        seq!['<'] + upper_spec(s.drop_first(), false, true)
    } else if is_upper_char(s[0]) && !prev_word && 1 <= take_upper(s).len() <= s.len() {
        let run = take_upper(s);
        let rl = run.len() as int;
        let nxt = s.subrange(rl, s.len() as int);
        if rl >= 2 && (nxt.len() == 0 || !is_word_char(nxt[0])) {
            "<span class=\"man-uppercase\">"@ + run + "</span>"@ + upper_spec(nxt, true, false)
        } else {
            run + upper_spec(nxt, true, false)
        }
    } else {
        seq![s[0]] + upper_spec(s.drop_first(), is_word_char(s[0]), false)
    }
}

/// Exec twin of [`upper_spec`], from the start of a text.
#[verifier::rlimit(100)]
pub fn mark_uppercase(s: &str) -> (r: String)
    ensures
        r@ == upper_spec(s@, false, false),
{
    let v = chars_of(s);
    let n = v.len();
    let mut out: Vec<char> = Vec::new();
    let mut p: usize = 0;
    let mut prev_word = false;
    let mut in_tag = false;
    proof {
        assert(s@.subrange(0, n as int) =~= s@);
        assert(Seq::<char>::empty() + upper_spec(s@, false, false) =~= upper_spec(
            s@,
            false,
            false,
        ));
    }
    while p < n
        invariant
            n == v.len(),
            v@ == s@,
            0 <= p <= n,
            upper_spec(s@, false, false) == out@ + upper_spec(
                s@.subrange(p as int, n as int),
                prev_word,
                in_tag,
            ),
        decreases n - p,
    {
        let ghost whole = s@.subrange(p as int, n as int);
        proof {
            assert(whole[0] == s@[p as int]);
            assert(whole.drop_first() =~= s@.subrange(p as int + 1, n as int));
        }
        let ghost out0 = out@;
        let c = v[p];
        let cu = c as u32;
        if in_tag {
            out.push(c);
            prev_word = false;
            in_tag = c != '>';
            p = p + 1;
        } else if c == '<' {
            out.push(c);
            prev_word = false;
            in_tag = true;
            p = p + 1;
        } else if 65 <= cu && cu <= 90 && !prev_word {
            // measure the upper-case run
            let mut q = p + 1;
            while q < n && 65 <= (v[q] as u32) && (v[q] as u32) <= 90
                invariant
                    p + 1 <= q <= n,
                    n == v.len(),
                    v@ == s@,
                    forall|j: int| p + 1 <= j < q ==> is_upper_char(s@[j]),
                decreases n - q,
            {
                q += 1;
            }
            proof {
                lemma_take_upper(whole);
                let k = take_upper(whole).len() as int;
                assert forall|j: int| 0 <= j < q - p implies is_upper_char(#[trigger] whole[j]) by {
                    assert(whole[j] == s@[j + p]);
                }
                if k < q - p {
                    assert(!is_upper_char(whole[k]));
                    assert(is_upper_char(whole[k]));
                }
                if k > q - p {
                    assert(q < n);
                    assert(is_upper_char(whole[q - p]));
                    assert(!is_upper_char(s@[q as int]));
                }
                assert(k == q - p);
                assert(take_upper(whole) =~= s@.subrange(p as int, q as int));
                assert(whole.subrange(q - p, whole.len() as int) =~= s@.subrange(
                    q as int,
                    n as int,
                ));
            }
            let wrap = q - p >= 2 && (q == n || !word_char(v[q]));
            proof {
                let run = take_upper(whole);
                let nxt = s@.subrange(q as int, n as int);
                if wrap {
                    assert(upper_spec(whole, prev_word, in_tag)
                        == "<span class=\"man-uppercase\">"@ + run + "</span>"@ + upper_spec(
                        nxt,
                        true,
                        false,
                    ));
                } else {
                    assert(upper_spec(whole, prev_word, in_tag) == run + upper_spec(
                        nxt,
                        true,
                        false,
                    ));
                }
            }
            if wrap {
                push_str_chars(&mut out, "<span class=\"man-uppercase\">");
                push_range(&mut out, &v, p, q);
                push_str_chars(&mut out, "</span>");
                proof {
                    let run = take_upper(whole);
                    let nxt = s@.subrange(q as int, n as int);
                    let markup = "<span class=\"man-uppercase\">"@ + run + "</span>"@;
                    assert(out@ =~= out0 + markup);
                    assert(out0 + (markup + upper_spec(nxt, true, false)) =~= out@ + upper_spec(
                        nxt,
                        true,
                        false,
                    ));
                }
            } else {
                push_range(&mut out, &v, p, q);
                proof {
                    let run = take_upper(whole);
                    let nxt = s@.subrange(q as int, n as int);
                    assert(out@ =~= out0 + run);
                    assert(out0 + (run + upper_spec(nxt, true, false)) =~= out@ + upper_spec(
                        nxt,
                        true,
                        false,
                    ));
                }
            }
            prev_word = true;
            in_tag = false;
            p = q;
        } else {
            out.push(c);
            prev_word = word_char(c);
            in_tag = false;
            p = p + 1;
        }
    }
    proof {
        assert(s@.subrange(n as int, n as int) =~= Seq::<char>::empty());
        assert(out@ + Seq::<char>::empty() =~= out@);
    }
    string_of(&out)
}

/// Exec twin of [`is_word_char`].
fn word_char(c: char) -> (r: bool)
    ensures
        r == is_word_char(c),
{
    let u = c as u32;
    (97 <= u && u <= 122) || (65 <= u && u <= 90) || (48 <= u && u <= 57) || c == '_'
}

// ---------------------------------------------------------------------------
// The full pipeline
// ---------------------------------------------------------------------------
/// The enrichment a raw (already clamped) help output goes through, in this
/// order and no other: escape sequences to markup, then bracketed addresses
/// to links, then flag highlighting, then uppercase highlighting. Each later
/// pass runs on the already annotated text and skips inserted markup tags.
pub open spec fn enrich_spec(s: Seq<char>) -> Seq<char> {
    upper_spec(flags_spec(urls_spec(ansi_spec(s)), true, false), false, false)
}

/// Format raw captured help output for display.
pub fn process_man_output(output: String) -> (r: String)
    ensures
        r@ == enrich_spec(output@),
{
    let a = ansi_to_markup(output.as_str());
    let b = mark_urls(a.as_str());
    let c = mark_flags(b.as_str());
    mark_uppercase(c.as_str())
}

// ---------------------------------------------------------------------------
// Planning the help lookup
// ---------------------------------------------------------------------------
/// Whether `sub` occurs inside `s`.
pub open spec fn contains_sub(s: Seq<char>, sub: Seq<char>) -> bool {
    exists|off: int|
        0 <= off && off + sub.len() <= s.len() && #[trigger] s.subrange(off, off + sub.len() as int)
            == sub
}

/// Exec twin of [`contains_sub`].
pub fn contains_substring(hay: &Vec<char>, needle: &Vec<char>) -> (r: bool)
    ensures
        r == contains_sub(hay@, needle@),
{
    let hn = hay.len();
    let nn = needle.len();
    if nn > hn {
        proof {
            assert(!contains_sub(hay@, needle@));
        }
        return false;
    }
    if nn == 0 {
        proof {
            assert(hay@.subrange(0, 0 + needle@.len() as int) =~= needle@);
            assert(contains_sub(hay@, needle@));
        }
        return true;
    }
    let last = hn - nn;
    let mut off: usize = 0;
    while off <= last
        invariant
            nn == needle@.len(),
            hn == hay@.len(),
            1 <= nn <= hn,
            last == hn - nn,
            0 <= off <= last + 1,
            forall|o: int|
                0 <= o < off ==> #[trigger] hay@.subrange(o, o + needle@.len() as int) != needle@,
        decreases last + 1 - off,
    {
        let mut j: usize = 0;
        let mut ok = true;
        while j < nn
            invariant
                nn == needle@.len(),
                hn == hay@.len(),
                off + nn <= hn,
                0 <= j <= nn,
                ok ==> forall|k: int|
                    0 <= k < j ==> hay@[off + k] == needle@[k],
                !ok ==> hay@.subrange(off as int, off as int + needle@.len() as int) != needle@,
            decreases nn - j,
        {
            if hay[off + j] != needle[j] {
                proof {
                    let sub = hay@.subrange(off as int, off as int + needle@.len() as int);
                    assert(sub[j as int] == hay@[off + j]);
                    if sub == needle@ {
                        assert(sub[j as int] == needle@[j as int]);
                        assert(false);
                    }
                }
                ok = false;
            }
            j += 1;
        }
        if ok {
            proof {
                let sub = hay@.subrange(off as int, off as int + needle@.len() as int);
                assert forall|k: int| 0 <= k < needle@.len() implies sub[k] == needle@[k] by {
                    assert(hay@[off + k] == needle@[k]);
                }
                assert(sub =~= needle@);
                assert(contains_sub(hay@, needle@));
            }
            return true;
        }
        off += 1;
    }
    proof {
        if contains_sub(hay@, needle@) {
            let o = choose|o: int|
                0 <= o && o + needle@.len() <= hay@.len() && #[trigger] hay@.subrange(
                    o,
                    o + needle@.len() as int,
                ) == needle@;
            assert(o < off);
        }
    }
    false
}

/// The help flags tried against a command, in the fixed order.
pub open spec fn help_flags() -> Seq<Seq<char>> {
    seq![
        " --help"@,
        " -h"@,
        " --usage"@,
        " help"@,
        " -help"@,
        " -?"@,
        " --longhelp"@,
        " --long-help"@,
        " --help-all"@,
        " info"@,
    ]
}

/// Whether the command already carries one of the help flags and should be
/// run exactly as entered.
pub fn has_help_flag(cmd: &str) -> (r: bool)
    ensures
        r == exists|k: int| 0 <= k < help_flags().len() && contains_sub(cmd@, help_flags()[k]),
{
    let hay = chars_of(cmd);
    let f0 = chars_of(" --help");
    let f1 = chars_of(" -h");
    let f2 = chars_of(" --usage");
    let f3 = chars_of(" help");
    let f4 = chars_of(" -help");
    let f5 = chars_of(" -?");
    let f6 = chars_of(" --longhelp");
    let f7 = chars_of(" --long-help");
    let f8 = chars_of(" --help-all");
    let f9 = chars_of(" info");
    let r = contains_substring(&hay, &f0) || contains_substring(&hay, &f1) || contains_substring(
        &hay,
        &f2,
    ) || contains_substring(&hay, &f3) || contains_substring(&hay, &f4) || contains_substring(
        &hay,
        &f5,
    ) || contains_substring(&hay, &f6) || contains_substring(&hay, &f7) || contains_substring(
        &hay,
        &f8,
    ) || contains_substring(&hay, &f9);
    proof {
        assert(help_flags()[0] == " --help"@ && help_flags()[1] == " -h"@ && help_flags()[2]
            == " --usage"@ && help_flags()[3] == " help"@ && help_flags()[4] == " -help"@
            && help_flags()[5] == " -?"@ && help_flags()[6] == " --longhelp"@ && help_flags()[7]
            == " --long-help"@ && help_flags()[8] == " --help-all"@ && help_flags()[9]
            == " info"@);
        if r {
            assert(exists|k: int|
                0 <= k < help_flags().len() && contains_sub(cmd@, help_flags()[k]));
        } else {
            assert forall|k: int|
                0 <= k < help_flags().len() implies !contains_sub(cmd@, #[trigger] help_flags()[k])
                by {
            }
        }
    }
    r
}

/// The ordered candidate invocations for a help lookup: the command as
/// entered when it already names a help flag; otherwise the command with
/// each help flag appended, then a manual-page lookup — tried in sequence,
/// short-circuiting on the first output long enough to be genuine help.
pub fn help_variants(cmd: &str) -> (r: Vec<String>)
    ensures
        (exists|k: int| 0 <= k < help_flags().len() && contains_sub(cmd@, help_flags()[k])) ==> (
        r@.len() == 1 && r@[0]@ == cmd@),
        !(exists|k: int| 0 <= k < help_flags().len() && contains_sub(cmd@, help_flags()[k])) ==> {
            &&& r@.len() == help_flags().len() + 1
            &&& forall|k: int|
                0 <= k < help_flags().len() ==> #[trigger] r@[k]@ == cmd@ + help_flags()[k]
            &&& r@[help_flags().len() as int]@ == "MANPAGER=cat man "@ + cmd@
        },
{
    let mut r: Vec<String> = Vec::new();
    if has_help_flag(cmd) {
        r.push(cmd.to_owned());
        return r;
    }
    let flags: [&str; 10] = [" --help", " -h", " --usage", " help", " -help", " -?", " --longhelp",
        " --long-help", " --help-all", " info"];
    for k in 0..10
        invariant
            r@.len() == k,
            flags@[0]@ == " --help"@ && flags@[1]@ == " -h"@ && flags@[2]@ == " --usage"@
                && flags@[3]@ == " help"@ && flags@[4]@ == " -help"@ && flags@[5]@ == " -?"@
                && flags@[6]@ == " --longhelp"@ && flags@[7]@ == " --long-help"@ && flags@[8]@
                == " --help-all"@ && flags@[9]@ == " info"@,
            forall|q: int| 0 <= q < k ==> #[trigger] r@[q]@ == cmd@ + help_flags()[q],
    {
        let mut out: Vec<char> = Vec::new();
        push_str_chars(&mut out, cmd);
        push_str_chars(&mut out, flags[k]);
        r.push(string_of(&out));
        proof {
            assert(help_flags()[k as int] == flags@[k as int]@);
        }
    }
    let mut man: Vec<char> = Vec::new();
    push_str_chars(&mut man, "MANPAGER=cat man ");
    push_str_chars(&mut man, cmd);
    r.push(string_of(&man));
    r
}

/// The first output long enough to be genuine help, if any: the pure core
/// of the candidate ladder's short-circuit, for callers that already hold
/// every candidate's output.
pub fn first_accepted(outputs: &Vec<String>) -> (r: Option<usize>)
    ensures
        r matches Some(i) ==> {
            &&& i < outputs@.len()
            &&& outputs@[i as int]@.len() >= MIN_HELP_LENGTH
            &&& forall|j: int| 0 <= j < i ==> #[trigger] outputs@[j]@.len() < MIN_HELP_LENGTH
        },
        r is None ==> forall|j: int|
            0 <= j < outputs@.len() ==> #[trigger] outputs@[j]@.len() < MIN_HELP_LENGTH,
{
    let n = outputs.len();
    for i in 0..n
        invariant
            n == outputs@.len(),
            forall|j: int| 0 <= j < i ==> #[trigger] outputs@[j]@.len() < MIN_HELP_LENGTH,
    {
        if accept_help(outputs[i].as_str()) {
            return Some(i);
        }
    }
    None
}

/// The error shown when the command field of a help query is blank.
pub fn empty_help_query_message() -> (r: String)
    ensures
        r@ == "Enter the command to search for help"@,
{
    let mut out: Vec<char> = Vec::new();
    push_str_chars(&mut out, "Enter the command to search for help");
    string_of(&out)
}

/// The error shown when no candidate produced acceptable help.
pub fn no_help_found_message(cmd: &str) -> (r: String)
    ensures
        r@ == "No valid help found for '"@ + cmd@ + "'"@,
{
    let mut out: Vec<char> = Vec::new();
    push_str_chars(&mut out, "No valid help found for '");
    push_str_chars(&mut out, cmd);
    push_str_chars(&mut out, "'");
    string_of(&out)
}

} // verus!
