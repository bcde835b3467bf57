//! Text layer of the persisted commands document.
//!
//! The document is a line-oriented subset of TOML chosen as the one canonical
//! schema: comment lines starting with `#`, `[[commands]]` headers, and
//! `key = value` lines where a value is either a double-quoted string or a
//! bare boolean. Quoted strings escape the quote, the backslash, newline, tab
//! and carriage return, and any other control character as `\u00` followed by
//! two upper-case hex digits, so that every command set can be written out
//! and read back.
use vstd::prelude::*;

use crate::textutil::chars_eq;
use crate::textutil::chars_of;
use crate::textutil::is_blank_char;
use crate::textutil::lemma_trim_spec_noop;
use crate::textutil::push_str_chars;
use crate::textutil::trim_spec;
use crate::textutil::trimmed;

verus! {

// ---------------------------------------------------------------------------
// Escaping of quoted string values
// ---------------------------------------------------------------------------
/// Hex-digit pair used to escape a control character, if `c` is one.
pub open spec fn ctrl_escape(c: char) -> Option<(char, char)> {
    if c == '\u{00}' {
        Some(('0', '0'))
    } else if c == '\u{01}' {
        Some(('0', '1'))
    } else if c == '\u{02}' {
        Some(('0', '2'))
    } else if c == '\u{03}' {
        Some(('0', '3'))
    } else if c == '\u{04}' {
        Some(('0', '4'))
    } else if c == '\u{05}' {
        Some(('0', '5'))
    } else if c == '\u{06}' {
        Some(('0', '6'))
    } else if c == '\u{07}' {
        Some(('0', '7'))
    } else if c == '\u{08}' {
        Some(('0', '8'))
    } else if c == '\u{09}' {
        Some(('0', '9'))
    } else if c == '\u{0a}' {
        Some(('0', 'A'))
    } else if c == '\u{0b}' {
        Some(('0', 'B'))
    } else if c == '\u{0c}' {
        Some(('0', 'C'))
    } else if c == '\u{0d}' {
        Some(('0', 'D'))
    } else if c == '\u{0e}' {
        Some(('0', 'E'))
    } else if c == '\u{0f}' {
        Some(('0', 'F'))
    } else if c == '\u{10}' {
        Some(('1', '0'))
    } else if c == '\u{11}' {
        Some(('1', '1'))
    } else if c == '\u{12}' {
        Some(('1', '2'))
    } else if c == '\u{13}' {
        Some(('1', '3'))
    } else if c == '\u{14}' {
        Some(('1', '4'))
    } else if c == '\u{15}' {
        Some(('1', '5'))
    } else if c == '\u{16}' {
        Some(('1', '6'))
    } else if c == '\u{17}' {
        Some(('1', '7'))
    } else if c == '\u{18}' {
        Some(('1', '8'))
    } else if c == '\u{19}' {
        Some(('1', '9'))
    } else if c == '\u{1a}' {
        Some(('1', 'A'))
    } else if c == '\u{1b}' {
        Some(('1', 'B'))
    } else if c == '\u{1c}' {
        Some(('1', 'C'))
    } else if c == '\u{1d}' {
        Some(('1', 'D'))
    } else if c == '\u{1e}' {
        Some(('1', 'E'))
    } else if c == '\u{1f}' {
        Some(('1', 'F'))
    } else if c == '\u{7f}' {
        Some(('7', 'F'))
    } else {
        None
    }
}

/// Control character denoted by a hex-digit pair, if it is one we escape.
pub open spec fn ctrl_unescape(h: char, l: char) -> Option<char> {
    if h == '0' && l == '0' {
        Some('\u{00}')
    } else if h == '0' && l == '1' {
        Some('\u{01}')
    } else if h == '0' && l == '2' {
        Some('\u{02}')
    } else if h == '0' && l == '3' {
        Some('\u{03}')
    } else if h == '0' && l == '4' {
        Some('\u{04}')
    } else if h == '0' && l == '5' {
        Some('\u{05}')
    } else if h == '0' && l == '6' {
        Some('\u{06}')
    } else if h == '0' && l == '7' {
        Some('\u{07}')
    } else if h == '0' && l == '8' {
        Some('\u{08}')
    } else if h == '0' && l == '9' {
        Some('\u{09}')
    } else if h == '0' && l == 'A' {
        Some('\u{0a}')
    } else if h == '0' && l == 'B' {
        Some('\u{0b}')
    } else if h == '0' && l == 'C' {
        Some('\u{0c}')
    } else if h == '0' && l == 'D' {
        Some('\u{0d}')
    } else if h == '0' && l == 'E' {
        Some('\u{0e}')
    } else if h == '0' && l == 'F' {
        Some('\u{0f}')
    } else if h == '1' && l == '0' {
        Some('\u{10}')
    } else if h == '1' && l == '1' {
        Some('\u{11}')
    } else if h == '1' && l == '2' {
        Some('\u{12}')
    } else if h == '1' && l == '3' {
        Some('\u{13}')
    } else if h == '1' && l == '4' {
        Some('\u{14}')
    } else if h == '1' && l == '5' {
        Some('\u{15}')
    } else if h == '1' && l == '6' {
        Some('\u{16}')
    } else if h == '1' && l == '7' {
        Some('\u{17}')
    } else if h == '1' && l == '8' {
        Some('\u{18}')
    } else if h == '1' && l == '9' {
        Some('\u{19}')
    } else if h == '1' && l == 'A' {
        Some('\u{1a}')
    } else if h == '1' && l == 'B' {
        Some('\u{1b}')
    } else if h == '1' && l == 'C' {
        Some('\u{1c}')
    } else if h == '1' && l == 'D' {
        Some('\u{1d}')
    } else if h == '1' && l == 'E' {
        Some('\u{1e}')
    } else if h == '1' && l == 'F' {
        Some('\u{1f}')
    } else if h == '7' && l == 'F' {
        Some('\u{7f}')
    } else {
        None
    }
}

/// How one character is written inside a quoted string value.
pub open spec fn esc_char(c: char) -> Seq<char> {
    if c == '"' {
        seq!['\\', '"']
    } else if c == '\\' {
        seq!['\\', '\\']
    } else if c == '\n' {
        seq!['\\', 'n']
    } else if c == '\t' {
        seq!['\\', 't']
    } else if c == '\r' {
        seq!['\\', 'r']
    } else if ctrl_escape(c) is Some {
        let (h, l) = ctrl_escape(c)->0;
        seq!['\\', 'u', '0', '0', h, l]
    } else {
        seq![c]
    }
}

/// How a whole string is written inside a quoted value (without the quotes).
pub open spec fn esc_seq(s: Seq<char>) -> Seq<char>
    decreases s.len(),
{
    if s.len() == 0 {
        Seq::empty()
    } else {
        esc_char(s[0]) + esc_seq(s.drop_first())
    }
}

/// Escaped text never contains a raw line break, so a quoted value always
/// stays on one document line.
pub proof fn lemma_esc_no_newline(s: Seq<char>)
    ensures
        forall|i: int| 0 <= i < esc_seq(s).len() ==> esc_seq(s)[i] != '\n',
    decreases s.len(),
{
    if s.len() > 0 {
        lemma_esc_no_newline(s.drop_first());
        assert forall|i: int| 0 <= i < esc_seq(s).len() implies esc_seq(s)[i] != '\n' by {
            let head = esc_char(s[0]);
            if i < head.len() {
                assert(esc_seq(s)[i] == head[i]);
            } else {
                assert(esc_seq(s)[i] == esc_seq(s.drop_first())[i - head.len()]);
            }
        }
    }
}

/// Escaping distributes over appending one character at the end.
pub proof fn lemma_esc_snoc(s: Seq<char>, c: char)
    ensures
        esc_seq(s.push(c)) == esc_seq(s) + esc_char(c),
    decreases s.len(),
{
    if s.len() == 0 {
        assert(s.push(c)[0] == c);
        assert(s.push(c).drop_first() =~= Seq::<char>::empty());
        assert(esc_seq(s.push(c)) == esc_char(c) + esc_seq(Seq::<char>::empty()));
        assert(esc_char(c) + Seq::<char>::empty() =~= esc_char(c));
        assert(esc_seq(s) + esc_char(c) =~= esc_char(c));
    } else {
        assert(s.push(c)[0] == s[0]);
        assert(s.push(c).drop_first() =~= s.drop_first().push(c));
        lemma_esc_snoc(s.drop_first(), c);
        assert(esc_seq(s.push(c)) == esc_char(s[0]) + (esc_seq(s.drop_first()) + esc_char(c)));
        assert(esc_char(s[0]) + (esc_seq(s.drop_first()) + esc_char(c)) =~= (esc_char(s[0])
            + esc_seq(s.drop_first())) + esc_char(c));
    }
}

/// Exec twin of [`ctrl_escape`].
fn ctrl_escape_exec(c: char) -> (r: Option<(char, char)>)
    ensures
        r == ctrl_escape(c),
{
    let n = c as u32;
    if n < 0x20 || n == 0x7f {
        let h: char = if n < 0x10 {
            '0'
        } else if n < 0x20 {
            '1'
        } else {
            '7'
        };
        let low: u32 = n % 16;
        let l: char = if low == 0 {
            '0'
        } else if low == 1 {
            '1'
        } else if low == 2 {
            '2'
        } else if low == 3 {
            '3'
        } else if low == 4 {
            '4'
        } else if low == 5 {
            '5'
        } else if low == 6 {
            '6'
        } else if low == 7 {
            '7'
        } else if low == 8 {
            '8'
        } else if low == 9 {
            '9'
        } else if low == 10 {
            'A'
        } else if low == 11 {
            'B'
        } else if low == 12 {
            'C'
        } else if low == 13 {
            'D'
        } else if low == 14 {
            'E'
        } else {
            'F'
        };
        Some((h, l))
    } else {
        None
    }
}

/// Exec twin of [`ctrl_unescape`].
fn ctrl_unescape_exec(h: char, l: char) -> (r: Option<char>)
    ensures
        r == ctrl_unescape(h, l),
{
    if h == '0' && l == '0' {
        Some('\u{00}')
    } else if h == '0' && l == '1' {
        Some('\u{01}')
    } else if h == '0' && l == '2' {
        Some('\u{02}')
    } else if h == '0' && l == '3' {
        Some('\u{03}')
    } else if h == '0' && l == '4' {
        Some('\u{04}')
    } else if h == '0' && l == '5' {
        Some('\u{05}')
    } else if h == '0' && l == '6' {
        Some('\u{06}')
    } else if h == '0' && l == '7' {
        Some('\u{07}')
    } else if h == '0' && l == '8' {
        Some('\u{08}')
    } else if h == '0' && l == '9' {
        Some('\u{09}')
    } else if h == '0' && l == 'A' {
        Some('\u{0a}')
    } else if h == '0' && l == 'B' {
        Some('\u{0b}')
    } else if h == '0' && l == 'C' {
        Some('\u{0c}')
    } else if h == '0' && l == 'D' {
        Some('\u{0d}')
    } else if h == '0' && l == 'E' {
        Some('\u{0e}')
    } else if h == '0' && l == 'F' {
        Some('\u{0f}')
    } else if h == '1' && l == '0' {
        Some('\u{10}')
    } else if h == '1' && l == '1' {
        Some('\u{11}')
    } else if h == '1' && l == '2' {
        Some('\u{12}')
    } else if h == '1' && l == '3' {
        Some('\u{13}')
    } else if h == '1' && l == '4' {
        Some('\u{14}')
    } else if h == '1' && l == '5' {
        Some('\u{15}')
    } else if h == '1' && l == '6' {
        Some('\u{16}')
    } else if h == '1' && l == '7' {
        Some('\u{17}')
    } else if h == '1' && l == '8' {
        Some('\u{18}')
    } else if h == '1' && l == '9' {
        Some('\u{19}')
    } else if h == '1' && l == 'A' {
        Some('\u{1a}')
    } else if h == '1' && l == 'B' {
        Some('\u{1b}')
    } else if h == '1' && l == 'C' {
        Some('\u{1c}')
    } else if h == '1' && l == 'D' {
        Some('\u{1d}')
    } else if h == '1' && l == 'E' {
        Some('\u{1e}')
    } else if h == '1' && l == 'F' {
        Some('\u{1f}')
    } else if h == '7' && l == 'F' {
        Some('\u{7f}')
    } else {
        None
    }
}

/// Append the escaped form of `s` to `out`.
pub fn push_escaped(out: &mut Vec<char>, s: &Vec<char>)
    ensures
        final(out)@ == old(out)@ + esc_seq(s@),
{
    let n = s.len();
    for i in 0..n
        invariant
            n == s.len(),
            out@ == old(out)@ + esc_seq(s@.take(i as int)),
    {
        let c = s[i];
        if c == '"' {
            out.push('\\');
            out.push('"');
        } else if c == '\\' {
            out.push('\\');
            out.push('\\');
        } else if c == '\n' {
            out.push('\\');
            out.push('n');
        } else if c == '\t' {
            out.push('\\');
            out.push('t');
        } else if c == '\r' {
            out.push('\\');
            out.push('r');
        } else {
            match ctrl_escape_exec(c) {
                Some((h, l)) => {
                    out.push('\\');
                    out.push('u');
                    out.push('0');
                    out.push('0');
                    out.push(h);
                    out.push(l);
                },
                None => {
                    out.push(c);
                },
            }
        }
        proof {
            lemma_esc_snoc(s@.take(i as int), s@[i as int]);
            assert(s@.take(i as int).push(s@[i as int]) =~= s@.take(i + 1));
            assert(out@ =~= old(out)@ + esc_seq(s@.take(i + 1)));
        }
    }
    proof {
        assert(s@.take(n as int) =~= s@);
    }
}

/// Simple one-letter escapes accepted after a backslash.
pub open spec fn unesc_simple(c: char) -> Option<char> {
    if c == '"' {
        Some('"')
    } else if c == '\\' {
        Some('\\')
    } else if c == 'n' {
        Some('\n')
    } else if c == 't' {
        Some('\t')
    } else if c == 'r' {
        Some('\r')
    } else {
        None
    }
}

/// Meaning of the rest of a quoted value after its opening quote: the decoded
/// text, provided the closing quote is the last character of `s`.
pub open spec fn unq(s: Seq<char>) -> Option<Seq<char>>
    decreases s.len(),
{
    if s.len() == 0 {
        None
    } else if s[0] == '"' {
        if s.len() == 1 {
            Some(Seq::empty())
        } else {
            None
        }
    } else if s[0] == '\\' {
        if s.len() >= 2 && unesc_simple(s[1]) is Some {
            match unq(s.subrange(2, s.len() as int)) {
                Some(r) => Some(seq![unesc_simple(s[1])->0] + r),
                None => None,
            }
        } else if s.len() >= 6 && s[1] == 'u' && s[2] == '0' && s[3] == '0' && ctrl_unescape(
            s[4],
            s[5],
        ) is Some {
            match unq(s.subrange(6, s.len() as int)) {
                Some(r) => Some(seq![ctrl_unescape(s[4], s[5])->0] + r),
                None => None,
            }
        } else {
            None
        }
    } else {
        match unq(s.drop_first()) {
            Some(r) => Some(seq![s[0]] + r),
            None => None,
        }
    }
}

/// Reading back an escaped string recovers it exactly.
pub proof fn lemma_unq_esc(x: Seq<char>)
    ensures
        unq(esc_seq(x) + seq!['"']) == Some(x),
    decreases x.len(),
{
    let s = esc_seq(x) + seq!['"'];
    if x.len() == 0 {
        assert(s =~= seq!['"']);
        assert(unq(s) == Some(Seq::<char>::empty()));
        assert(Seq::<char>::empty() =~= x);
    } else {
        let c = x[0];
        let head = esc_char(c);
        let tail = esc_seq(x.drop_first()) + seq!['"'];
        assert(esc_seq(x) == esc_char(c) + esc_seq(x.drop_first()));
        assert(s =~= head + tail);
        lemma_unq_esc(x.drop_first());
        if c == '"' || c == '\\' || c == '\n' || c == '\t' || c == '\r' {
            assert(head.len() == 2);
            assert(s[0] == '\\');
            assert(unesc_simple(s[1]) == Some(c));
            assert(s.subrange(2, s.len() as int) =~= tail);
            assert(unq(s) == Some(seq![c] + x.drop_first()));
            assert(seq![c] + x.drop_first() =~= x);
        } else if ctrl_escape(c) is Some {
            let (h, l) = ctrl_escape(c)->0;
            assert(head =~= seq!['\\', 'u', '0', '0', h, l]);
            assert(s[0] == '\\');
            assert(s[1] == 'u');
            assert(unesc_simple('u') is None);
            assert(s[2] == '0' && s[3] == '0');
            assert(s[4] == h && s[5] == l);
            assert(ctrl_unescape(h, l) == Some(c));
            assert(s.len() >= 6);
            assert(s.subrange(6, s.len() as int) =~= tail);
            assert(unq(s) == Some(seq![c] + x.drop_first()));
            assert(seq![c] + x.drop_first() =~= x);
        } else {
            assert(head =~= seq![c]);
            assert(s[0] == c);
            assert(c != '"' && c != '\\');
            assert(s.drop_first() =~= tail);
            assert(unq(s) == Some(seq![c] + x.drop_first()));
            assert(seq![c] + x.drop_first() =~= x);
        }
    }
}

/// Decode the rest of a quoted value after its opening quote.
///
/// `t` is the whole value token; its first character must be the opening
/// quote, and the decoded text is returned only when the closing quote is the
/// token's last character.
pub fn parse_quoted_body(t: &Vec<char>) -> (r: Option<Vec<char>>)
    requires
        t@.len() >= 1,
        t@[0] == '"',
    ensures
        match r {
            Some(x) => unq(t@.drop_first()) == Some(x@),
            None => unq(t@.drop_first()) is None,
        },
{
    let ghost body = t@.drop_first();
    let n = t.len();
    let mut p: usize = 1;
    let mut acc: Vec<char> = Vec::new();
    loop
        invariant
            n == t.len(),
            1 <= p <= n,
            body == t@.drop_first(),
            unq(body) == (match unq(t@.subrange(p as int, n as int)) {
                Some(r) => Some::<Seq<char>>(acc@ + r),
                None => None::<Seq<char>>,
            }),
        decreases n - p,
    {
        proof {
            assert(t@.subrange(1, n as int) =~= body);
        }
        if p == n {
            // Ran past the end without a closing quote.
            proof {
                assert(t@.subrange(p as int, n as int) =~= Seq::<char>::empty());
            }
            return None;
        }
        let ghost rest = t@.subrange(p as int, n as int);
        let c = t[p];
        proof {
            assert(rest[0] == c);
        }
        if c == '"' {
            if p == n - 1 {
                proof {
                    assert(rest.len() == 1);
                    assert(unq(rest) == Some(Seq::<char>::empty()));
                    assert(acc@ + Seq::<char>::empty() =~= acc@);
                }
                return Some(acc);
            } else {
                proof {
                    assert(rest.len() > 1);
                    assert(unq(rest) is None);
                }
                return None;
            }
        } else if c == '\\' {
            if p + 1 < n {
                let e = t[p + 1];
                proof {
                    assert(rest.len() >= 2);
                    assert(rest[1] == e);
                }
                let simple: Option<char> = if e == '"' {
                    Some('"')
                } else if e == '\\' {
                    Some('\\')
                } else if e == 'n' {
                    Some('\n')
                } else if e == 't' {
                    Some('\t')
                } else if e == 'r' {
                    Some('\r')
                } else {
                    None
                };
                proof {
                    assert(simple == unesc_simple(e));
                }
                match simple {
                    Some(d) => {
                        let ghost acc0 = acc@;
                        acc.push(d);
                        proof {
                            let rest2 = t@.subrange(p + 2, n as int);
                            assert(rest.subrange(2, rest.len() as int) =~= rest2);
                            if unq(rest2) is Some {
                                let z = unq(rest2)->0;
                                assert(unq(rest) == Some(seq![d] + z));
                                assert(acc@ + z =~= acc0 + (seq![d] + z));
                            } else {
                                assert(unq(rest) is None);
                            }
                        }
                        p = p + 2;
                    },
                    None => {
                        if e == 'u' && n - p > 5 && t[p + 2] == '0' && t[p + 3] == '0' {
                            let h = t[p + 4];
                            let l = t[p + 5];
                            proof {
                                assert(rest.len() >= 6);
                                assert(rest[2] == '0' && rest[3] == '0');
                                assert(rest[4] == h && rest[5] == l);
                            }
                            match ctrl_unescape_exec(h, l) {
                                Some(d) => {
                                    let ghost acc0 = acc@;
                                    acc.push(d);
                                    proof {
                                        let rest2 = t@.subrange(p + 6, n as int);
                                        assert(rest.subrange(6, rest.len() as int) =~= rest2);
                                        if unq(rest2) is Some {
                                            let z = unq(rest2)->0;
                                            assert(unq(rest) == Some(seq![d] + z));
                                            assert(acc@ + z =~= acc0 + (seq![d] + z));
                                        } else {
                                            assert(unq(rest) is None);
                                        }
                                    }
                                    p = p + 6;
                                },
                                None => {
                                    proof {
                                        assert(unq(rest) is None);
                                    }
                                    return None;
                                },
                            }
                        } else {
                            proof {
                                assert(unq(rest) is None);
                            }
                            return None;
                        }
                    },
                }
            } else {
                proof {
                    assert(rest.len() == 1);
                    assert(unq(rest) is None);
                }
                return None;
            }
        } else {
            let ghost acc0 = acc@;
            acc.push(c);
            proof {
                let rest2 = t@.subrange(p + 1, n as int);
                assert(rest.drop_first() =~= rest2);
                if unq(rest2) is Some {
                    let z = unq(rest2)->0;
                    assert(unq(rest) == Some(seq![c] + z));
                    assert(acc@ + z =~= acc0 + (seq![c] + z));
                } else {
                    assert(unq(rest) is None);
                }
            }
            p = p + 1;
        }
    }
}

// ---------------------------------------------------------------------------
// Document lines
// ---------------------------------------------------------------------------
/// Index of the first line break in `s`, or `s.len()` if there is none.
pub open spec fn find_nl(s: Seq<char>) -> int
    decreases s.len(),
{
    if s.len() == 0 {
        0
    } else if s[0] == '\n' {
        0
    } else {
        1 + find_nl(s.drop_first())
    }
}

/// What [`find_nl`] returns: the least position holding a line break.
pub proof fn lemma_find_nl(s: Seq<char>)
    ensures
        0 <= find_nl(s) <= s.len(),
        find_nl(s) < s.len() ==> s[find_nl(s)] == '\n',
        forall|j: int| 0 <= j < find_nl(s) ==> s[j] != '\n',
    decreases s.len(),
{
    if s.len() > 0 && s[0] != '\n' {
        lemma_find_nl(s.drop_first());
        assert forall|j: int| 0 <= j < find_nl(s) implies s[j] != '\n' by {
            if j > 0 {
                assert(s.drop_first()[j - 1] != '\n');
                assert(s[j] == s.drop_first()[j - 1]);
            }
        }
    }
}

/// The lines of a document: pieces between line breaks, with no empty piece
/// after a final line break.
pub open spec fn split_lines(s: Seq<char>) -> Seq<Seq<char>>
    decreases s.len(),
{
    if s.len() == 0 {
        Seq::empty()
    } else {
        let i = find_nl(s);
        if 0 <= i < s.len() {
            seq![s.take(i)] + split_lines(s.subrange(i + 1, s.len() as int))
        } else {
            seq![s]
        }
    }
}

/// A text without a line break is one single line (or none, when empty).
pub proof fn lemma_split_single(s: Seq<char>)
    requires
        forall|j: int| 0 <= j < s.len() ==> s[j] != '\n',
    ensures
        s.len() == 0 ==> split_lines(s) == Seq::<Seq<char>>::empty(),
        s.len() > 0 ==> split_lines(s) == seq![s],
{
    if s.len() > 0 {
        lemma_find_nl(s);
        if find_nl(s) < s.len() {
            assert(s[find_nl(s)] == '\n');
            assert(false);
        }
    }
}

/// Splitting text that starts with one full line yields that line first.
pub proof fn lemma_split_append_line(l: Seq<char>, rest: Seq<char>)
    requires
        forall|j: int| 0 <= j < l.len() ==> l[j] != '\n',
    ensures
        split_lines(l + seq!['\n'] + rest) == seq![l] + split_lines(rest),
{
    let s = l + seq!['\n'] + rest;
    assert(s.len() > 0);
    lemma_find_nl(s);
    assert(s[l.len() as int] == '\n');
    if find_nl(s) < l.len() {
        assert(s[find_nl(s)] == '\n');
        assert(s[find_nl(s)] == l[find_nl(s)]);
        assert(false);
    }
    if find_nl(s) > l.len() {
        assert(s[l.len() as int] != '\n');
        assert(false);
    }
    assert(find_nl(s) == l.len());
    assert(find_nl(s) < s.len());
    assert(s.take(l.len() as int) =~= l);
    assert(s.subrange(l.len() as int + 1, s.len() as int) =~= rest);
}

/// Cut a text into its lines.
pub fn split_into_lines(v: &Vec<char>) -> (r: Vec<Vec<char>>)
    ensures
        r@.map_values(|l: Vec<char>| l@) == split_lines(v@),
{
    let n = v.len();
    let mut r: Vec<Vec<char>> = Vec::new();
    let mut cur: Vec<char> = Vec::new();
    proof {
        assert(r@.map_values(|l: Vec<char>| l@) =~= Seq::<Seq<char>>::empty());
        assert(cur@ + v@.subrange(0, n as int) =~= v@);
        assert(Seq::<Seq<char>>::empty() + split_lines(v@) =~= split_lines(v@));
    }
    for i in 0..n
        invariant
            n == v.len(),
            forall|j: int| 0 <= j < cur@.len() ==> cur@[j] != '\n',
            split_lines(v@) == r@.map_values(|l: Vec<char>| l@) + split_lines(
                cur@ + v@.subrange(i as int, n as int),
            ),
    {
        let c = v[i];
        let ghost rest = v@.subrange(i as int, n as int);
        let ghost rest2 = v@.subrange(i + 1, n as int);
        proof {
            assert(rest[0] == c);
            assert(cur@ + rest =~= (cur@ + seq![c]) + rest2);
        }
        if c == '\n' {
            let ghost cur0 = cur@;
            let ghost r0 = r@;
            proof {
                assert((cur0 + seq![c]) + rest2 =~= cur0 + seq!['\n'] + rest2);
                lemma_split_append_line(cur0, rest2);
            }
            r.push(cur);
            cur = Vec::new();
            proof {
                assert(r@.map_values(|l: Vec<char>| l@) =~= r0.map_values(|l: Vec<char>| l@)
                    + seq![cur0]);
                assert(r0.map_values(|l: Vec<char>| l@) + (seq![cur0] + split_lines(rest2))
                    =~= r@.map_values(|l: Vec<char>| l@) + split_lines(rest2));
                assert(cur@ + rest2 =~= rest2);
            }
        } else {
            let ghost cur0 = cur@;
            cur.push(c);
            proof {
                assert(cur@ =~= cur0 + seq![c]);
            }
        }
    }
    proof {
        assert(v@.subrange(n as int, n as int) =~= Seq::<char>::empty());
        assert(cur@ + v@.subrange(n as int, n as int) =~= cur@);
        lemma_split_single(cur@);
    }
    if cur.len() > 0 {
        let ghost r0 = r@;
        let ghost cur0 = cur@;
        r.push(cur);
        proof {
            assert(r@.map_values(|l: Vec<char>| l@) =~= r0.map_values(|l: Vec<char>| l@)
                + seq![cur0]);
        }
    } else {
        proof {
            assert(r@.map_values(|l: Vec<char>| l@) + Seq::<Seq<char>>::empty() =~= r@.map_values(
                |l: Vec<char>| l@,
            ));
        }
    }
    r
}

// ---------------------------------------------------------------------------
// Line classification
// ---------------------------------------------------------------------------
/// One entry of the document, as the specification sees it: the four fields
/// of a command definition.
pub struct EntryV {
    pub shell: Seq<char>,
    pub command: Seq<char>,
    pub icon: Seq<char>,
    pub sn: bool,
}

/// Meaning of a `key = value` right-hand side.
pub enum VParse {
    VStr(Seq<char>),
    VBool(bool),
    VBad,
}

/// Meaning of one document line.
pub enum LineClass {
    Blank,
    Comment,
    Header,
    Kv { key: Seq<char>, value: VParse },
    Malformed,
}

/// Index of the first `=` in `s`, or `s.len()` if there is none.
pub open spec fn find_eq(s: Seq<char>) -> int
    decreases s.len(),
{
    if s.len() == 0 {
        0
    } else if s[0] == '=' {
        0
    } else {
        1 + find_eq(s.drop_first())
    }
}

/// What [`find_eq`] returns: the least position holding `=`.
pub proof fn lemma_find_eq(s: Seq<char>)
    ensures
        0 <= find_eq(s) <= s.len(),
        find_eq(s) < s.len() ==> s[find_eq(s)] == '=',
        forall|j: int| 0 <= j < find_eq(s) ==> s[j] != '=',
    decreases s.len(),
{
    if s.len() > 0 && s[0] != '=' {
        lemma_find_eq(s.drop_first());
        assert forall|j: int| 0 <= j < find_eq(s) implies s[j] != '=' by {
            if j > 0 {
                assert(s.drop_first()[j - 1] != '=');
                assert(s[j] == s.drop_first()[j - 1]);
            }
        }
    }
}

/// Meaning of a trimmed right-hand side of a `key = value` line.
pub open spec fn parse_value(t: Seq<char>) -> VParse {
    if t == "true"@ {
        VParse::VBool(true)
    } else if t == "false"@ {
        VParse::VBool(false)
    } else if t.len() >= 1 && t[0] == '"' {
        match unq(t.drop_first()) {
            Some(x) => VParse::VStr(x),
            None => VParse::VBad,
        }
    } else {
        VParse::VBad
    }
}

/// Meaning of one raw document line.
pub open spec fn classify(line: Seq<char>) -> LineClass {
    let t = trim_spec(line);
    if t.len() == 0 {
        LineClass::Blank
    } else if t[0] == '#' {
        LineClass::Comment
    } else if t == "[[commands]]"@ {
        LineClass::Header
    } else {
        let i = find_eq(t);
        if 0 <= i < t.len() {
            LineClass::Kv {
                key: trim_spec(t.take(i)),
                value: parse_value(trim_spec(t.subrange(i + 1, t.len() as int))),
            }
        } else {
            LineClass::Malformed
        }
    }
}

/// Exec form of [`VParse`].
pub enum ValueExec {
    VStrE(Vec<char>),
    VBoolE(bool),
    VBadE,
}

impl ValueExec {
    /// The specification-level value this exec value stands for.
    pub open spec fn view_spec(&self) -> VParse {
        match self {
            ValueExec::VStrE(x) => VParse::VStr(x@),
            ValueExec::VBoolE(b) => VParse::VBool(*b),
            ValueExec::VBadE => VParse::VBad,
        }
    }
}

/// Exec form of [`LineClass`].
pub enum ClassifyExec {
    Blank,
    Comment,
    Header,
    Kv { key: Vec<char>, value: ValueExec },
    Malformed,
}

impl ClassifyExec {
    /// The specification-level class this exec class stands for.
    pub open spec fn view_spec(&self) -> LineClass {
        match self {
            ClassifyExec::Blank => LineClass::Blank,
            ClassifyExec::Comment => LineClass::Comment,
            ClassifyExec::Header => LineClass::Header,
            ClassifyExec::Kv { key, value } => LineClass::Kv {
                key: key@,
                value: value.view_spec(),
            },
            ClassifyExec::Malformed => LineClass::Malformed,
        }
    }
}

/// Copy the characters of `v` between `a` and `b`.
fn subvec(v: &Vec<char>, a: usize, b: usize) -> (r: Vec<char>)
    requires
        a <= b <= v@.len(),
    ensures
        r@ == v@.subrange(a as int, b as int),
{
    let mut r: Vec<char> = Vec::new();
    let mut i = a;
    while i < b
        invariant
            a <= i <= b <= v@.len(),
            r@ == v@.subrange(a as int, i as int),
        decreases b - i,
    {
        r.push(v[i]);
        proof {
            assert(v@.subrange(a as int, i as int) + seq![v@[i as int]] =~= v@.subrange(
                a as int,
                i + 1,
            ));
        }
        i += 1;
    }
    r
}

/// Exec twin of [`parse_value`].
fn parse_value_exec(t: &Vec<char>) -> (r: ValueExec)
    ensures
        r.view_spec() == parse_value(t@),
{
    let lit_true = chars_of("true");
    let lit_false = chars_of("false");
    if chars_eq(t, &lit_true) {
        ValueExec::VBoolE(true)
    } else if chars_eq(t, &lit_false) {
        ValueExec::VBoolE(false)
    } else if t.len() >= 1 && t[0] == '"' {
        match parse_quoted_body(t) {
            Some(x) => ValueExec::VStrE(x),
            None => ValueExec::VBadE,
        }
    } else {
        ValueExec::VBadE
    }
}

/// Exec twin of [`classify`].
pub fn classify_line(line: &Vec<char>) -> (r: ClassifyExec)
    ensures
        r.view_spec() == classify(line@),
{
    let t = trimmed(line);
    if t.len() == 0 {
        return ClassifyExec::Blank;
    }
    if t[0] == '#' {
        return ClassifyExec::Comment;
    }
    let header = chars_of("[[commands]]");
    if chars_eq(&t, &header) {
        return ClassifyExec::Header;
    }
    let n = t.len();
    let mut i: usize = 0;
    while i < n && t[i] != '='
        invariant
            n == t.len(),
            0 <= i <= n,
            forall|j: int| 0 <= j < i ==> t@[j] != '=',
        decreases n - i,
    {
        i += 1;
    }
    proof {
        lemma_find_eq(t@);
        if i < n {
            assert(t@[i as int] == '=');
            assert(find_eq(t@) == i);
        } else {
            if find_eq(t@) < n {
                assert(t@[find_eq(t@)] == '=');
                assert(false);
            }
        }
    }
    if i == n {
        return ClassifyExec::Malformed;
    }
    let keypart = subvec(&t, 0, i);
    let valpart = subvec(&t, i + 1, n);
    let key = trimmed(&keypart);
    let valtok = trimmed(&valpart);
    let value = parse_value_exec(&valtok);
    ClassifyExec::Kv { key, value }
}

// ---------------------------------------------------------------------------
// Document parsing, specification side
// ---------------------------------------------------------------------------
/// Reasons a document can be rejected before validation.
#[derive(Clone, Copy, Debug, PartialEq, Eq, Structural)]
pub enum SyntaxKind {
    /// A line that is no comment, no header and no `key = value` pair.
    MalformedLine,
    /// A `key = value` line before the first `[[commands]]` header.
    EntryExpected,
    /// A right-hand side that is neither a quoted string nor a boolean.
    BadValue,
    /// A boolean where a string is required, or the other way round.
    WrongType,
    /// A key outside the canonical schema; older field layouts are not
    /// supported.
    UnknownKey,
}

/// A rejected document line: its 1-based number and the reason.
#[derive(Clone, Copy, Debug, PartialEq, Eq, Structural)]
pub struct SyntaxError {
    pub line: usize,
    pub kind: SyntaxKind,
}

/// Parse state: finished entries plus the entry currently being filled.
pub struct PState {
    pub done: Seq<EntryV>,
    pub cur: Option<EntryV>,
}

/// Close the open entry, if any.
pub open spec fn finalize_state(st: PState) -> Seq<EntryV> {
    match st.cur {
        None => st.done,
        Some(p) => st.done.push(p),
    }
}

/// Field defaults a fresh `[[commands]]` entry starts from.
pub open spec fn fresh_entry() -> EntryV {
    EntryV { shell: "sh"@, command: Seq::empty(), icon: Seq::empty(), sn: true }
}

/// Effect of one line on the parse state.
pub open spec fn apply_line(st: PState, line: Seq<char>, lineno: int) -> Result<
    PState,
    SyntaxError,
> {
    match classify(line) {
        LineClass::Blank => Ok(st),
        LineClass::Comment => Ok(st),
        LineClass::Header => Ok(PState { done: finalize_state(st), cur: Some(fresh_entry()) }),
        LineClass::Malformed => Err(
            SyntaxError { line: lineno as usize, kind: SyntaxKind::MalformedLine },
        ),
        LineClass::Kv { key, value } => match st.cur {
            None => Err(SyntaxError { line: lineno as usize, kind: SyntaxKind::EntryExpected }),
            Some(p) => {
                if key == "shell"@ {
                    match value {
                        VParse::VStr(x) => Ok(
                            PState {
                                done: st.done,
                                cur: Some(
                                    EntryV { shell: x, command: p.command, icon: p.icon, sn: p.sn },
                                ),
                            },
                        ),
                        VParse::VBool(_) => Err(
                            SyntaxError { line: lineno as usize, kind: SyntaxKind::WrongType },
                        ),
                        VParse::VBad => Err(
                            SyntaxError { line: lineno as usize, kind: SyntaxKind::BadValue },
                        ),
                    }
                } else if key == "command"@ {
                    match value {
                        VParse::VStr(x) => Ok(
                            PState {
                                done: st.done,
                                cur: Some(
                                    EntryV { shell: p.shell, command: x, icon: p.icon, sn: p.sn },
                                ),
                            },
                        ),
                        VParse::VBool(_) => Err(
                            SyntaxError { line: lineno as usize, kind: SyntaxKind::WrongType },
                        ),
                        VParse::VBad => Err(
                            SyntaxError { line: lineno as usize, kind: SyntaxKind::BadValue },
                        ),
                    }
                } else if key == "icon"@ {
                    match value {
                        VParse::VStr(x) => Ok(
                            PState {
                                done: st.done,
                                cur: Some(
                                    EntryV {
                                        shell: p.shell,
                                        command: p.command,
                                        icon: x,
                                        sn: p.sn,
                                    },
                                ),
                            },
                        ),
                        VParse::VBool(_) => Err(
                            SyntaxError { line: lineno as usize, kind: SyntaxKind::WrongType },
                        ),
                        VParse::VBad => Err(
                            SyntaxError { line: lineno as usize, kind: SyntaxKind::BadValue },
                        ),
                    }
                } else if key == "sn"@ {
                    match value {
                        VParse::VBool(b) => Ok(
                            PState {
                                done: st.done,
                                cur: Some(
                                    EntryV {
                                        shell: p.shell,
                                        command: p.command,
                                        icon: p.icon,
                                        sn: b,
                                    },
                                ),
                            },
                        ),
                        VParse::VStr(_) => Err(
                            SyntaxError { line: lineno as usize, kind: SyntaxKind::WrongType },
                        ),
                        VParse::VBad => Err(
                            SyntaxError { line: lineno as usize, kind: SyntaxKind::BadValue },
                        ),
                    }
                } else {
                    Err(SyntaxError { line: lineno as usize, kind: SyntaxKind::UnknownKey })
                }
            },
        },
    }
}

/// Meaning of a whole line list, threading the state from `st` on.
pub open spec fn parse_lines(lines: Seq<Seq<char>>, lineno: int, st: PState) -> Result<
    Seq<EntryV>,
    SyntaxError,
>
    decreases lines.len(),
{
    if lines.len() == 0 {
        Ok(finalize_state(st))
    } else {
        match apply_line(st, lines[0], lineno) {
            Ok(st2) => parse_lines(lines.drop_first(), lineno + 1, st2),
            Err(e) => Err(e),
        }
    }
}

/// Meaning of a whole document text: the entries it defines, or the first
/// offending line.
pub open spec fn doc_parse(s: Seq<char>) -> Result<Seq<EntryV>, SyntaxError> {
    parse_lines(split_lines(s), 1, PState { done: Seq::empty(), cur: None })
}

/// State after a line list known to parse cleanly, ignoring line numbers.
pub open spec fn run_ok(lines: Seq<Seq<char>>, st: PState) -> Option<PState>
    decreases lines.len(),
{
    if lines.len() == 0 {
        Some(st)
    } else {
        match apply_line(st, lines[0], 0) {
            Ok(st2) => run_ok(lines.drop_first(), st2),
            Err(_) => None,
        }
    }
}

/// The successful outcome of [`apply_line`] does not depend on the line
/// number; only error values carry it.
pub proof fn lemma_apply_line_lineno(st: PState, line: Seq<char>, a: int, b: int)
    ensures
        apply_line(st, line, a) is Ok <==> apply_line(st, line, b) is Ok,
        apply_line(st, line, a) is Ok ==> apply_line(st, line, a) == apply_line(st, line, b),
{
}

/// Processing `a + b` first runs `a`; if `a` runs cleanly to `st2`, the rest
/// continues from `st2` with the line counter advanced.
pub proof fn lemma_parse_lines_append(a: Seq<Seq<char>>, b: Seq<Seq<char>>, n: int, st: PState)
    requires
        run_ok(a, st) is Some,
    ensures
        parse_lines(a + b, n, st) == parse_lines(b, n + a.len(), run_ok(a, st)->0),
    decreases a.len(),
{
    if a.len() == 0 {
        assert(a + b =~= b);
    } else {
        let line = a[0];
        lemma_apply_line_lineno(st, line, n, 0);
        let st2 = apply_line(st, line, n)->Ok_0;
        assert((a + b)[0] == line);
        assert((a + b).drop_first() =~= a.drop_first() + b);
        lemma_parse_lines_append(a.drop_first(), b, n + 1, st2);
    }
}

// ---------------------------------------------------------------------------
// Document rendering
// ---------------------------------------------------------------------------
/// A quoted string value: the escaped text between double quotes.
pub open spec fn qv(x: Seq<char>) -> Seq<char> {
    seq!['"'] + esc_seq(x) + seq!['"']
}

/// A `key = value` line.
pub open spec fn kv_line(k: Seq<char>, v: Seq<char>) -> Seq<char> {
    k + " = "@ + v
}

/// A bare boolean value.
pub open spec fn bool_text(b: bool) -> Seq<char> {
    if b {
        "true"@
    } else {
        "false"@
    }
}

/// The six lines one entry is written as: a header, the four fields, and a
/// separating blank line.
pub open spec fn entry_lines(e: EntryV) -> Seq<Seq<char>> {
    seq![
        "[[commands]]"@,
        kv_line("shell"@, qv(e.shell)),
        kv_line("command"@, qv(e.command)),
        kv_line("icon"@, qv(e.icon)),
        kv_line("sn"@, bool_text(e.sn)),
        Seq::empty(),
    ]
}

/// One entry's text: its lines, each closed by a line break.
pub open spec fn render_entry(e: EntryV) -> Seq<char> {
    "[[commands]]"@ + seq!['\n'] + kv_line("shell"@, qv(e.shell)) + seq!['\n'] + kv_line(
        "command"@,
        qv(e.command),
    ) + seq!['\n'] + kv_line("icon"@, qv(e.icon)) + seq!['\n'] + kv_line(
        "sn"@,
        bool_text(e.sn),
    ) + seq!['\n'] + seq!['\n']
}

/// The text of all entries, in order.
pub open spec fn render_entries(es: Seq<EntryV>) -> Seq<char>
    decreases es.len(),
{
    if es.len() == 0 {
        Seq::empty()
    } else {
        render_entry(es[0]) + render_entries(es.drop_first())
    }
}

/// Rendering distributes over appending one entry at the end.
pub proof fn lemma_render_entries_snoc(es: Seq<EntryV>, e: EntryV)
    ensures
        render_entries(es.push(e)) == render_entries(es) + render_entry(e),
    decreases es.len(),
{
    if es.len() == 0 {
        assert(es.push(e)[0] == e);
        assert(es.push(e).drop_first() =~= Seq::<EntryV>::empty());
        assert(render_entries(es.push(e)) == render_entry(e) + render_entries(
            Seq::<EntryV>::empty(),
        ));
        assert(render_entry(e) + Seq::<char>::empty() =~= render_entry(e));
        assert(render_entries(es) + render_entry(e) =~= render_entry(e));
    } else {
        assert(es.push(e)[0] == es[0]);
        assert(es.push(e).drop_first() =~= es.drop_first().push(e));
        lemma_render_entries_snoc(es.drop_first(), e);
        assert(render_entry(es[0]) + (render_entries(es.drop_first()) + render_entry(e))
            =~= (render_entry(es[0]) + render_entries(es.drop_first())) + render_entry(e));
    }
}

/// Append one entry's document text to `out`.
#[verifier::rlimit(60)]
pub fn push_entry_text(
    out: &mut Vec<char>,
    shell: &Vec<char>,
    command: &Vec<char>,
    icon: &Vec<char>,
    sn: bool,
)
    ensures
        final(out)@ == old(out)@ + render_entry(
            EntryV { shell: shell@, command: command@, icon: icon@, sn },
        ),
{
    push_str_chars(out, "[[commands]]");
    out.push('\n');
    push_str_chars(out, "shell");
    push_str_chars(out, " = ");
    out.push('"');
    push_escaped(out, shell);
    out.push('"');
    out.push('\n');
    push_str_chars(out, "command");
    push_str_chars(out, " = ");
    out.push('"');
    push_escaped(out, command);
    out.push('"');
    out.push('\n');
    push_str_chars(out, "icon");
    push_str_chars(out, " = ");
    out.push('"');
    push_escaped(out, icon);
    out.push('"');
    out.push('\n');
    push_str_chars(out, "sn");
    push_str_chars(out, " = ");
    if sn {
        push_str_chars(out, "true");
    } else {
        push_str_chars(out, "false");
    }
    out.push('\n');
    out.push('\n');
    proof {
        let e = EntryV { shell: shell@, command: command@, icon: icon@, sn };
        assert(out@ =~= old(out)@ + render_entry(e));
    }
}

// ---------------------------------------------------------------------------
// Classification of rendered lines
// ---------------------------------------------------------------------------
/// Trimming keeps the first character when it is not blank.
pub proof fn lemma_trim_keeps_head(s: Seq<char>)
    requires
        s.len() > 0,
        !is_blank_char(s[0]),
    ensures
        trim_spec(s).len() > 0,
        trim_spec(s)[0] == s[0],
    decreases s.len(),
{
    if is_blank_char(s.last()) {
        assert(s.len() >= 2);
        lemma_trim_keeps_head(s.drop_last());
    }
}

/// A line starting with `#` reads as a comment.
pub proof fn lemma_classify_comment(l: Seq<char>)
    requires
        l.len() > 0,
        l[0] == '#',
    ensures
        classify(l) == LineClass::Comment,
{
    assert(!is_blank_char('#'));
    lemma_trim_keeps_head(l);
}

/// The quoted form of any text starts and ends with a quote.
proof fn lemma_qv_shape(x: Seq<char>)
    ensures
        qv(x).len() >= 2,
        qv(x)[0] == '"',
        qv(x).last() == '"',
        qv(x).drop_first() == esc_seq(x) + seq!['"'],
{
    assert(qv(x).last() == '"');
    assert(qv(x).drop_first() =~= esc_seq(x) + seq!['"']);
}

/// A rendered `key = "value"` line reads back as exactly that key and value.
proof fn lemma_classify_kv_str(k: Seq<char>, x: Seq<char>)
    requires
        k.len() > 0,
        !is_blank_char(k[0]),
        !is_blank_char(k.last()),
        k[0] != '#',
        k[0] != '[',
        forall|j: int| 0 <= j < k.len() ==> k[j] != '=',
    ensures
        classify(kv_line(k, qv(x))) == (LineClass::Kv { key: k, value: VParse::VStr(x) }),
{
    let v = qv(x);
    let line = kv_line(k, v);
    lemma_qv_shape(x);
    reveal_strlit(" = ");
    assert(" = "@.len() == 3);
    assert(" = "@[0] == ' ' && " = "@[1] == '=' && " = "@[2] == ' ');
    assert(line.len() == k.len() + 3 + v.len());
    assert(line[0] == k[0]);
    assert(line.last() == v.last());
    assert(!is_blank_char('"'));
    lemma_trim_spec_noop(line);
    let t = line;
    assert(trim_spec(line) == t);
    assert(t.len() > 0);
    assert(t[0] != '#');
    reveal_strlit("[[commands]]");
    assert("[[commands]]"@[0] == '[');
    assert(t != "[[commands]]"@);
    // the separator's `=` is the first one on the line
    let i0 = k.len() as int + 1;
    assert(t[i0] == '=');
    assert forall|j: int| 0 <= j < i0 implies t[j] != '=' by {
        if j < k.len() {
            assert(t[j] == k[j]);
        } else {
            assert(t[j] == ' ');
        }
    }
    lemma_find_eq(t);
    if find_eq(t) < i0 {
        assert(t[find_eq(t)] == '=');
        assert(false);
    }
    if find_eq(t) > i0 {
        assert(false);
    }
    assert(find_eq(t) == i0);
    // the key side trims back to the key
    let kp = t.take(i0);
    assert(kp =~= k + seq![' ']);
    crate::textutil::lemma_trim_drop_back(kp, k.len() as int);
    assert(kp.subrange(0, k.len() as int) =~= k);
    lemma_trim_spec_noop(k);
    assert(trim_spec(kp) == k);
    // the value side trims to the quoted token
    let vp = t.subrange(i0 + 1, t.len() as int);
    assert(vp =~= seq![' '] + v);
    crate::textutil::lemma_trim_drop_front(vp, 1);
    assert(vp.subrange(1, vp.len() as int) =~= v);
    lemma_trim_spec_noop(v);
    assert(trim_spec(vp) == v);
    // the token parses as the escaped string
    reveal_strlit("true");
    reveal_strlit("false");
    assert("true"@[0] == 't');
    assert("false"@[0] == 'f');
    assert(v != "true"@ && v != "false"@);
    lemma_unq_esc(x);
    assert(parse_value(v) == VParse::VStr(x));
}

/// A rendered `sn = true` / `sn = false` line reads back as that boolean.
proof fn lemma_classify_kv_bool(k: Seq<char>, b: bool)
    requires
        k.len() > 0,
        !is_blank_char(k[0]),
        !is_blank_char(k.last()),
        k[0] != '#',
        k[0] != '[',
        forall|j: int| 0 <= j < k.len() ==> k[j] != '=',
    ensures
        classify(kv_line(k, bool_text(b))) == (LineClass::Kv { key: k, value: VParse::VBool(b) }),
{
    let v = bool_text(b);
    let line = kv_line(k, v);
    reveal_strlit(" = ");
    reveal_strlit("true");
    reveal_strlit("false");
    assert(" = "@.len() == 3);
    assert(" = "@[0] == ' ' && " = "@[1] == '=' && " = "@[2] == ' ');
    assert(v.len() > 0);
    assert(v[0] == 't' || v[0] == 'f');
    assert(v.last() == 'e');
    assert(forall|j: int| 0 <= j < v.len() ==> v[j] != '=');
    assert(line.len() == k.len() + 3 + v.len());
    assert(line[0] == k[0]);
    assert(line.last() == v.last());
    assert(!is_blank_char('e'));
    lemma_trim_spec_noop(line);
    let t = line;
    assert(t.len() > 0);
    assert(t[0] != '#');
    reveal_strlit("[[commands]]");
    assert("[[commands]]"@[0] == '[');
    assert(t != "[[commands]]"@);
    let i0 = k.len() as int + 1;
    assert(t[i0] == '=');
    assert forall|j: int| 0 <= j < i0 implies t[j] != '=' by {
        if j < k.len() {
            assert(t[j] == k[j]);
        } else {
            assert(t[j] == ' ');
        }
    }
    lemma_find_eq(t);
    if find_eq(t) < i0 {
        assert(t[find_eq(t)] == '=');
        assert(false);
    }
    if find_eq(t) > i0 {
        assert(false);
    }
    assert(find_eq(t) == i0);
    let kp = t.take(i0);
    assert(kp =~= k + seq![' ']);
    crate::textutil::lemma_trim_drop_back(kp, k.len() as int);
    assert(kp.subrange(0, k.len() as int) =~= k);
    lemma_trim_spec_noop(k);
    assert(trim_spec(kp) == k);
    let vp = t.subrange(i0 + 1, t.len() as int);
    assert(vp =~= seq![' '] + v);
    crate::textutil::lemma_trim_drop_front(vp, 1);
    assert(vp.subrange(1, vp.len() as int) =~= v);
    lemma_trim_spec_noop(v);
    assert(trim_spec(vp) == v);
    assert(parse_value(v) == VParse::VBool(b));
}

/// The `[[commands]]` line reads as a header.
pub proof fn lemma_classify_header()
    ensures
        classify("[[commands]]"@) == LineClass::Header,
{
    reveal_strlit("[[commands]]");
    let l = "[[commands]]"@;
    assert(l.len() == 12);
    assert(l[0] == '[' && l.last() == ']');
    assert(!is_blank_char('[') && !is_blank_char(']'));
    lemma_trim_spec_noop(l);
}

/// An empty line reads as blank.
pub proof fn lemma_classify_blank()
    ensures
        classify(Seq::<char>::empty()) == LineClass::Blank,
{
    assert(trim_spec(Seq::<char>::empty()).len() == 0);
}

// ---------------------------------------------------------------------------
// Round trip: rendered entries parse back to themselves
// ---------------------------------------------------------------------------
/// The lines of all entries, in order.
pub open spec fn all_entry_lines(es: Seq<EntryV>) -> Seq<Seq<char>>
    decreases es.len(),
{
    if es.len() == 0 {
        Seq::empty()
    } else {
        entry_lines(es[0]) + all_entry_lines(es.drop_first())
    }
}

/// No rendered entry line contains a line break.
proof fn lemma_entry_lines_no_newline(e: EntryV)
    ensures
        forall|i: int, j: int|
            0 <= i < entry_lines(e).len() && 0 <= j < entry_lines(e)[i].len()
                ==> #[trigger] entry_lines(e)[i][j] != '\n',
{
    reveal_strlit("[[commands]]");
    reveal_strlit("shell");
    reveal_strlit("command");
    reveal_strlit("icon");
    reveal_strlit("sn");
    reveal_strlit(" = ");
    reveal_strlit("true");
    reveal_strlit("false");
    lemma_esc_no_newline(e.shell);
    lemma_esc_no_newline(e.command);
    lemma_esc_no_newline(e.icon);
    assert forall|i: int, j: int|
        0 <= i < entry_lines(e).len() && 0 <= j < entry_lines(e)[i].len() implies #[trigger] entry_lines(
        e,
    )[i][j] != '\n' by {
        let l = entry_lines(e)[i];
        if i == 0 {
            assert(l == "[[commands]]"@);
        } else if 1 <= i <= 3 {
            let (k, x) = if i == 1 {
                ("shell"@, e.shell)
            } else if i == 2 {
                ("command"@, e.command)
            } else {
                ("icon"@, e.icon)
            };
            assert(l == kv_line(k, qv(x)));
            if j < k.len() {
                assert(l[j] == k[j]);
            } else if j < k.len() + 3 {
                assert(l[j] == " = "@[j - k.len()]);
            } else {
                let v = qv(x);
                let jj = j - k.len() - 3;
                assert(l[j] == v[jj]);
                if jj == 0 || jj == v.len() - 1 {
                } else {
                    assert(v[jj] == esc_seq(x)[jj - 1]);
                }
            }
        } else if i == 4 {
            let k = "sn"@;
            let v = bool_text(e.sn);
            assert(l == kv_line(k, v));
            if j < k.len() {
                assert(l[j] == k[j]);
            } else if j < k.len() + 3 {
                assert(l[j] == " = "@[j - k.len()]);
            } else {
                assert(l[j] == v[j - k.len() - 3]);
            }
        } else {
            assert(l == Seq::<char>::empty());
        }
    }
}

/// Splitting one rendered entry followed by `rest` yields the entry's six
/// lines and then the lines of `rest`.
proof fn lemma_split_render_entry(e: EntryV, rest: Seq<char>)
    ensures
        split_lines(render_entry(e) + rest) == entry_lines(e) + split_lines(rest),
{
    lemma_entry_lines_no_newline(e);
    let ls = entry_lines(e);
    let l1 = ls[0];
    let l2 = ls[1];
    let l3 = ls[2];
    let l4 = ls[3];
    let l5 = ls[4];
    let l6 = ls[5];
    let r5 = l6 + seq!['\n'] + rest;
    let r4 = l5 + seq!['\n'] + r5;
    let r3 = l4 + seq!['\n'] + r4;
    let r2 = l3 + seq!['\n'] + r3;
    let r1 = l2 + seq!['\n'] + r2;
    assert(render_entry(e) + rest =~= l1 + seq!['\n'] + r1);
    lemma_split_append_line(l1, r1);
    lemma_split_append_line(l2, r2);
    lemma_split_append_line(l3, r3);
    lemma_split_append_line(l4, r4);
    lemma_split_append_line(l5, r5);
    lemma_split_append_line(l6, rest);
    assert(split_lines(render_entry(e) + rest) =~= ls + split_lines(rest));
}

/// Splitting all rendered entries followed by `rest`.
proof fn lemma_split_render_entries(es: Seq<EntryV>, rest: Seq<char>)
    ensures
        split_lines(render_entries(es) + rest) == all_entry_lines(es) + split_lines(rest),
    decreases es.len(),
{
    if es.len() == 0 {
        assert(render_entries(es) + rest =~= rest);
        assert(all_entry_lines(es) + split_lines(rest) =~= split_lines(rest));
    } else {
        let e = es[0];
        let tail = es.drop_first();
        assert(render_entries(es) + rest =~= render_entry(e) + (render_entries(tail) + rest));
        lemma_split_render_entry(e, render_entries(tail) + rest);
        lemma_split_render_entries(tail, rest);
        assert(entry_lines(e) + (all_entry_lines(tail) + split_lines(rest)) =~= all_entry_lines(es)
            + split_lines(rest));
    }
}

/// Running `a + b` first runs `a`, then `b` from where `a` ended.
pub proof fn lemma_run_ok_append(a: Seq<Seq<char>>, b: Seq<Seq<char>>, st: PState)
    requires
        run_ok(a, st) is Some,
    ensures
        run_ok(a + b, st) == run_ok(b, run_ok(a, st)->0),
    decreases a.len(),
{
    if a.len() == 0 {
        assert(a + b =~= b);
    } else {
        let st2 = apply_line(st, a[0], 0)->Ok_0;
        assert((a + b)[0] == a[0]);
        assert((a + b).drop_first() =~= a.drop_first() + b);
        lemma_run_ok_append(a.drop_first(), b, st2);
    }
}

/// Running one entry's lines closes the previous entry and leaves the new one
/// open, holding exactly the rendered fields.
proof fn lemma_run_entry(e: EntryV, st: PState)
    ensures
        run_ok(entry_lines(e), st) == Some(
            PState { done: finalize_state(st), cur: Some(e) },
        ),
{
    reveal_strlit("shell");
    reveal_strlit("command");
    reveal_strlit("icon");
    reveal_strlit("sn");
    let ls = entry_lines(e);
    let l2s = ls.drop_first();
    let l3s = l2s.drop_first();
    let l4s = l3s.drop_first();
    let l5s = l4s.drop_first();
    let l6s = l5s.drop_first();
    let l7s = l6s.drop_first();
    assert(l2s[0] == ls[1] && l3s[0] == ls[2] && l4s[0] == ls[3] && l5s[0] == ls[4] && l6s[0]
        == ls[5]);
    assert(l7s =~= Seq::<Seq<char>>::empty());
    lemma_classify_header();
    assert(!is_blank_char('s') && !is_blank_char('l') && !is_blank_char('c') && !is_blank_char('d')
        && !is_blank_char('i') && !is_blank_char('n'));
    lemma_classify_kv_str("shell"@, e.shell);
    lemma_classify_kv_str("command"@, e.command);
    lemma_classify_kv_str("icon"@, e.icon);
    lemma_classify_kv_bool("sn"@, e.sn);
    lemma_classify_blank();
    let st1 = PState { done: finalize_state(st), cur: Some(fresh_entry()) };
    assert(apply_line(st, ls[0], 0) == Ok::<PState, SyntaxError>(st1));
    let p1 = EntryV { shell: e.shell, command: fresh_entry().command, icon: fresh_entry().icon, sn: fresh_entry().sn };
    let st2 = PState { done: st1.done, cur: Some(p1) };
    assert(apply_line(st1, ls[1], 0) == Ok::<PState, SyntaxError>(st2));
    assert("command"@ != "shell"@);
    let p2 = EntryV { shell: e.shell, command: e.command, icon: p1.icon, sn: p1.sn };
    let st3 = PState { done: st1.done, cur: Some(p2) };
    assert(apply_line(st2, ls[2], 0) == Ok::<PState, SyntaxError>(st3));
    assert("icon"@ != "shell"@ && "icon"@ != "command"@);
    let p3 = EntryV { shell: e.shell, command: e.command, icon: e.icon, sn: p2.sn };
    let st4 = PState { done: st1.done, cur: Some(p3) };
    assert(apply_line(st3, ls[3], 0) == Ok::<PState, SyntaxError>(st4));
    assert("sn"@ != "shell"@ && "sn"@ != "command"@ && "sn"@ != "icon"@);
    let p4 = EntryV { shell: e.shell, command: e.command, icon: e.icon, sn: e.sn };
    let st5 = PState { done: st1.done, cur: Some(p4) };
    assert(apply_line(st4, ls[4], 0) == Ok::<PState, SyntaxError>(st5));
    assert(apply_line(st5, ls[5], 0) == Ok::<PState, SyntaxError>(st5));
    assert(p4 == e);
    assert(run_ok(l7s, st5) == Some(st5));
    assert(run_ok(l6s, st5) == Some(st5));
    assert(run_ok(l5s, st4) == Some(st5));
    assert(run_ok(l4s, st3) == Some(st5));
    assert(run_ok(l3s, st2) == Some(st5));
    assert(run_ok(l2s, st1) == Some(st5));
    assert(run_ok(ls, st) == Some(st5));
}

/// Running all entries' lines ends with exactly those entries.
proof fn lemma_run_entries(es: Seq<EntryV>, st: PState)
    ensures
        run_ok(all_entry_lines(es), st) is Some,
        finalize_state(run_ok(all_entry_lines(es), st)->0) == finalize_state(st) + es,
    decreases es.len(),
{
    if es.len() == 0 {
        assert(all_entry_lines(es) =~= Seq::<Seq<char>>::empty());
        assert(finalize_state(st) + es =~= finalize_state(st));
    } else {
        let e = es[0];
        let tail = es.drop_first();
        lemma_run_entry(e, st);
        let st1 = PState { done: finalize_state(st), cur: Some(e) };
        lemma_run_ok_append(entry_lines(e), all_entry_lines(tail), st);
        lemma_run_entries(tail, st1);
        assert(finalize_state(st1) =~= finalize_state(st).push(e));
        assert(finalize_state(st).push(e) + tail =~= finalize_state(st) + es);
    }
}

// ---------------------------------------------------------------------------
// The document header and the whole document
// ---------------------------------------------------------------------------
/// The comment lines every saved document starts with.
pub open spec fn header_lines_spec() -> Seq<Seq<char>> {
    seq![
        "# The application requires at least one command to function."@,
        "# Please follow the field structure:"@,
        "# [[commands]] - opens one command definition"@,
        "# shell - string, one of: sh, bash, zsh, fish"@,
        "# command - string, unique and non-empty, run by that shell"@,
        "# icon - string, up to 8 characters, shown in the tray menu"@,
        "# sn - boolean, send the command result as a notification"@,
    ]
}

/// Lines joined into a text, each closed by a line break.
pub open spec fn join_lines(ls: Seq<Seq<char>>) -> Seq<char>
    decreases ls.len(),
{
    if ls.len() == 0 {
        Seq::empty()
    } else {
        ls[0] + seq!['\n'] + join_lines(ls.drop_first())
    }
}

/// The comment header as one text.
pub open spec fn doc_header() -> Seq<char> {
    join_lines(header_lines_spec())
}

/// The whole saved document: the header, then every entry.
pub open spec fn doc_text(es: Seq<EntryV>) -> Seq<char> {
    doc_header() + render_entries(es)
}

/// Splitting joined clean lines gives those lines back.
proof fn lemma_split_join(ls: Seq<Seq<char>>, rest: Seq<char>)
    requires
        forall|i: int, j: int|
            0 <= i < ls.len() && 0 <= j < ls[i].len() ==> #[trigger] ls[i][j] != '\n',
    ensures
        split_lines(join_lines(ls) + rest) == ls + split_lines(rest),
    decreases ls.len(),
{
    if ls.len() == 0 {
        assert(join_lines(ls) + rest =~= rest);
        assert(ls + split_lines(rest) =~= split_lines(rest));
    } else {
        let tail = ls.drop_first();
        assert(forall|i: int, j: int|
            0 <= i < tail.len() && 0 <= j < tail[i].len() ==> #[trigger] tail[i][j] != '\n')
            by {
            assert forall|i: int, j: int|
                0 <= i < tail.len() && 0 <= j < tail[i].len() implies #[trigger] tail[i][j]
                != '\n' by {
                assert(tail[i] == ls[i + 1]);
            }
        }
        assert(join_lines(ls) + rest =~= ls[0] + seq!['\n'] + (join_lines(tail) + rest));
        assert(forall|j: int| 0 <= j < ls[0].len() ==> ls[0][j] != '\n');
        lemma_split_append_line(ls[0], join_lines(tail) + rest);
        lemma_split_join(tail, rest);
        assert(seq![ls[0]] + (tail + split_lines(rest)) =~= ls + split_lines(rest));
    }
}

/// Comment and blank lines leave the parse state untouched.
proof fn lemma_run_comments(ls: Seq<Seq<char>>, st: PState)
    requires
        forall|i: int|
            0 <= i < ls.len() ==> (#[trigger] ls[i].len() == 0 || ls[i][0] == '#'),
    ensures
        run_ok(ls, st) == Some(st),
    decreases ls.len(),
{
    if ls.len() > 0 {
        if ls[0].len() == 0 {
            assert(ls[0] =~= Seq::<char>::empty());
            lemma_classify_blank();
        } else {
            lemma_classify_comment(ls[0]);
        }
        assert(apply_line(st, ls[0], 0) == Ok::<PState, SyntaxError>(st));
        let tail = ls.drop_first();
        assert(forall|i: int|
            0 <= i < tail.len() ==> (#[trigger] tail[i].len() == 0 || tail[i][0] == '#')) by {
            assert forall|i: int|
                0 <= i < tail.len() implies (#[trigger] tail[i].len() == 0 || tail[i][0]
                == '#') by {
                assert(tail[i] == ls[i + 1]);
            }
        }
        lemma_run_comments(tail, st);
    }
}

/// Every header line is a comment with no line break inside.
proof fn lemma_header_facts()
    ensures
        forall|i: int|
            0 <= i < header_lines_spec().len() ==> (#[trigger] header_lines_spec()[i].len() > 0
                && header_lines_spec()[i][0] == '#'),
        forall|i: int, j: int|
            0 <= i < header_lines_spec().len() && 0 <= j < header_lines_spec()[i].len()
                ==> #[trigger] header_lines_spec()[i][j] != '\n',
{
    reveal_strlit("# The application requires at least one command to function.");
    reveal_strlit("# Please follow the field structure:");
    reveal_strlit("# [[commands]] - opens one command definition");
    reveal_strlit("# shell - string, one of: sh, bash, zsh, fish");
    reveal_strlit("# command - string, unique and non-empty, run by that shell");
    reveal_strlit("# icon - string, up to 8 characters, shown in the tray menu");
    reveal_strlit("# sn - boolean, send the command result as a notification");
}

/// Append the comment header to `out`.
pub fn push_doc_header(out: &mut Vec<char>)
    ensures
        final(out)@ == old(out)@ + doc_header(),
{
    push_str_chars(out, "# The application requires at least one command to function.");
    out.push('\n');
    push_str_chars(out, "# Please follow the field structure:");
    out.push('\n');
    push_str_chars(out, "# [[commands]] - opens one command definition");
    out.push('\n');
    push_str_chars(out, "# shell - string, one of: sh, bash, zsh, fish");
    out.push('\n');
    push_str_chars(out, "# command - string, unique and non-empty, run by that shell");
    out.push('\n');
    push_str_chars(out, "# icon - string, up to 8 characters, shown in the tray menu");
    out.push('\n');
    push_str_chars(out, "# sn - boolean, send the command result as a notification");
    out.push('\n');
    proof {
        let ls = header_lines_spec();
        let t6 = ls.subrange(6, 7);
        let t5 = ls.subrange(5, 7);
        let t4 = ls.subrange(4, 7);
        let t3 = ls.subrange(3, 7);
        let t2 = ls.subrange(2, 7);
        let t1 = ls.subrange(1, 7);
        assert(t6[0] == ls[6] && t5[0] == ls[5] && t4[0] == ls[4] && t3[0] == ls[3] && t2[0]
            == ls[2] && t1[0] == ls[1]);
        assert(join_lines(Seq::<Seq<char>>::empty()) == Seq::<char>::empty());
        assert(t6.drop_first() =~= Seq::<Seq<char>>::empty());
        assert(t5.drop_first() =~= t6);
        assert(t4.drop_first() =~= t5);
        assert(t3.drop_first() =~= t4);
        assert(t2.drop_first() =~= t3);
        assert(t1.drop_first() =~= t2);
        assert(ls.drop_first() =~= t1);
        assert(join_lines(t6) =~= ls[6] + seq!['\n']);
        assert(join_lines(t5) =~= ls[5] + seq!['\n'] + join_lines(t6));
        assert(join_lines(t4) =~= ls[4] + seq!['\n'] + join_lines(t5));
        assert(join_lines(t3) =~= ls[3] + seq!['\n'] + join_lines(t4));
        assert(join_lines(t2) =~= ls[2] + seq!['\n'] + join_lines(t3));
        assert(join_lines(t1) =~= ls[1] + seq!['\n'] + join_lines(t2));
        assert(doc_header() =~= ls[0] + seq!['\n'] + join_lines(t1));
        assert(out@ =~= old(out)@ + doc_header());
    }
}

/// The round trip at document level: the text written for any entry list
/// parses back to exactly that entry list.
pub proof fn lemma_doc_parse_render(es: Seq<EntryV>)
    ensures
        doc_parse(doc_text(es)) == Ok::<Seq<EntryV>, SyntaxError>(es),
{
    let init = PState { done: Seq::empty(), cur: None };
    let hls = header_lines_spec();
    lemma_header_facts();
    lemma_split_join(hls, render_entries(es));
    assert(doc_text(es) =~= join_lines(hls) + render_entries(es));
    lemma_split_render_entries(es, Seq::empty());
    assert(render_entries(es) + Seq::<char>::empty() =~= render_entries(es));
    assert(split_lines(Seq::<char>::empty()) =~= Seq::<Seq<char>>::empty());
    assert(all_entry_lines(es) + Seq::<Seq<char>>::empty() =~= all_entry_lines(es));
    assert(split_lines(doc_text(es)) == hls + all_entry_lines(es));
    lemma_run_comments(hls, init);
    lemma_parse_lines_append(hls, all_entry_lines(es), 1, init);
    lemma_run_entries(es, init);
    let stf = run_ok(all_entry_lines(es), init)->0;
    lemma_parse_lines_append(all_entry_lines(es), Seq::empty(), 1 + hls.len() as int, init);
    assert(all_entry_lines(es) + Seq::<Seq<char>>::empty() =~= all_entry_lines(es));
    assert(parse_lines(all_entry_lines(es), 1 + hls.len() as int, init) == parse_lines(
        Seq::<Seq<char>>::empty(),
        1 + hls.len() as int + all_entry_lines(es).len(),
        stf,
    ));
    assert(finalize_state(init) =~= Seq::<EntryV>::empty());
    assert(Seq::<EntryV>::empty() + es =~= es);
}

} // verus!
