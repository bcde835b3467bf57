//! Character-level text helpers shared by the registry, the log and the
//! display post-processor. All logic works on `Vec<char>`, whose view is the
//! same `Seq<char>` as that of `String`, so contracts stated here transfer
//! directly to the string-typed public interface.
use vstd::prelude::*;

verus! {

broadcast use vstd::string::group_string_axioms;

/// Decompose a string into its scalar values, in order.
pub fn chars_of(s: &str) -> (v: Vec<char>)
    ensures
        v@ == s@,
{
    let mut v: Vec<char> = Vec::new();
    for c in it: s.chars()
        invariant
            it.seq() == s@,
            v@ == it.seq().take(it.index() as int),
    {
        v.push(c);
    }
    proof {
        assert(v@ =~= s@);
    }
    v
}

/// Rebuild a string from its scalar values.
///
/// Relies on `String`'s `FromIterator<char>` implementation: collecting
/// scalar values yields the string with exactly those scalar values in order.
#[verifier::external_body]
pub fn string_of(v: &Vec<char>) -> (s: String)
    ensures
        s@ == v@,
{
    v.iter().collect()
}

/// Append all characters of `src` to `dst`.
pub fn push_all(dst: &mut Vec<char>, src: &Vec<char>)
    ensures
        final(dst)@ == old(dst)@ + src@,
{
    let n = src.len();
    for i in 0..n
        invariant
            n == src.len(),
            dst@ == old(dst)@ + src@.take(i as int),
    {
        dst.push(src[i]);
        proof {
            assert(old(dst)@ + src@.take(i as int) + seq![src@[i as int]] =~= old(dst)@
                + src@.take(i + 1));
        }
    }
    proof {
        assert(old(dst)@ + src@.take(n as int) =~= old(dst)@ + src@);
    }
}

/// Append every character of the string `s` to `dst`.
pub fn push_str_chars(dst: &mut Vec<char>, s: &str)
    ensures
        final(dst)@ == old(dst)@ + s@,
{
    let v = chars_of(s);
    push_all(dst, &v);
}

/// Whether two character vectors hold the same characters.
pub fn chars_eq(a: &Vec<char>, b: &Vec<char>) -> (r: bool)
    ensures
        r == (a@ == b@),
{
    if a.len() != b.len() {
        proof {
            assert(a@ != b@);
        }
        return false;
    }
    let n = a.len();
    for i in 0..n
        invariant
            n == a.len() == b.len(),
            forall|j: int| 0 <= j < i ==> a@[j] == b@[j],
    {
        if a[i] != b[i] {
            return false;
        }
    }
    proof {
        assert(a@ =~= b@);
    }
    true
}

/// The decimal digit character for `d` (0 to 9).
pub open spec fn digit_char(d: int) -> char {
    if d == 0 {
        '0'
    } else if d == 1 {
        '1'
    } else if d == 2 {
        '2'
    } else if d == 3 {
        '3'
    } else if d == 4 {
        '4'
    } else if d == 5 {
        '5'
    } else if d == 6 {
        '6'
    } else if d == 7 {
        '7'
    } else if d == 8 {
        '8'
    } else {
        '9'
    }
}

/// The decimal digits of a non-negative number, most significant first.
pub open spec fn dec_spec(n: int) -> Seq<char>
    decreases n,
{
    if n < 0 {
        Seq::empty()
    } else if n < 10 {
        seq![digit_char(n)]
    } else {
        dec_spec(n / 10) + seq![digit_char(n % 10)]
    }
}

/// Append the decimal form of `n` to `out`.
pub fn push_dec(out: &mut Vec<char>, n: u64)
    ensures
        final(out)@ == old(out)@ + dec_spec(n as int),
    decreases n,
{
    let d = n % 10;
    let c: char = if d == 0 {
        '0'
    } else if d == 1 {
        '1'
    } else if d == 2 {
        '2'
    } else if d == 3 {
        '3'
    } else if d == 4 {
        '4'
    } else if d == 5 {
        '5'
    } else if d == 6 {
        '6'
    } else if d == 7 {
        '7'
    } else if d == 8 {
        '8'
    } else {
        '9'
    };
    proof {
        assert(c == digit_char(n as int % 10));
    }
    if n < 10 {
        out.push(c);
        proof {
            assert(n as int % 10 == n as int);
            assert(out@ =~= old(out)@ + dec_spec(n as int));
        }
    } else {
        push_dec(out, n / 10);
        out.push(c);
        proof {
            assert(n as int / 10 == (n / 10) as int);
            assert(out@ =~= old(out)@ + (dec_spec(n as int / 10) + seq![digit_char(n as int % 10)]));
        }
    }
}

/// Characters treated as surrounding blanks when a piece of text is trimmed.
pub open spec fn is_blank_char(c: char) -> bool {
    c == ' ' || c == '\t' || c == '\r' || c == '\n'
}

/// Exec twin of [`is_blank_char`].
pub fn blank_char(c: char) -> (r: bool)
    ensures
        r == is_blank_char(c),
{
    c == ' ' || c == '\t' || c == '\r' || c == '\n'
}

/// The text with leading and trailing blank characters removed.
pub open spec fn trim_spec(s: Seq<char>) -> Seq<char>
    decreases s.len(),
{
    if s.len() == 0 {
        s
    } else if is_blank_char(s[0]) {
        trim_spec(s.drop_first())
    } else if is_blank_char(s.last()) {
        trim_spec(s.drop_last())
    } else {
        s
    }
}

pub proof fn lemma_trim_drop_front(s: Seq<char>, lo: int)
    requires
        0 <= lo <= s.len(),
        forall|j: int| 0 <= j < lo ==> is_blank_char(s[j]),
    ensures
        trim_spec(s) == trim_spec(s.subrange(lo, s.len() as int)),
    decreases lo,
{
    if lo > 0 {
        assert(is_blank_char(s[0]));
        assert(s.drop_first() =~= s.subrange(1, s.len() as int));
        let t = s.subrange(1, s.len() as int);
        lemma_trim_drop_front(t, lo - 1);
        assert(t.subrange(lo - 1, t.len() as int) =~= s.subrange(lo, s.len() as int));
    } else {
        assert(s.subrange(0, s.len() as int) =~= s);
    }
}

pub proof fn lemma_trim_drop_back(s: Seq<char>, hi: int)
    requires
        0 <= hi <= s.len(),
        forall|j: int| hi <= j < s.len() ==> is_blank_char(s[j]),
        forall|j: int| 0 <= j < s.len() ==> (j < hi || is_blank_char(s[j])),
        hi == 0 || !is_blank_char(s[0]),
    ensures
        trim_spec(s) == trim_spec(s.subrange(0, hi)),
    decreases s.len() - hi,
{
    if hi < s.len() {
        if s.len() == 0 {
        } else if is_blank_char(s[0]) {
            assert(hi == 0);
            assert(s.subrange(0, 0) =~= Seq::<char>::empty());
            lemma_trim_all_blank(s);
        } else {
            assert(is_blank_char(s.last()));
            let t = s.drop_last();
            assert(t =~= s.subrange(0, s.len() - 1));
            lemma_trim_drop_back(t, hi);
            assert(t.subrange(0, hi) =~= s.subrange(0, hi));
        }
    } else {
        assert(s.subrange(0, s.len() as int) =~= s);
    }
}

pub proof fn lemma_trim_all_blank(s: Seq<char>)
    requires
        forall|j: int| 0 <= j < s.len() ==> is_blank_char(s[j]),
    ensures
        trim_spec(s) == Seq::<char>::empty(),
    decreases s.len(),
{
    if s.len() == 0 {
        assert(s =~= Seq::<char>::empty());
    } else {
        lemma_trim_all_blank(s.drop_first());
    }
}

/// Trimming a text with no blank character at either end returns it unchanged.
pub proof fn lemma_trim_spec_noop(s: Seq<char>)
    requires
        s.len() > 0 ==> !is_blank_char(s[0]),
        s.len() > 0 ==> !is_blank_char(s.last()),
    ensures
        trim_spec(s) == s,
{
}

/// Remove leading and trailing blank characters.
pub fn trimmed(v: &Vec<char>) -> (r: Vec<char>)
    ensures
        r@ == trim_spec(v@),
{
    let n = v.len();
    let mut lo: usize = 0;
    while lo < n && blank_char(v[lo])
        invariant
            n == v.len(),
            0 <= lo <= n,
            forall|j: int| 0 <= j < lo ==> is_blank_char(v@[j]),
        decreases n - lo,
    {
        lo += 1;
    }
    if lo == n {
        proof {
            lemma_trim_all_blank(v@);
        }
        return Vec::new();
    }
    let mut hi: usize = n;
    while hi > lo && blank_char(v[hi - 1])
        invariant
            n == v.len(),
            lo < n,
            lo < hi <= n || hi == lo,
            forall|j: int| hi <= j < n ==> is_blank_char(v@[j]),
            !is_blank_char(v@[lo as int]),
        decreases hi,
    {
        hi -= 1;
    }
    let mut r: Vec<char> = Vec::new();
    let mut i = lo;
    while i < hi
        invariant
            n == v.len(),
            lo <= i <= hi <= n,
            r@ == v@.subrange(lo as int, i as int),
        decreases hi - i,
    {
        r.push(v[i]);
        proof {
            assert(v@.subrange(lo as int, i as int) + seq![v@[i as int]] =~= v@.subrange(
                lo as int,
                i + 1,
            ));
        }
        i += 1;
    }
    proof {
        let s = v@;
        lemma_trim_drop_front(s, lo as int);
        let t = s.subrange(lo as int, n as int);
        assert(hi > lo);
        assert(!is_blank_char(t[0]));
        assert(forall|j: int| (hi - lo) <= j < t.len() ==> is_blank_char(#[trigger] t[j]));
        lemma_trim_drop_back(t, hi - lo);
        assert(t.subrange(0, hi - lo) =~= s.subrange(lo as int, hi as int));
        let u = s.subrange(lo as int, hi as int);
        assert(u.len() > 0 && !is_blank_char(u[0]));
        assert(u.last() == s[hi - 1]);
        assert(!is_blank_char(u.last()));
        lemma_trim_spec_noop(u);
    }
    r
}

} // verus!
