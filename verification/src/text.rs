//! Text helpers for the command-line protocol: whitespace trimming, splitting
//! a line into its leading token and the remainder, and string comparison.
//! Whitespace here is the ASCII kind that command lines are made of.

use vstd::prelude::*;

verus! {

/// The characters treated as whitespace when trimming and splitting.
pub open spec fn is_wsp(c: char) -> bool {
    c == ' ' || c == '\t' || c == '\n' || c == '\r'
}

/// `s` without its leading whitespace.
pub open spec fn ltrim_spec(s: Seq<char>) -> Seq<char>
    decreases s.len(),
{
    if s.len() > 0 && is_wsp(s[0]) {
        ltrim_spec(s.drop_first())
    } else {
        s
    }
}

/// `s` without its trailing whitespace.
pub open spec fn rtrim_spec(s: Seq<char>) -> Seq<char>
    decreases s.len(),
{
    if s.len() > 0 && is_wsp(s.last()) {
        rtrim_spec(s.drop_last())
    } else {
        s
    }
}

/// `s` without leading and trailing whitespace.
pub open spec fn trim_spec(s: Seq<char>) -> Seq<char> {
    rtrim_spec(ltrim_spec(s))
}

/// Length of the leading run of non-whitespace characters.
pub open spec fn token_len(s: Seq<char>) -> int
    decreases s.len(),
{
    if s.len() == 0 || is_wsp(s[0]) {
        0
    } else {
        1 + token_len(s.drop_first())
    }
}

/// The leading token of a line: everything up to the first whitespace.
pub open spec fn first_token(s: Seq<char>) -> Seq<char> {
    s.take(token_len(s))
}

/// What follows the first whitespace after the leading token, verbatim;
/// empty when the line holds no whitespace at all.
pub open spec fn rest_after(s: Seq<char>) -> Seq<char> {
    if token_len(s) == s.len() {
        Seq::empty()
    } else {
        s.skip(token_len(s) + 1)
    }
}

/// `token_len` is the unique cut: everything before it is non-whitespace and
/// it either ends the line or sits on a whitespace character.
pub proof fn lemma_token_len(s: Seq<char>, k: int)
    requires
        0 <= k <= s.len(),
        forall|i: int| 0 <= i < k ==> !is_wsp(s[i]),
        k == s.len() || is_wsp(s[k]),
    ensures
        token_len(s) == k,
    decreases s.len(),
{
    if k == 0 {
    } else {
        assert(!is_wsp(s[0]));
        let t = s.drop_first();
        assert(forall|i: int| 0 <= i < k - 1 ==> t[i] == s[i + 1] && !is_wsp(t[i]));
        lemma_token_len(t, k - 1);
    }
}

/// Whether `c` counts as whitespace for trimming and splitting.
pub fn is_wsp_char(c: char) -> (r: bool)
    ensures
        r == is_wsp(c),
{
    c == ' ' || c == '\t' || c == '\n' || c == '\r'
}

/// `s` without surrounding whitespace.
pub fn trim(s: &str) -> (r: &str)
    ensures
        r@ == trim_spec(s@),
{
    let n = s.unicode_len();
    proof {
        assert(s@.skip(0) =~= s@);
    }
    let mut start: usize = 0;
    while start < n && is_wsp_char(s.get_char(start))
        invariant
            n == s@.len(),
            start <= n,
            ltrim_spec(s@) == ltrim_spec(s@.skip(start as int)),
        decreases n - start,
    {
        proof {
            let t = s@.skip(start as int);
            assert(t[0] == s@[start as int]);
            assert(t.drop_first() =~= s@.skip(start as int + 1));
        }
        start = start + 1;
    }
    proof {
        let t = s@.skip(start as int);
        if start < n {
            assert(t[0] == s@[start as int]);
        }
        assert(ltrim_spec(s@) == t);
    }
    let ghost t = s@.skip(start as int);
    proof {
        assert(t.take(n - start) =~= t);
    }
    let mut end: usize = n;
    while end > start && is_wsp_char(s.get_char(end - 1))
        invariant
            n == s@.len(),
            start <= end <= n,
            t == s@.skip(start as int),
            rtrim_spec(t) == rtrim_spec(t.take(end - start)),
        decreases end,
    {
        proof {
            let u = t.take(end - start);
            assert(u.last() == s@[end - 1]);
            assert(u.drop_last() =~= t.take(end - 1 - start));
        }
        end = end - 1;
    }
    proof {
        let u = t.take(end - start);
        if end > start {
            assert(u.last() == s@[end - 1]);
        }
        assert(rtrim_spec(t) == u);
        assert(t.take(end - start) =~= s@.subrange(start as int, end as int));
    }
    s.substring_char(start, end)
}

/// Split a line into its leading token and the remainder after the first
/// whitespace; the remainder is handed on verbatim.
pub fn split_command(line: &str) -> (r: (String, String))
    ensures
        r.0@ == first_token(line@),
        r.1@ == rest_after(line@),
{
    let n = line.unicode_len();
    let mut k: usize = 0;
    while k < n && !is_wsp_char(line.get_char(k))
        invariant
            n == line@.len(),
            k <= n,
            forall|i: int| 0 <= i < k ==> !is_wsp(line@[i]),
        decreases n - k,
    {
        k = k + 1;
    }
    proof {
        lemma_token_len(line@, k as int);
    }
    let token = String::from_str(line.substring_char(0, k));
    let rest = if k == n {
        String::new()
    } else {
        String::from_str(line.substring_char(k + 1, n))
    };
    proof {
        assert(line@.subrange(0, k as int) =~= first_token(line@));
        if k < n {
            assert(line@.subrange(k as int + 1, n as int) =~= rest_after(line@));
        }
    }
    (token, rest)
}

/// Width the hand display pads each count to.
pub const PAD_WIDTH: usize = 6;

/// The decimal digit character for `d`.
pub open spec fn digit_char(d: int) -> char {
    if d == 0 {
        '0'
    } else if d == 1 {
        '1'
    } else if d == 2 {
        '2'
    } else if d == 3 {
        '3'
    } else if d == 4 {
        '4'
    } else if d == 5 {
        '5'
    } else if d == 6 {
        '6'
    } else if d == 7 {
        '7'
    } else if d == 8 {
        '8'
    } else {
        '9'
    }
}

/// The decimal digits of `n`, most significant first.
pub open spec fn dec_chars(n: nat) -> Seq<char>
    decreases n,
{
    if n < 10 {
        seq![digit_char(n as int)]
    } else {
        dec_chars(n / 10) + seq![digit_char((n % 10) as int)]
    }
}

/// `k` spaces.
pub open spec fn spaces(k: int) -> Seq<char> {
    Seq::new(k as nat, |i: int| ' ')
}

/// `n` in decimal, right-aligned in a field of `PAD_WIDTH` spaces; wider
/// numbers keep all their digits.
pub open spec fn padded_count(n: nat) -> Seq<char> {
    let d = dec_chars(n);
    if d.len() >= PAD_WIDTH {
        d
    } else {
        spaces(PAD_WIDTH - d.len()) + d
    }
}

/// The single-character string for the decimal digit `d`.
fn digit_str(d: usize) -> (r: &'static str)
    requires
        d < 10,
    ensures
        r@ == seq![digit_char(d as int)],
{
    let r: &'static str = if d == 0 {
        "0"
    } else if d == 1 {
        "1"
    } else if d == 2 {
        "2"
    } else if d == 3 {
        "3"
    } else if d == 4 {
        "4"
    } else if d == 5 {
        "5"
    } else if d == 6 {
        "6"
    } else if d == 7 {
        "7"
    } else if d == 8 {
        "8"
    } else {
        "9"
    };
    proof {
        reveal_strlit("0");
        reveal_strlit("1");
        reveal_strlit("2");
        reveal_strlit("3");
        reveal_strlit("4");
        reveal_strlit("5");
        reveal_strlit("6");
        reveal_strlit("7");
        reveal_strlit("8");
        reveal_strlit("9");
        assert(r@ =~= seq![digit_char(d as int)]);
    }
    r
}

/// Append the decimal digits of `n` to `s`.
pub fn push_dec(s: &mut String, n: usize)
    ensures
        final(s)@ == old(s)@ + dec_chars(n as nat),
    decreases n,
{
    if n >= 10 {
        push_dec(s, n / 10);
        s.append(digit_str(n % 10));
        proof {
            assert(s@ =~= old(s)@ + dec_chars(n as nat));
        }
    } else {
        s.append(digit_str(n));
        proof {
            assert(s@ =~= old(s)@ + dec_chars(n as nat));
        }
    }
}

/// `n` in decimal, right-aligned to the display's field width.
pub fn padded_count_str(n: usize) -> (r: String)
    ensures
        r@ == padded_count(n as nat),
{
    let mut digits = String::new();
    push_dec(&mut digits, n);
    proof {
        assert(digits@ =~= dec_chars(n as nat));
    }
    let len = digits.as_str().unicode_len();
    let mut r = String::new();
    let mut i: usize = len;
    while i < PAD_WIDTH
        invariant
            len == dec_chars(n as nat).len(),
            len <= i,
            i <= PAD_WIDTH || i == len,
            r@ == spaces(i - len),
        decreases PAD_WIDTH - i,
    {
        r.append(" ");
        i = i + 1;
        proof {
            reveal_strlit(" ");
            assert(r@ =~= spaces(i - len));
        }
    }
    r.append(digits.as_str());
    proof {
        assert(r@ =~= padded_count(n as nat));
    }
    r
}

/// Exact textual equality of two card names.
pub fn string_eq(a: &String, b: &String) -> (r: bool)
    ensures
        r == (a@ == b@),
{
    a.eq(b)
}

/// Whether some entry of `v` is textually equal to `name`.
pub fn contains_name(v: &Vec<String>, name: &String) -> (r: bool)
    ensures
        r == v.deep_view().contains(name@),
{
    let n = v.len();
    let mut j: usize = 0;
    while j < n
        invariant
            n == v@.len(),
            j <= n,
            forall|i: int| 0 <= i < j ==> v.deep_view()[i] != name@,
        decreases n - j,
    {
        if string_eq(&v[j], name) {
            proof {
                assert(v.deep_view()[j as int] == name@);
            }
            return true;
        }
        j = j + 1;
    }
    proof {
        assert(forall|i: int| 0 <= i < v.deep_view().len() ==> v.deep_view()[i] != name@);
    }
    false
}

} // verus!
