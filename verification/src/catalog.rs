//! Building the catalog from a directory listing: the raw text names one
//! executable path per line; its basenames, duplicates collapsed to their
//! first occurrence, form the universe of valid cards. A line with an empty
//! basename makes the whole listing invalid, as startup treats that as an
//! unrecoverable misconfiguration.

use vstd::prelude::*;
use crate::tally::firsts;
use crate::text::{trim, trim_spec};

verus! {

/// Split into lines at `'\n'`, the line gathered so far being `cur`:
/// splitting never yields zero lines, and text without a newline is one
/// line.
pub open spec fn split_lines_from(s: Seq<char>, cur: Seq<char>) -> Seq<Seq<char>>
    decreases s.len(),
{
    if s.len() == 0 {
        seq![cur]
    } else if s[0] == '\n' {
        seq![cur] + split_lines_from(s.drop_first(), Seq::empty())
    } else {
        split_lines_from(s.drop_first(), cur.push(s[0]))
    }
}

/// The lines of `s`, split at `'\n'`.
pub open spec fn split_lines(s: Seq<char>) -> Seq<Seq<char>> {
    split_lines_from(s, Seq::empty())
}

/// Index right after the last `'/'` of `s`, or 0 when it holds none: where
/// the basename starts.
pub open spec fn base_start(s: Seq<char>) -> int
    decreases s.len(),
{
    if s.len() == 0 {
        0
    } else if s.last() == '/' {
        s.len() as int
    } else {
        base_start(s.drop_last())
    }
}

/// The basename of a path: everything after its last `'/'`.
pub open spec fn basename(s: Seq<char>) -> Seq<char> {
    s.skip(base_start(s))
}

/// The basenames of the trimmed listing's lines, in listing order.
pub open spec fn listing_names(raw: Seq<char>) -> Seq<Seq<char>> {
    split_lines(trim_spec(raw)).map_values(|l: Seq<char>| basename(l))
}

/// A listing is usable when every line has a nonempty basename.
pub open spec fn listing_ok(raw: Seq<char>) -> bool {
    forall|i: int| 0 <= i < listing_names(raw).len() ==> listing_names(raw)[i].len() > 0
}

/// `base_start` is the unique cut: nothing after it is a slash and it is 0
/// or sits right after one.
proof fn lemma_base_start(s: Seq<char>, k: int)
    requires
        0 <= k <= s.len(),
        forall|i: int| k <= i < s.len() ==> s[i] != '/',
        k == 0 || s[k - 1] == '/',
    ensures
        base_start(s) == k,
    decreases s.len(),
{
    if s.len() == 0 {
    } else if k == s.len() {
        assert(s.last() == '/');
    } else {
        assert(s.last() != '/');
        let t = s.drop_last();
        assert(forall|i: int| k <= i < t.len() ==> t[i] == s[i] && t[i] != '/');
        lemma_base_start(t, k);
    }
}

/// The basename of one path: everything after its last `'/'`.
pub fn basename_str(s: &str) -> (r: String)
    ensures
        r@ == basename(s@),
{
    let n = s.unicode_len();
    let mut k: usize = n;
    while k > 0 && s.get_char(k - 1) != '/'
        invariant
            n == s@.len(),
            k <= n,
            forall|i: int| k <= i < n ==> s@[i] != '/',
        decreases k,
    {
        k = k - 1;
    }
    proof {
        lemma_base_start(s@, k as int);
    }
    String::from_str(s.substring_char(k, n))
}

/// The lines of `s`, split at `'\n'`.
pub fn split_lines_str(s: &str) -> (r: Vec<String>)
    ensures
        r.deep_view() == split_lines(s@),
{
    let n = s.unicode_len();
    let mut lines: Vec<String> = Vec::new();
    let mut cur = String::new();
    let mut i: usize = 0;
    proof {
        assert(s@.skip(0) =~= s@);
        assert(Seq::<Seq<char>>::empty() + split_lines_from(s@, Seq::empty()) =~= split_lines(
            s@,
        ));
        assert(lines.deep_view() =~= Seq::<Seq<char>>::empty());
    }
    while i < n
        invariant
            n == s@.len(),
            i <= n,
            split_lines(s@) == lines.deep_view() + split_lines_from(s@.skip(i as int), cur@),
        decreases n - i,
    {
        let ghost pre_lines = lines.deep_view();
        let ghost pre_cur = cur@;
        let c = s.get_char(i);
        proof {
            assert(s@.skip(i as int)[0] == s@[i as int]);
            assert(s@.skip(i as int).drop_first() =~= s@.skip(i as int + 1));
        }
        if c == '\n' {
            lines.push(cur);
            cur = String::new();
            proof {
                assert(lines.deep_view() =~= pre_lines.push(pre_cur));
                assert(pre_lines + (seq![pre_cur] + split_lines_from(
                    s@.skip(i as int + 1),
                    Seq::empty(),
                )) =~= lines.deep_view() + split_lines_from(s@.skip(i as int + 1), cur@));
            }
        } else {
            cur.append(s.substring_char(i, i + 1));
            proof {
                assert(s@.subrange(i as int, i as int + 1) =~= seq![s@[i as int]]);
                assert(cur@ =~= pre_cur.push(s@[i as int]));
            }
        }
        i = i + 1;
    }
    proof {
        assert(s@.skip(n as int) =~= Seq::<char>::empty());
    }
    lines.push(cur);
    proof {
        assert(lines.deep_view() + Seq::<Seq<char>>::empty() =~= lines.deep_view());
        assert(lines.deep_view() =~= split_lines(s@));
    }
    lines
}

/// Build the catalog from the raw listing: trim it, split it into lines,
/// take each line's basename, and collapse duplicates to their first
/// occurrence. `None` exactly when some line has no basename.
pub fn catalog_from_listing(raw: &str) -> (r: Option<Vec<String>>)
    ensures
        (r is Some) <==> listing_ok(raw@),
        r matches Some(v) ==> v.deep_view() == firsts(listing_names(raw@)),
{
    let trimmed = trim(raw);
    let lines = split_lines_str(trimmed);
    let ghost names = listing_names(raw@);
    let n = lines.len();
    let mut catalog: Vec<String> = Vec::new();
    let mut j: usize = 0;
    while j < n
        invariant
            n == lines@.len(),
            j <= n,
            lines.deep_view() == split_lines(trim_spec(raw@)),
            names == listing_names(raw@),
            names.len() == n,
            forall|i: int| 0 <= i < j ==> names[i].len() > 0,
            catalog.deep_view() == firsts(names.take(j as int)),
        decreases n - j,
    {
        let name = basename_str(lines[j].as_str());
        proof {
            assert(names[j as int] == basename(lines.deep_view()[j as int]));
        }
        if name.as_str().is_empty() {
            proof {
                assert(names[j as int].len() == 0);
            }
            return None;
        }
        let ghost pre = catalog.deep_view();
        if !crate::text::contains_name(&catalog, &name) {
            catalog.push(name);
            proof {
                assert(catalog.deep_view() =~= pre.push(names[j as int]));
            }
        }
        proof {
            assert(names.take(j as int + 1).drop_last() =~= names.take(j as int));
            assert(names.take(j as int + 1).last() == names[j as int]);
        }
        j = j + 1;
    }
    proof {
        assert(names.take(n as int) =~= names);
    }
    Some(catalog)
}

} // verus!
