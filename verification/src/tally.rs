//! The hand display: count each distinct card of the player hand, order the
//! counts descending (ties keep first-encountered order), and render one
//! `"<count padded> <name>"` line per distinct card, joined by newlines.

use vstd::prelude::*;
use crate::game::count_of;
use crate::text::{padded_count, padded_count_str, contains_name};

verus! {

broadcast use {
    vstd::seq_lib::group_to_multiset_ensures,
    vstd::multiset::group_multiset_axioms,
};

/// The distinct names of `s`, each at its first occurrence, in order.
pub open spec fn firsts(s: Seq<Seq<char>>) -> Seq<Seq<char>>
    decreases s.len(),
{
    if s.len() == 0 {
        Seq::empty()
    } else {
        let f = firsts(s.drop_last());
        if f.contains(s.last()) {
            f
        } else {
            f.push(s.last())
        }
    }
}

/// `firsts` really is the set of names seen: no name appears twice, and a
/// name appears exactly when the scanned cards hold it.
pub proof fn lemma_firsts_is_the_set(s: Seq<Seq<char>>)
    ensures
        forall|i: int, j: int| 0 <= i < j < firsts(s).len() ==> firsts(s)[i] != firsts(s)[j],
        forall|x: Seq<char>| firsts(s).contains(x) <==> s.contains(x),
    decreases s.len(),
{
    if s.len() > 0 {
        let t = s.drop_last();
        lemma_firsts_is_the_set(t);
        let f = firsts(t);
        assert forall|x: Seq<char>| s.contains(x) <==> (t.contains(x) || x == s.last()) by {
            if s.contains(x) {
                let i = choose|i: int| 0 <= i < s.len() && s[i] == x;
                if i < s.len() - 1 {
                    assert(t[i] == x);
                }
            }
            if t.contains(x) {
                let i = choose|i: int| 0 <= i < t.len() && t[i] == x;
                assert(s[i] == x);
            }
            if x == s.last() {
                assert(s[s.len() - 1] == x);
            }
        }
        if f.contains(s.last()) {
        } else {
            assert(forall|i: int| 0 <= i < f.len() ==> #[trigger] f[i] != s.last());
            assert forall|x: Seq<char>| firsts(s).contains(x) <==> s.contains(x) by {
                if firsts(s).contains(x) {
                    let i = choose|i: int| 0 <= i < firsts(s).len() && firsts(s)[i] == x;
                    if i < f.len() {
                        assert(f[i] == x);
                    }
                }
                if f.contains(x) {
                    let i = choose|i: int| 0 <= i < f.len() && f[i] == x;
                    assert(firsts(s)[i] == x);
                }
                if x == s.last() {
                    assert(firsts(s)[f.len() as int] == x);
                }
            }
        }
    }
}

/// Each distinct name of `hand` with its number of copies, in
/// first-encountered order.
pub open spec fn counted(hand: Seq<Seq<char>>) -> Seq<(Seq<char>, nat)> {
    Seq::new(firsts(hand).len(), |i: int| (firsts(hand)[i], count_of(hand, firsts(hand)[i])))
}

/// Insert `p` into a table sorted by descending count, after every entry
/// whose count is at least as large: equal counts keep their earlier entry
/// first, which makes the sort stable.
pub open spec fn insert_desc(t: Seq<(Seq<char>, nat)>, p: (Seq<char>, nat)) -> Seq<
    (Seq<char>, nat),
>
    decreases t.len(),
{
    if t.len() == 0 {
        seq![p]
    } else if t.first().1 >= p.1 {
        seq![t.first()] + insert_desc(t.drop_first(), p)
    } else {
        seq![p] + t
    }
}

/// Stable sort by descending count: entries are inserted left to right, so
/// among equal counts the first-encountered entry stays first.
pub open spec fn sort_desc(t: Seq<(Seq<char>, nat)>) -> Seq<(Seq<char>, nat)>
    decreases t.len(),
{
    if t.len() == 0 {
        Seq::empty()
    } else {
        insert_desc(sort_desc(t.drop_last()), t.last())
    }
}

/// The full display table of `hand`.
pub open spec fn hand_table(hand: Seq<Seq<char>>) -> Seq<(Seq<char>, nat)> {
    sort_desc(counted(hand))
}

/// One display line: the padded count, a space, the name.
pub open spec fn render_line(p: (Seq<char>, nat)) -> Seq<char> {
    padded_count(p.1) + seq![' '] + p.0
}

/// The display lines of a table, joined by newlines, with no trailing
/// newline.
pub open spec fn render_table(t: Seq<(Seq<char>, nat)>) -> Seq<char>
    decreases t.len(),
{
    if t.len() == 0 {
        Seq::empty()
    } else if t.len() == 1 {
        render_line(t[0])
    } else {
        render_table(t.drop_last()) + seq!['\n'] + render_line(t.last())
    }
}

/// What the `hand` command shows for a given player hand.
pub open spec fn hand_text_spec(hand: Seq<Seq<char>>) -> Seq<char> {
    render_table(hand_table(hand))
}

/// The abstract table that a vector of name/count pairs stands for.
pub open spec fn pairs_view(v: Seq<(String, usize)>) -> Seq<(Seq<char>, nat)> {
    Seq::new(v.len(), |i: int| (v[i].0@, v[i].1 as nat))
}

/// `insert_desc` lands at the first position whose count is smaller.
proof fn lemma_insert_desc_at(t: Seq<(Seq<char>, nat)>, p: (Seq<char>, nat), idx: int)
    requires
        0 <= idx <= t.len(),
        forall|i: int| 0 <= i < idx ==> t[i].1 >= p.1,
        idx == t.len() || t[idx].1 < p.1,
    ensures
        insert_desc(t, p) == t.take(idx) + seq![p] + t.skip(idx),
    decreases t.len(),
{
    if idx == 0 {
        if t.len() == 0 {
            assert(insert_desc(t, p) =~= t.take(0) + seq![p] + t.skip(0));
        } else {
            assert(t.take(0) + seq![p] + t.skip(0) =~= seq![p] + t);
        }
    } else {
        let u = t.drop_first();
        assert(forall|i: int| 0 <= i < idx - 1 ==> u[i] == t[i + 1] && u[i].1 >= p.1);
        lemma_insert_desc_at(u, p, idx - 1);
        assert(seq![t.first()] + (u.take(idx - 1) + seq![p] + u.skip(idx - 1)) =~= t.take(idx)
            + seq![p] + t.skip(idx));
    }
}

/// A table is ordered by descending count.
pub open spec fn sorted_by_count_desc(t: Seq<(Seq<char>, nat)>) -> bool {
    forall|i: int, j: int| 0 <= i < j < t.len() ==> t[i].1 >= t[j].1
}

/// Inserting into a descending table keeps it descending and only adds the
/// new entry to its contents.
proof fn lemma_insert_desc_sorted(t: Seq<(Seq<char>, nat)>, p: (Seq<char>, nat))
    requires
        sorted_by_count_desc(t),
    ensures
        sorted_by_count_desc(insert_desc(t, p)),
        insert_desc(t, p).to_multiset() =~= t.to_multiset().insert(p),
        insert_desc(t, p).len() == t.len() + 1,
    decreases t.len(),
{
    if t.len() == 0 {
        assert(seq![p].drop_last() =~= Seq::<(Seq<char>, nat)>::empty());
        assert(seq![p].to_multiset() =~= t.to_multiset().insert(p));
    } else if t.first().1 >= p.1 {
        let u = t.drop_first();
        assert(forall|i: int, j: int| 0 <= i < j < u.len() ==> u[i].1 >= u[j].1);
        lemma_insert_desc_sorted(u, p);
        let w = insert_desc(u, p);
        let r = seq![t.first()] + w;
        assert(forall|i: int| 0 <= i < w.len() ==> r[i + 1] == w[i]);
        assert forall|i: int| 0 <= i < w.len() implies t.first().1 >= w[i].1 by {
            assert(w.to_multiset().contains(w[i]));
            if w[i] != p {
                assert(u.to_multiset().contains(w[i]));
                let k = choose|k: int| 0 <= k < u.len() && u[k] == w[i];
                assert(t.first().1 >= u[k].1);
            }
        }
        assert(sorted_by_count_desc(r));
        assert(seq![t.first()] + u =~= t);
        vstd::seq_lib::lemma_multiset_commutative(seq![t.first()], w);
        vstd::seq_lib::lemma_multiset_commutative(seq![t.first()], u);
        assert(r.to_multiset() =~= t.to_multiset().insert(p));
    } else {
        let r = seq![p] + t;
        assert(forall|i: int| 0 <= i < t.len() ==> r[i + 1] == t[i]);
        assert(forall|i: int| 0 <= i < t.len() ==> p.1 > #[trigger] t[i].1);
        vstd::seq_lib::lemma_multiset_commutative(seq![p], t);
        assert(r.to_multiset() =~= t.to_multiset().insert(p));
    }
}

/// The display table is ordered by descending count — among ties the
/// first-encountered card stays first by construction of the stable sort —
/// and holds exactly the counted entries, none lost and none invented.
pub proof fn lemma_hand_table_sorted(hand: Seq<Seq<char>>)
    ensures
        sorted_by_count_desc(hand_table(hand)),
        hand_table(hand).to_multiset() =~= counted(hand).to_multiset(),
        hand_table(hand).len() == counted(hand).len(),
{
    lemma_sort_desc_sorted(counted(hand));
}

/// `sort_desc` yields a descending permutation of its input.
pub proof fn lemma_sort_desc_sorted(t: Seq<(Seq<char>, nat)>)
    ensures
        sorted_by_count_desc(sort_desc(t)),
        sort_desc(t).to_multiset() =~= t.to_multiset(),
        sort_desc(t).len() == t.len(),
    decreases t.len(),
{
    if t.len() > 0 {
        let u = t.drop_last();
        lemma_sort_desc_sorted(u);
        lemma_insert_desc_sorted(sort_desc(u), t.last());
        assert(u.push(t.last()) =~= t);
        assert(sort_desc(t).to_multiset() =~= t.to_multiset());
    }
}

/// The distinct names of the player hand, each at its first occurrence.
fn first_names(hand: &Vec<String>) -> (names: Vec<String>)
    ensures
        names.deep_view() == firsts(hand.deep_view()),
{
    let n = hand.len();
    let mut names: Vec<String> = Vec::new();
    let mut j: usize = 0;
    while j < n
        invariant
            n == hand@.len(),
            j <= n,
            names.deep_view() == firsts(hand.deep_view().take(j as int)),
        decreases n - j,
    {
        let ghost pre = names.deep_view();
        let ghost h = hand.deep_view();
        if !contains_name(&names, &hand[j]) {
            names.push(hand[j].clone());
            proof {
                assert(names.deep_view() =~= pre.push(h[j as int]));
            }
        }
        proof {
            assert(h.take(j as int + 1).drop_last() =~= h.take(j as int));
            assert(h.take(j as int + 1).last() == h[j as int]);
        }
        j = j + 1;
    }
    proof {
        assert(hand.deep_view().take(n as int) =~= hand.deep_view());
    }
    names
}

/// Insert one counted pair into a table kept sorted by descending count.
fn insert_pair(v: &mut Vec<(String, usize)>, name: String, count: usize)
    ensures
        pairs_view(final(v)@) == insert_desc(pairs_view(old(v)@), (name@, count as nat)),
{
    let n = v.len();
    let mut idx: usize = 0;
    while idx < n && v[idx as usize].1 >= count
        invariant
            n == v@.len(),
            idx <= n,
            *v == *old(v),
            forall|i: int| 0 <= i < idx ==> pairs_view(v@)[i].1 >= count as nat,
        decreases n - idx,
    {
        idx = idx + 1;
    }
    proof {
        lemma_insert_desc_at(pairs_view(v@), (name@, count as nat), idx as int);
    }
    let ghost pre = pairs_view(v@);
    v.insert(idx, (name, count));
    proof {
        assert(pairs_view(v@) =~= pre.take(idx as int) + seq![(name@, count as nat)] + pre.skip(
            idx as int,
        ));
    }
}

/// The text the `hand` command hands to the display: each distinct card of
/// the player hand with its count, most frequent first, ties in
/// first-encountered order.
pub fn hand_text(hand: &Vec<String>) -> (r: String)
    ensures
        r@ == hand_text_spec(hand.deep_view()),
{
    let names = first_names(hand);
    let m = names.len();
    let mut sorted: Vec<(String, usize)> = Vec::new();
    let mut j: usize = 0;
    while j < m
        invariant
            m == names@.len(),
            j <= m,
            names.deep_view() == firsts(hand.deep_view()),
            pairs_view(sorted@) == sort_desc(counted(hand.deep_view()).take(j as int)),
        decreases m - j,
    {
        let count = crate::game::count_matching(hand, &names[j]);
        insert_pair(&mut sorted, names[j].clone(), count);
        proof {
            let c = counted(hand.deep_view());
            assert(c.take(j as int + 1).drop_last() =~= c.take(j as int));
            assert(c.take(j as int + 1).last() == c[j as int]);
            assert(c[j as int].0 == names.deep_view()[j as int]);
        }
        j = j + 1;
    }
    proof {
        assert(counted(hand.deep_view()).take(m as int) =~= counted(hand.deep_view()));
    }
    let mut out = String::new();
    let k = sorted.len();
    let ghost table = pairs_view(sorted@);
    let mut i: usize = 0;
    while i < k
        invariant
            k == sorted@.len(),
            i <= k,
            table == pairs_view(sorted@),
            table == hand_table(hand.deep_view()),
            out@ == render_table(table.take(i as int)),
        decreases k - i,
    {
        if i > 0 {
            out.append("\n");
        }
        let p = &sorted[i];
        let padded = padded_count_str(p.1);
        out.append(padded.as_str());
        out.append(" ");
        out.append(p.0.as_str());
        proof {
            reveal_strlit("\n");
            reveal_strlit(" ");
            assert(table.take(i as int + 1).drop_last() =~= table.take(i as int));
            assert(table.take(i as int + 1).last() == table[i as int]);
            assert(out@ =~= render_table(table.take(i as int + 1)));
        }
        i = i + 1;
    }
    proof {
        assert(table.take(k as int) =~= table);
    }
    out
}

} // verus!
