//! Lexicographic order on strings and duplicate-free sorted sequences.
//!
//! Names and department labels are kept in strictly sorted sequences, so
//! sortedness doubles as freedom from duplicates.  The insertion and removal
//! functions here return exactly the sequences described by the spec
//! functions `insert_seq` and `remove_seq`, which the registry's contracts
//! are written over.

use vstd::prelude::*;

verus! {

/// Strict lexicographic order on character sequences, comparing Unicode
/// scalar values position by position; a proper prefix comes before every
/// extension of it.
pub open spec fn seq_lt(a: Seq<char>, b: Seq<char>) -> bool
    decreases a.len(),
{
    if b.len() == 0 {
        false
    } else if a.len() == 0 {
        true
    } else if a[0] == b[0] {
        seq_lt(a.drop_first(), b.drop_first())
    } else {
        (a[0] as u32) < (b[0] as u32)
    }
}

/// A sequence of strings in strictly increasing order; strictness also rules
/// out duplicates.
pub open spec fn sorted(s: Seq<Seq<char>>) -> bool {
    forall|i: int, j: int| 0 <= i < j < s.len() ==> seq_lt(#[trigger] s[i], #[trigger] s[j])
}

/// The sorted sequence `s` with `x` inserted at its place, unchanged when `x`
/// is already present.
pub open spec fn insert_seq(s: Seq<Seq<char>>, x: Seq<char>) -> Seq<Seq<char>>
    decreases s.len(),
{
    if s.len() == 0 {
        seq![x]
    } else if x == s[0] {
        s
    } else if seq_lt(x, s[0]) {
        seq![x] + s
    } else {
        seq![s[0]] + insert_seq(s.drop_first(), x)
    }
}

/// The sequence `s` with the first occurrence of `x` removed, unchanged when
/// `x` does not occur.
pub open spec fn remove_seq(s: Seq<Seq<char>>, x: Seq<char>) -> Seq<Seq<char>>
    decreases s.len(),
{
    if s.len() == 0 {
        s
    } else if x == s[0] {
        s.drop_first()
    } else {
        seq![s[0]] + remove_seq(s.drop_first(), x)
    }
}

pub proof fn lemma_seq_lt_irrefl(a: Seq<char>)
    ensures
        !seq_lt(a, a),
    decreases a.len(),
{
    if a.len() > 0 {
        lemma_seq_lt_irrefl(a.drop_first());
    }
}

proof fn lemma_char_cast_injective(a: char, b: char)
    ensures
        a as u32 == b as u32 ==> a == b,
{
    if a as u32 == b as u32 {
        vstd::utf8::char_u32_cast(a, a as u32);
        vstd::utf8::char_u32_cast(b, b as u32);
    }
}

pub proof fn lemma_seq_lt_connected(a: Seq<char>, b: Seq<char>)
    ensures
        a != b ==> seq_lt(a, b) || seq_lt(b, a),
    decreases a.len(),
{
    if a.len() == 0 && b.len() == 0 {
        assert(a =~= b);
    } else if a.len() > 0 && b.len() > 0 && a[0] != b[0] {
        lemma_char_cast_injective(a[0], b[0]);
    } else if a.len() > 0 && b.len() > 0 && a[0] == b[0] {
        lemma_seq_lt_connected(a.drop_first(), b.drop_first());
        if !seq_lt(a, b) && !seq_lt(b, a) {
            assert(a.drop_first() == b.drop_first());
            assert forall|i: int| 0 <= i < a.len() implies a[i] == b[i] by {
                if i > 0 {
                    assert(a.drop_first()[i - 1] == a[i]);
                    assert(b.drop_first()[i - 1] == b[i]);
                }
            }
            assert(a =~= b);
        }
    }
}

pub proof fn lemma_seq_lt_trans(a: Seq<char>, b: Seq<char>, c: Seq<char>)
    requires
        seq_lt(a, b),
        seq_lt(b, c),
    ensures
        seq_lt(a, c),
    decreases a.len(),
{
    if a.len() > 0 && b.len() > 0 && c.len() > 0 && a[0] == b[0] && b[0] == c[0] {
        lemma_seq_lt_trans(a.drop_first(), b.drop_first(), c.drop_first());
    }
}

pub proof fn lemma_seq_lt_asym(a: Seq<char>, b: Seq<char>)
    requires
        seq_lt(a, b),
    ensures
        !seq_lt(b, a),
{
    if seq_lt(b, a) {
        lemma_seq_lt_trans(a, b, a);
        lemma_seq_lt_irrefl(a);
    }
}

proof fn lemma_cons_contains(h: Seq<char>, t: Seq<Seq<char>>, y: Seq<char>)
    ensures
        (seq![h] + t).contains(y) <==> y == h || t.contains(y),
{
    let s = seq![h] + t;
    if t.contains(y) {
        let i = choose|i: int| 0 <= i < t.len() && t[i] == y;
        assert(s[i + 1] == y);
        assert(s.contains(y));
    }
    if y == h {
        assert(s[0] == y);
        assert(s.contains(y));
    }
    if s.contains(y) {
        let i = choose|i: int| 0 <= i < s.len() && s[i] == y;
        if i > 0 {
            assert(t[i - 1] == y);
            assert(t.contains(y));
        }
    }
}

proof fn lemma_sorted_drop_first(s: Seq<Seq<char>>)
    requires
        sorted(s),
        s.len() > 0,
    ensures
        sorted(s.drop_first()),
{
    let t = s.drop_first();
    assert forall|i: int, j: int| 0 <= i < j < t.len() implies seq_lt(#[trigger] t[i], #[trigger] t[j]) by {
        assert(t[i] == s[i + 1]);
        assert(t[j] == s[j + 1]);
    }
}

proof fn lemma_sorted_cons(h: Seq<char>, t: Seq<Seq<char>>)
    requires
        sorted(t),
        forall|j: int| 0 <= j < t.len() ==> seq_lt(h, #[trigger] t[j]),
    ensures
        sorted(seq![h] + t),
{
    let s = seq![h] + t;
    assert forall|i: int, j: int| 0 <= i < j < s.len() implies seq_lt(#[trigger] s[i], #[trigger] s[j]) by {
        assert(s[j] == t[j - 1]);
        if i > 0 {
            assert(s[i] == t[i - 1]);
        }
    }
}

/// Inserting into a sorted sequence keeps it sorted, adds exactly the new
/// element to its contents, and never yields an empty sequence.
pub proof fn lemma_insert_seq_props(s: Seq<Seq<char>>, x: Seq<char>)
    requires
        sorted(s),
    ensures
        sorted(insert_seq(s, x)),
        forall|y: Seq<char>| #![trigger insert_seq(s, x).contains(y)]
            insert_seq(s, x).contains(y) <==> s.contains(y) || y == x,
        insert_seq(s, x).len() >= 1,
        insert_seq(s, x).len() <= s.len() + 1,
    decreases s.len(),
{
    let r = insert_seq(s, x);
    if s.len() == 0 {
        assert forall|y: Seq<char>| r.contains(y) <==> s.contains(y) || y == x by {
            lemma_cons_contains(x, Seq::empty(), y);
            assert(seq![x] + Seq::<Seq<char>>::empty() =~= seq![x]);
        }
    } else if x == s[0] {
        assert forall|y: Seq<char>| r.contains(y) <==> s.contains(y) || y == x by {
            if y == x {
                assert(s[0] == y);
                assert(s.contains(y));
            }
        }
    } else if seq_lt(x, s[0]) {
        assert(seq![s[0]] + s.drop_first() =~= s);
        assert forall|y: Seq<char>| r.contains(y) <==> s.contains(y) || y == x by {
            lemma_cons_contains(x, s, y);
        }
        assert forall|j: int| 0 <= j < s.len() implies seq_lt(x, #[trigger] s[j]) by {
            if j > 0 {
                lemma_seq_lt_trans(x, s[0], s[j]);
            }
        }
        lemma_sorted_cons(x, s);
    } else {
        lemma_seq_lt_connected(x, s[0]);
        let t = s.drop_first();
        lemma_sorted_drop_first(s);
        lemma_insert_seq_props(t, x);
        let rt = insert_seq(t, x);
        assert(seq![s[0]] + t =~= s);
        assert forall|y: Seq<char>| r.contains(y) <==> s.contains(y) || y == x by {
            lemma_cons_contains(s[0], rt, y);
            lemma_cons_contains(s[0], t, y);
        }
        assert forall|j: int| 0 <= j < rt.len() implies seq_lt(s[0], #[trigger] rt[j]) by {
            assert(rt.contains(rt[j]));
            assert(t.contains(rt[j]) || rt[j] == x);
            if rt[j] == x {
                assert(seq_lt(s[0], x));
            } else {
                let k = choose|k: int| 0 <= k < t.len() && t[k] == rt[j];
                assert(s[k + 1] == t[k]);
                assert(seq_lt(s[0], s[k + 1]));
            }
        }
        lemma_sorted_cons(s[0], rt);
    }
}

/// Inserting an element that a sorted sequence already holds changes nothing.
pub proof fn lemma_insert_seq_present(s: Seq<Seq<char>>, x: Seq<char>, i: int)
    requires
        sorted(s),
        0 <= i < s.len(),
        s[i] == x,
    ensures
        insert_seq(s, x) == s,
    decreases s.len(),
{
    if i == 0 {
    } else {
        assert(seq_lt(s[0], s[i]));
        if x == s[0] {
            lemma_seq_lt_irrefl(x);
        }
        lemma_seq_lt_asym(s[0], x);
        let t = s.drop_first();
        lemma_sorted_drop_first(s);
        assert(t[i - 1] == s[i]);
        lemma_insert_seq_present(t, x, i - 1);
        assert(seq![s[0]] + t =~= s);
    }
}

/// Where every element before position `i` is below `x` and the element at
/// `i` (if any) is above it, insertion happens exactly at `i`.
pub proof fn lemma_insert_seq_at(s: Seq<Seq<char>>, x: Seq<char>, i: int)
    requires
        sorted(s),
        0 <= i <= s.len(),
        forall|j: int| 0 <= j < i ==> seq_lt(#[trigger] s[j], x),
        i < s.len() ==> !seq_lt(s[i], x) && s[i] != x,
    ensures
        insert_seq(s, x) == s.insert(i, x),
    decreases s.len(),
{
    if s.len() == 0 {
        assert(insert_seq(s, x) =~= s.insert(0, x));
    } else if i == 0 {
        lemma_seq_lt_connected(x, s[0]);
        assert(seq_lt(x, s[0]));
        if x == s[0] {
            lemma_seq_lt_irrefl(x);
        }
        assert(seq![x] + s =~= s.insert(0, x));
    } else {
        assert(seq_lt(s[0], x));
        if x == s[0] {
            lemma_seq_lt_irrefl(x);
        }
        lemma_seq_lt_asym(s[0], x);
        let t = s.drop_first();
        lemma_sorted_drop_first(s);
        assert forall|j: int| 0 <= j < i - 1 implies seq_lt(#[trigger] t[j], x) by {
            assert(t[j] == s[j + 1]);
        }
        if i - 1 < t.len() {
            assert(t[i - 1] == s[i]);
        }
        lemma_insert_seq_at(t, x, i - 1);
        assert(seq![s[0]] + t.insert(i - 1, x) =~= s.insert(i, x)) by {
            t.insert_ensures(i - 1, x);
            s.insert_ensures(i, x);
        }
    }
}

/// Removing the first occurrence, found at position `i`, drops exactly that
/// position.
pub proof fn lemma_remove_seq_at(s: Seq<Seq<char>>, x: Seq<char>, i: int)
    requires
        0 <= i < s.len(),
        s[i] == x,
        forall|j: int| 0 <= j < i ==> #[trigger] s[j] != x,
    ensures
        remove_seq(s, x) == s.remove(i),
    decreases s.len(),
{
    if i == 0 {
        assert(s.drop_first() =~= s.remove(0));
    } else {
        let t = s.drop_first();
        assert forall|j: int| 0 <= j < i - 1 implies #[trigger] t[j] != x by {
            assert(t[j] == s[j + 1]);
        }
        assert(t[i - 1] == s[i]);
        lemma_remove_seq_at(t, x, i - 1);
        assert(seq![s[0]] + t.remove(i - 1) =~= s.remove(i)) by {
            t.remove_ensures(i - 1);
            s.remove_ensures(i);
        }
    }
}

/// Removing an element that does not occur changes nothing.
pub proof fn lemma_remove_seq_absent(s: Seq<Seq<char>>, x: Seq<char>)
    requires
        !s.contains(x),
    ensures
        remove_seq(s, x) == s,
    decreases s.len(),
{
    if s.len() > 0 {
        if s[0] == x {
            assert(s.contains(x));
        }
        let t = s.drop_first();
        if t.contains(x) {
            let k = choose|k: int| 0 <= k < t.len() && t[k] == x;
            assert(s[k + 1] == x);
            assert(s.contains(x));
        }
        lemma_remove_seq_absent(t, x);
        assert(seq![s[0]] + t =~= s);
    }
}

/// Removal from a sorted sequence keeps it sorted and takes exactly the
/// removed element out of its contents.
pub proof fn lemma_remove_seq_props(s: Seq<Seq<char>>, x: Seq<char>)
    requires
        sorted(s),
    ensures
        sorted(remove_seq(s, x)),
        forall|y: Seq<char>| #![trigger remove_seq(s, x).contains(y)]
            remove_seq(s, x).contains(y) <==> s.contains(y) && y != x,
        remove_seq(s, x).len() <= s.len(),
    decreases s.len(),
{
    let r = remove_seq(s, x);
    if s.len() == 0 {
        assert forall|y: Seq<char>| r.contains(y) <==> s.contains(y) && y != x by {
            if r.contains(y) {
                let i = choose|i: int| 0 <= i < r.len() && r[i] == y;
            }
        }
    } else if x == s[0] {
        let t = s.drop_first();
        lemma_sorted_drop_first(s);
        assert forall|y: Seq<char>| r.contains(y) <==> s.contains(y) && y != x by {
            if t.contains(y) {
                let i = choose|i: int| 0 <= i < t.len() && t[i] == y;
                assert(seq_lt(s[0], s[i + 1]));
                assert(s[i + 1] == y);
                assert(s.contains(y));
                if y == x {
                    lemma_seq_lt_irrefl(x);
                }
            }
            if s.contains(y) && y != x {
                let i = choose|i: int| 0 <= i < s.len() && s[i] == y;
                assert(i > 0);
                assert(t[i - 1] == y);
                assert(t.contains(y));
            }
        }
    } else {
        let t = s.drop_first();
        lemma_sorted_drop_first(s);
        lemma_remove_seq_props(t, x);
        let rt = remove_seq(t, x);
        assert(seq![s[0]] + t =~= s);
        assert forall|y: Seq<char>| r.contains(y) <==> s.contains(y) && y != x by {
            lemma_cons_contains(s[0], rt, y);
            lemma_cons_contains(s[0], t, y);
        }
        assert forall|j: int| 0 <= j < rt.len() implies seq_lt(s[0], #[trigger] rt[j]) by {
            assert(rt.contains(rt[j]));
            assert(t.contains(rt[j]) && rt[j] != x);
            let k = choose|k: int| 0 <= k < t.len() && t[k] == rt[j];
            assert(s[k + 1] == t[k]);
            assert(seq_lt(s[0], s[k + 1]));
        }
        lemma_sorted_cons(s[0], rt);
    }
}

/// Whether `a` comes strictly before `b` in lexicographic order.
pub fn str_lt(a: &str, b: &str) -> (r: bool)
    ensures
        r == seq_lt(a@, b@),
{
    let alen: usize = a.unicode_len();
    let blen: usize = b.unicode_len();
    let mut i: usize = 0;
    proof {
        assert(a@.skip(0) =~= a@);
        assert(b@.skip(0) =~= b@);
    }
    loop
        invariant
            i <= alen,
            i <= blen,
            alen == a@.len(),
            blen == b@.len(),
            seq_lt(a@, b@) == seq_lt(a@.skip(i as int), b@.skip(i as int)),
        decreases alen - i,
    {
        if i == alen || i == blen {
            proof {
                let sa = a@.skip(i as int);
                let sb = b@.skip(i as int);
                if i == alen {
                    assert(sa.len() == 0);
                    assert(seq_lt(sa, sb) == (sb.len() > 0));
                } else {
                    assert(sb.len() == 0);
                    assert(!seq_lt(sa, sb));
                }
            }
            return alen < blen;
        }
        let ca = a.get_char(i);
        let cb = b.get_char(i);
        if ca != cb {
            proof {
                let sa = a@.skip(i as int);
                let sb = b@.skip(i as int);
                assert(sa[0] == ca);
                assert(sb[0] == cb);
            }
            return (ca as u32) < (cb as u32);
        }
        proof {
            let sa = a@.skip(i as int);
            let sb = b@.skip(i as int);
            assert(sa[0] == ca);
            assert(sb[0] == cb);
            assert(sa.drop_first() =~= a@.skip(i as int + 1));
            assert(sb.drop_first() =~= b@.skip(i as int + 1));
        }
        i = i + 1;
    }
}

/// The number of leading elements strictly below `x`; the place where `x`
/// belongs.
fn lower_bound(v: &Vec<String>, x: &String) -> (i: usize)
    requires
        sorted(v.deep_view()),
    ensures
        i <= v.len(),
        forall|j: int| 0 <= j < i ==> seq_lt(#[trigger] v.deep_view()[j], x@),
        i < v.len() ==> !seq_lt(v.deep_view()[i as int], x@),
{
    let ghost s = v.deep_view();
    let mut i: usize = 0;
    loop
        invariant
            i <= v.len(),
            s == v.deep_view(),
            forall|j: int| 0 <= j < i ==> seq_lt(#[trigger] s[j], x@),
        decreases v.len() - i,
    {
        if i == v.len() {
            return i;
        }
        if !str_lt(v[i].as_str(), x.as_str()) {
            return i;
        }
        proof {
            assert(s[i as int] == v@[i as int]@);
        }
        i = i + 1;
    }
}

/// Puts `x` into the sorted sequence `v`, leaving `v` unchanged when it
/// already holds `x`.
pub fn insert_sorted(v: &mut Vec<String>, x: &String)
    requires
        sorted(old(v).deep_view()),
    ensures
        final(v).deep_view() == insert_seq(old(v).deep_view(), x@),
{
    let ghost s = old(v).deep_view();
    let i = lower_bound(v, x);
    if i < v.len() && v[i] == *x {
        proof {
            assert(s[i as int] == v@[i as int]@);
            lemma_insert_seq_present(s, x@, i as int);
        }
    } else {
        proof {
            if i < v.len() {
                assert(s[i as int] == v@[i as int]@);
                assert(s[i as int] != x@);
            }
            lemma_insert_seq_at(s, x@, i as int);
        }
        v.insert(i, x.clone());
        proof {
            old(v)@.insert_ensures(i as int, v@[i as int]);
            s.insert_ensures(i as int, x@);
            assert(v.deep_view() =~= s.insert(i as int, x@));
        }
    }
}

/// Takes the first occurrence of `x` out of `v`, leaving `v` unchanged when
/// `x` does not occur.
pub fn remove_sorted(v: &mut Vec<String>, x: &String)
    ensures
        final(v).deep_view() == remove_seq(old(v).deep_view(), x@),
{
    let ghost s = old(v).deep_view();
    let mut i: usize = 0;
    loop
        invariant
            i <= v.len(),
            v@ == old(v)@,
            s == v.deep_view(),
            forall|j: int| 0 <= j < i ==> #[trigger] s[j] != x@,
        decreases v.len() - i,
    {
        if i == v.len() {
            proof {
                if s.contains(x@) {
                    let k = choose|k: int| 0 <= k < s.len() && s[k] == x@;
                }
                assert(!s.contains(x@));
                lemma_remove_seq_absent(s, x@);
            }
            return;
        }
        if v[i] == *x {
            proof {
                assert(s[i as int] == v@[i as int]@);
                lemma_remove_seq_at(s, x@, i as int);
            }
            let _removed = v.remove(i);
            proof {
                old(v)@.remove_ensures(i as int);
                s.remove_ensures(i as int);
                assert(v.deep_view() =~= s.remove(i as int));
            }
            return;
        }
        proof {
            assert(s[i as int] == v@[i as int]@);
        }
        i = i + 1;
    }
}

} // verus!
