//! A stable insertion sort by lexicographic keys.
//!
//! Every ordering this library produces (violations by file and line,
//! impact by distance and path, files by size) is expressed as a key:
//! a sequence of integers compared lexicographically. Strings enter a
//! key through [`push_text_key`], which keeps their order.

use vstd::prelude::*;

verus! {

/// Strict lexicographic order on keys; a proper prefix comes first.
pub open spec fn key_lt(a: Seq<u64>, b: Seq<u64>) -> bool
    decreases a.len(),
{
    if a.len() == 0 {
        b.len() > 0
    } else if b.len() == 0 {
        false
    } else if a[0] < b[0] {
        true
    } else if a[0] > b[0] {
        false
    } else {
        key_lt(a.drop_first(), b.drop_first())
    }
}

pub proof fn lemma_key_lt_irreflexive(a: Seq<u64>)
    ensures
        !key_lt(a, a),
    decreases a.len(),
{
    if a.len() > 0 {
        lemma_key_lt_irreflexive(a.drop_first());
    }
}

pub proof fn lemma_key_lt_transitive(a: Seq<u64>, b: Seq<u64>, c: Seq<u64>)
    requires
        key_lt(a, b),
        key_lt(b, c),
    ensures
        key_lt(a, c),
    decreases a.len(),
{
    if a.len() > 0 && b.len() > 0 && c.len() > 0 && a[0] == b[0] && b[0] == c[0] {
        lemma_key_lt_transitive(a.drop_first(), b.drop_first(), c.drop_first());
    }
}

pub proof fn lemma_key_lt_total(a: Seq<u64>, b: Seq<u64>)
    ensures
        key_lt(a, b) || a == b || key_lt(b, a),
    decreases a.len(),
{
    if a.len() > 0 && b.len() > 0 && a[0] == b[0] {
        lemma_key_lt_total(a.drop_first(), b.drop_first());
        if a.drop_first() == b.drop_first() {
            assert(a =~= seq![a[0]] + a.drop_first());
            assert(b =~= seq![b[0]] + b.drop_first());
        }
    } else if a.len() == 0 && b.len() == 0 {
        assert(a =~= b);
    }
}

/// A keyed entry's key and payload.
pub open spec fn keyed<T>(s: Seq<(Vec<u64>, T)>) -> Seq<(Seq<u64>, T)> {
    s.map_values(|e: (Vec<u64>, T)| (e.0@, e.1))
}

/// Inserts `x` after every entry whose key is not greater than its own.
pub open spec fn insert_sorted<T>(s: Seq<(Seq<u64>, T)>, x: (Seq<u64>, T)) -> Seq<(Seq<u64>, T)>
    decreases s.len(),
{
    if s.len() == 0 {
        seq![x]
    } else if key_lt(x.0, s.last().0) {
        insert_sorted(s.drop_last(), x).push(s.last())
    } else {
        s.push(x)
    }
}

/// Stable insertion sort: entries with equal keys keep their order.
pub open spec fn stable_sort<T>(s: Seq<(Seq<u64>, T)>) -> Seq<(Seq<u64>, T)>
    decreases s.len(),
{
    if s.len() == 0 {
        Seq::empty()
    } else {
        insert_sorted(stable_sort(s.drop_last()), s.last())
    }
}

/// No entry's key is smaller than an earlier one's.
pub open spec fn sorted_by_key<T>(s: Seq<(Seq<u64>, T)>) -> bool {
    forall|i: int, j: int| 0 <= i < j < s.len() ==> !key_lt(#[trigger] s[j].0, #[trigger] s[i].0)
}

proof fn lemma_insert_at<T>(s: Seq<(Seq<u64>, T)>, x: (Seq<u64>, T), pos: int)
    requires
        0 <= pos <= s.len(),
        forall|j: int| pos <= j < s.len() ==> key_lt(x.0, #[trigger] s[j].0),
        pos == 0 || !key_lt(x.0, s[pos - 1].0),
    ensures
        insert_sorted(s, x) == s.insert(pos, x),
    decreases s.len(),
{
    if s.len() == 0 {
        assert(s.insert(pos, x) =~= seq![x]);
    } else if pos == s.len() {
        assert(s.insert(pos, x) =~= s.push(x));
    } else {
        assert(key_lt(x.0, s.last().0));
        let t = s.drop_last();
        assert forall|j: int| pos <= j < t.len() implies key_lt(x.0, #[trigger] t[j].0) by {
            assert(t[j] == s[j]);
        }
        if pos > 0 {
            assert(t[pos - 1] == s[pos - 1]);
        }
        lemma_insert_at(t, x, pos);
        assert(t.insert(pos, x).push(s.last()) =~= s.insert(pos, x));
    }
}

pub proof fn lemma_insert_sorted<T>(s: Seq<(Seq<u64>, T)>, x: (Seq<u64>, T))
    requires
        sorted_by_key(s),
    ensures
        sorted_by_key(insert_sorted(s, x)),
        insert_sorted(s, x).to_multiset() == s.to_multiset().insert(x),
        insert_sorted(s, x).len() == s.len() + 1,
    decreases s.len(),
{
    broadcast use vstd::seq_lib::group_to_multiset_ensures;

    if s.len() == 0 {
        assert(seq![x] =~= Seq::<(Seq<u64>, T)>::empty().push(x));
    } else if key_lt(x.0, s.last().0) {
        let t = s.drop_last();
        assert(sorted_by_key(t)) by {
            assert forall|i: int, j: int| 0 <= i < j < t.len() implies !key_lt(
                #[trigger] t[j].0,
                #[trigger] t[i].0,
            ) by {
                assert(t[i] == s[i] && t[j] == s[j]);
            }
        }
        lemma_insert_sorted(t, x);
        let u = insert_sorted(t, x);
        let w = u.push(s.last());
        assert(s =~= t.push(s.last()));
        assert forall|i: int, j: int| 0 <= i < j < w.len() implies !key_lt(
            #[trigger] w[j].0,
            #[trigger] w[i].0,
        ) by {
            if j == w.len() - 1 {
                assert(w[j] == s.last());
                assert(u.to_multiset().count(u[i]) > 0);
                assert(u.contains(u[i]));
                assert(t.to_multiset().insert(x).count(u[i]) > 0);
                if u[i] == x {
                    lemma_key_lt_irreflexive(s.last().0);
                    if key_lt(s.last().0, x.0) {
                        lemma_key_lt_transitive(x.0, s.last().0, x.0);
                        lemma_key_lt_irreflexive(x.0);
                    }
                } else {
                    assert(t.to_multiset().count(u[i]) > 0);
                    assert(t.contains(u[i]));
                    let k = choose|k: int| 0 <= k < t.len() && t[k] == u[i];
                    assert(s[k] == t[k]);
                    assert(!key_lt(s[s.len() - 1].0, s[k].0));
                }
            } else {
                assert(w[i] == u[i] && w[j] == u[j]);
            }
        }
    } else {
        let w = s.push(x);
        assert forall|i: int, j: int| 0 <= i < j < w.len() implies !key_lt(
            #[trigger] w[j].0,
            #[trigger] w[i].0,
        ) by {
            if j == w.len() - 1 {
                if i < s.len() - 1 {
                    assert(!key_lt(s[s.len() - 1].0, s[i].0));
                    if key_lt(x.0, s[i].0) {
                        lemma_key_lt_total(s.last().0, s[i].0);
                        if key_lt(s[i].0, s.last().0) {
                            lemma_key_lt_transitive(x.0, s[i].0, s.last().0);
                        }
                    }
                }
            }
        }
    }
}

pub proof fn lemma_stable_sort<T>(s: Seq<(Seq<u64>, T)>)
    ensures
        sorted_by_key(stable_sort(s)),
        stable_sort(s).to_multiset() == s.to_multiset(),
        stable_sort(s).len() == s.len(),
    decreases s.len(),
{
    broadcast use vstd::seq_lib::group_to_multiset_ensures;

    if s.len() > 0 {
        lemma_stable_sort(s.drop_last());
        lemma_insert_sorted(stable_sort(s.drop_last()), s.last());
        assert(s =~= s.drop_last().push(s.last()));
    }
}

/// Executable [`key_lt`].
pub fn key_less(a: &Vec<u64>, b: &Vec<u64>) -> (r: bool)
    ensures
        r == key_lt(a@, b@),
{
    let mut i: usize = 0;
    assert(a@.skip(0) =~= a@ && b@.skip(0) =~= b@);
    while i < a.len() && i < b.len()
        invariant
            i <= a@.len(),
            i <= b@.len(),
            forall|j: int| 0 <= j < i ==> a@[j] == b@[j],
            key_lt(a@, b@) == key_lt(a@.skip(i as int), b@.skip(i as int)),
        decreases a@.len() - i,
    {
        if a[i] < b[i] {
            return true;
        }
        if a[i] > b[i] {
            return false;
        }
        assert(a@.skip(i as int).drop_first() =~= a@.skip(i + 1));
        assert(b@.skip(i as int).drop_first() =~= b@.skip(i + 1));
        i = i + 1;
    }
    i == a.len() && i < b.len()
}

/// Sorts entries by key, stably.
pub fn sort_by_key<T>(v: Vec<(Vec<u64>, T)>) -> (r: Vec<(Vec<u64>, T)>)
    ensures
        keyed(r@) == stable_sort(keyed(v@)),
        sorted_by_key(keyed(r@)),
        keyed(r@).to_multiset() == keyed(v@).to_multiset(),
{
    let ghost input = keyed(v@);
    let mut v = v;
    let mut r: Vec<(Vec<u64>, T)> = Vec::new();
    let ghost n = v@.len();
    assert(keyed(r@) =~= stable_sort(input.take(0)));
    assert(keyed(v@) =~= input.skip(0));
    while v.len() > 0
        invariant
            n == input.len(),
            v@.len() <= n,
            keyed(v@) == input.skip(n - v@.len()),
            keyed(r@) == stable_sort(input.take(n - v@.len())),
        decreases v@.len(),
    {
        let ghost done = (n - v@.len()) as int;
        let ghost vb = v@;
        let x = v.remove(0);
        assert(v@ =~= vb.subrange(1, vb.len() as int));
        assert(keyed(vb)[0] == input.skip(done)[0]);
        assert forall|k: int| 0 <= k < v@.len() implies keyed(v@)[k] == input.skip(done + 1)[k] by {
            assert(keyed(vb)[k + 1] == input.skip(done)[k + 1]);
            assert(v@[k] == vb[k + 1]);
        }
        assert(keyed(v@) =~= input.skip(done + 1));
        let ghost kx = (x.0@, x.1);
        assert(input[done] == kx);
        let mut pos = r.len();
        while pos > 0 && key_less(&x.0, &r[pos - 1].0)
            invariant
                pos <= r@.len(),
                forall|j: int| pos <= j < r@.len() ==> key_lt(x.0@, #[trigger] keyed(r@)[j].0),
            decreases pos,
        {
            pos = pos - 1;
        }
        proof {
            lemma_insert_at(keyed(r@), kx, pos as int);
            assert(input.take(done + 1).drop_last() =~= input.take(done));
        }
        let ghost before = r@;
        r.insert(pos, x);
        assert(keyed(r@) =~= keyed(before).insert(pos as int, kx));
    }
    assert(input.take(n as int) =~= input);
    proof {
        lemma_stable_sort(input);
    }
    r
}


/// The key of a piece of text: each character's code shifted up by
/// one, then a zero, so a proper prefix sorts first and text compares
/// character by character, as `String`'s order does.
pub open spec fn text_key(s: Seq<char>) -> Seq<u64> {
    s.map_values(|c: char| char_code(c)).push(0)
}

/// A character's place in a text key.
pub open spec fn char_code(c: char) -> u64 {
    ((c as u32) as u64 + 1) as u64
}

/// Appends [`text_key`] of `s` to `key`.
pub fn push_text_key(key: &mut Vec<u64>, s: &[char])
    ensures
        final(key)@ == old(key)@ + text_key(s@),
{
    let ghost k0 = key@;
    let mut i: usize = 0;
    while i < s.len()
        invariant
            i <= s@.len(),
            key@ == k0 + s@.take(i as int).map_values(|c: char| char_code(c)),
        decreases s@.len() - i,
    {
        let c = s[i];
        let u: u32 = c as u32;
        key.push(u as u64 + 1);
        i = i + 1;
        assert(s@.take(i as int).map_values(|c: char| char_code(c)) =~= s@.take(
            i - 1,
        ).map_values(|c: char| char_code(c)).push(char_code(c)));
        assert(key@ =~= k0 + s@.take(i as int).map_values(|c: char| char_code(c)));
    }
    key.push(0);
    assert(s@.take(s@.len() as int) =~= s@);
    assert(key@ =~= k0 + text_key(s@));
}

/// Replaces every payload by `f` of it, keeping keys.
pub open spec fn map_payload<T, U>(s: Seq<(Seq<u64>, T)>, f: spec_fn(T) -> U) -> Seq<(Seq<u64>, U)> {
    s.map_values(|e: (Seq<u64>, T)| (e.0, f(e.1)))
}

proof fn lemma_insert_map_payload<T, U>(s: Seq<(Seq<u64>, T)>, x: (Seq<u64>, T), f: spec_fn(T) -> U)
    ensures
        insert_sorted(map_payload(s, f), (x.0, f(x.1))) == map_payload(insert_sorted(s, x), f),
    decreases s.len(),
{
    if s.len() == 0 {
        assert(map_payload(seq![x], f) =~= seq![(x.0, f(x.1))]);
    } else {
        let ms = map_payload(s, f);
        assert(ms.last() == (s.last().0, f(s.last().1)));
        assert(ms.drop_last() =~= map_payload(s.drop_last(), f));
        if key_lt(x.0, s.last().0) {
            lemma_insert_map_payload(s.drop_last(), x, f);
            assert(map_payload(insert_sorted(s.drop_last(), x).push(s.last()), f) =~= map_payload(
                insert_sorted(s.drop_last(), x),
                f,
            ).push((s.last().0, f(s.last().1))));
        } else {
            assert(map_payload(s.push(x), f) =~= ms.push((x.0, f(x.1))));
        }
    }
}

/// Sorting commutes with changing payloads: only keys are compared.
pub proof fn lemma_stable_sort_map_payload<T, U>(s: Seq<(Seq<u64>, T)>, f: spec_fn(T) -> U)
    ensures
        stable_sort(map_payload(s, f)) == map_payload(stable_sort(s), f),
    decreases s.len(),
{
    if s.len() == 0 {
        assert(map_payload(s, f) =~= Seq::<(Seq<u64>, U)>::empty());
        assert(map_payload(Seq::<(Seq<u64>, T)>::empty(), f) =~= Seq::<(Seq<u64>, U)>::empty());
    } else {
        let ms = map_payload(s, f);
        assert(ms.drop_last() =~= map_payload(s.drop_last(), f));
        assert(ms.last() == (s.last().0, f(s.last().1)));
        lemma_stable_sort_map_payload(s.drop_last(), f);
        lemma_insert_map_payload(stable_sort(s.drop_last()), s.last(), f);
    }
}


/// Sorting neither invents nor loses entries.
pub proof fn lemma_stable_sort_members<T>(s: Seq<(Seq<u64>, T)>)
    ensures
        forall|x: (Seq<u64>, T)| stable_sort(s).contains(x) <==> s.contains(x),
{
    broadcast use vstd::seq_lib::group_to_multiset_ensures;

    lemma_stable_sort(s);
    assert forall|x: (Seq<u64>, T)| stable_sort(s).contains(x) <==> s.contains(x) by {
        assert(stable_sort(s).contains(x) <==> stable_sort(s).to_multiset().count(x) > 0);
        assert(s.contains(x) <==> s.to_multiset().count(x) > 0);
    }
}


/// Different texts have different keys.
pub proof fn lemma_text_key_injective(a: Seq<char>, b: Seq<char>)
    requires
        text_key(a) == text_key(b),
    ensures
        a == b,
{
    assert(text_key(a).len() == a.len() + 1);
    assert(text_key(b).len() == b.len() + 1);
    assert forall|i: int| 0 <= i < a.len() implies a[i] == b[i] by {
        assert(text_key(a)[i] == char_code(a[i]));
        assert(text_key(b)[i] == char_code(b[i]));
        let u: u32 = a[i] as u32;
        assert(u == b[i] as u32);
        vstd::utf8::char_u32_cast(a[i], u);
        vstd::utf8::char_u32_cast(b[i], u);
    }
    assert(a =~= b);
}

/// The key of a text, built afresh.
pub fn text_key_of(s: &[char]) -> (k: Vec<u64>)
    ensures
        k@ == text_key(s@),
{
    let mut k: Vec<u64> = Vec::new();
    push_text_key(&mut k, s);
    assert(k@ =~= text_key(s@));
    k
}

} // verus!

verus! {

/// A list of distinct texts, each with its key, in strictly increasing
/// key order.
pub open spec fn distinct_sorted(s: Seq<(Vec<u64>, Vec<char>)>) -> bool {
    &&& forall|a: int| 0 <= a < s.len() ==> #[trigger] s[a].0@ == text_key(s[a].1@)
    &&& forall|a: int, b: int| 0 <= a < b < s.len() ==> key_lt(#[trigger] s[a].0@, #[trigger] s[b].0@)
}

/// Whether the list holds the text `n`.
pub open spec fn holds_text(s: Seq<(Vec<u64>, Vec<char>)>, n: Seq<char>) -> bool {
    exists|a: int| 0 <= a < s.len() && #[trigger] s[a].1@ == n
}

/// Adds `name` to a [`distinct_sorted`] list, unless it is there.
pub fn insert_distinct(names: &mut Vec<(Vec<u64>, Vec<char>)>, name: Vec<char>)
    requires
        distinct_sorted(old(names)@),
    ensures
        distinct_sorted(final(names)@),
        forall|n: Seq<char>| #[trigger] holds_text(final(names)@, n) <==> (holds_text(old(names)@, n) || n == name@),
{
    let ghost before = names@;
    let key = text_key_of(name.as_slice());
    let mut pos: usize = 0;
    while pos < names.len() && key_less(&names[pos].0, &key)
        invariant
            names@ == before,
            pos <= names@.len(),
            forall|a: int| 0 <= a < pos ==> key_lt(#[trigger] names@[a].0@, key@),
        decreases names@.len() - pos,
    {
        pos = pos + 1;
    }
    if pos < names.len() && crate::text::chars_eq(names[pos].1.as_slice(), name.as_slice()) {
        assert(names@[pos as int].1@ == name@);
        assert forall|n: Seq<char>| #[trigger] holds_text(names@, n) <==> (holds_text(before, n) || n == name@) by {}
        return;
    }
    proof {
        if pos < names@.len() {
            lemma_key_lt_total(names@[pos as int].0@, key@);
            if names@[pos as int].0@ == key@ {
                lemma_text_key_injective(names@[pos as int].1@, name@);
            }
        }
    }
    let ghost nv = name@;
    names.insert(pos, (key, name));
    proof {
        assert(names@[pos as int].1@ == nv);
        assert forall|a: int| 0 <= a < names@.len() implies #[trigger] names@[a].0@ == text_key(names@[a].1@) by {
            if a < pos {
                assert(names@[a] == before[a]);
            } else if a > pos {
                assert(names@[a] == before[a - 1]);
            }
        }
        assert forall|a: int, b: int| 0 <= a < b < names@.len() implies key_lt(#[trigger] names@[a].0@, #[trigger] names@[b].0@) by {
            if b < pos {
                assert(names@[a] == before[a] && names@[b] == before[b]);
            } else if b == pos {
                assert(names@[a] == before[a]);
            } else if a < pos {
                assert(names@[a] == before[a] && names@[b] == before[b - 1]);
                assert(key_lt(key@, before[pos as int].0@));
                if b - 1 > pos {
                    lemma_key_lt_transitive(key@, before[pos as int].0@, before[b - 1].0@);
                }
                lemma_key_lt_transitive(before[a].0@, key@, before[b - 1].0@);
            } else if a == pos {
                assert(names@[b] == before[b - 1]);
                assert(key_lt(key@, before[pos as int].0@));
                if b - 1 > pos {
                    lemma_key_lt_transitive(key@, before[pos as int].0@, before[b - 1].0@);
                }
            } else {
                assert(names@[a] == before[a - 1] && names@[b] == before[b - 1]);
            }
        }
        assert forall|n: Seq<char>| #[trigger] holds_text(names@, n) <==> (holds_text(before, n) || n == nv) by {
            if holds_text(names@, n) {
                let a = choose|a: int| 0 <= a < names@.len() && #[trigger] names@[a].1@ == n;
                if a < pos {
                    assert(before[a].1@ == n);
                } else if a > pos {
                    assert(before[a - 1].1@ == n);
                }
            }
            if holds_text(before, n) {
                let a = choose|a: int| 0 <= a < before.len() && #[trigger] before[a].1@ == n;
                if a < pos {
                    assert(names@[a].1@ == n);
                } else {
                    assert(names@[a + 1].1@ == n);
                }
            }
            if n == nv {
                assert(names@[pos as int].1@ == n);
            }
        }
    }
}

} // verus!
