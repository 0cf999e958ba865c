//! Byte-lexicographic ordering of string keys, and the sorted-by-key
//! projection of keyed entry sequences.
//!
//! Property maps are stored in insertion order but always serialized in
//! sorted key order. This module defines that order (on the UTF-8 bytes of
//! the key), a verified insertion sort, and the fact that makes the encoding
//! deterministic: two sorted, duplicate-free entry sequences holding the same
//! key-to-value map are the same sequence.

use vstd::prelude::*;
use vstd::utf8::encode_utf8;

verus! {

/// The byte sequence a key is ordered by: the UTF-8 encoding of its text.
pub open spec fn key_bytes(k: Seq<char>) -> Seq<u8> {
    encode_utf8(k)
}

/// Lexicographic "less than or equal" on byte sequences.
pub open spec fn lex_le(a: Seq<u8>, b: Seq<u8>) -> bool
    decreases a.len(),
{
    if a.len() == 0 {
        true
    } else if b.len() == 0 {
        false
    } else if a[0] < b[0] {
        true
    } else if a[0] > b[0] {
        false
    } else {
        lex_le(a.subrange(1, a.len() as int), b.subrange(1, b.len() as int))
    }
}

pub proof fn lemma_lex_le_total(a: Seq<u8>, b: Seq<u8>)
    ensures
        lex_le(a, b) || lex_le(b, a),
    decreases a.len(),
{
    if a.len() > 0 && b.len() > 0 && a[0] == b[0] {
        lemma_lex_le_total(a.subrange(1, a.len() as int), b.subrange(1, b.len() as int));
    }
}

pub proof fn lemma_lex_le_antisym(a: Seq<u8>, b: Seq<u8>)
    requires
        lex_le(a, b),
        lex_le(b, a),
    ensures
        a == b,
    decreases a.len(),
{
    if a.len() == 0 {
        assert(b.len() == 0);
        assert(a =~= b);
    } else {
        let at = a.subrange(1, a.len() as int);
        let bt = b.subrange(1, b.len() as int);
        assert(b.len() > 0 && a[0] == b[0]);
        lemma_lex_le_antisym(at, bt);
        assert(a.len() == b.len());
        assert forall|i: int| 0 <= i < a.len() implies a[i] == b[i] by {
            if i > 0 {
                assert(a[i] == at[i - 1]);
                assert(b[i] == bt[i - 1]);
            }
        }
        assert(a =~= b);
    }
}

pub proof fn lemma_lex_le_refl(a: Seq<u8>)
    ensures
        lex_le(a, a),
{
    lemma_lex_le_total(a, a);
}

pub proof fn lemma_lex_le_trans(a: Seq<u8>, b: Seq<u8>, c: Seq<u8>)
    requires
        lex_le(a, b),
        lex_le(b, c),
    ensures
        lex_le(a, c),
    decreases a.len(),
{
    if a.len() > 0 && b.len() > 0 && c.len() > 0 && a[0] == b[0] && b[0] == c[0] {
        lemma_lex_le_trans(
            a.subrange(1, a.len() as int),
            b.subrange(1, b.len() as int),
            c.subrange(1, c.len() as int),
        );
    }
}

/// Equal key bytes mean equal key text: UTF-8 encoding is injective.
pub proof fn lemma_key_bytes_injective(a: Seq<char>, b: Seq<char>)
    requires
        key_bytes(a) == key_bytes(b),
    ensures
        a == b,
{
    vstd::utf8::encode_utf8_decode_utf8(a);
    vstd::utf8::encode_utf8_decode_utf8(b);
}

/// Order between two keyed entries, by key bytes.
pub open spec fn entry_le<V>(x: (Seq<char>, V), y: (Seq<char>, V)) -> bool {
    lex_le(key_bytes(x.0), key_bytes(y.0))
}

/// Insert one entry into an already sorted entry sequence, before the first
/// entry whose key is not smaller.
pub open spec fn insert_sorted<V>(e: (Seq<char>, V), s: Seq<(Seq<char>, V)>) -> Seq<(Seq<char>, V)>
    decreases s.len(),
{
    if s.len() == 0 {
        seq![e]
    } else if entry_le(e, s[0]) {
        seq![e] + s
    } else {
        seq![s[0]] + insert_sorted(e, s.subrange(1, s.len() as int))
    }
}

/// Sort an entry sequence by key bytes (insertion sort).
pub open spec fn sorted_by_key<V>(s: Seq<(Seq<char>, V)>) -> Seq<(Seq<char>, V)>
    decreases s.len(),
{
    if s.len() == 0 {
        Seq::empty()
    } else {
        insert_sorted(s[0], sorted_by_key(s.subrange(1, s.len() as int)))
    }
}

/// The sequence is in (weakly) ascending key order.
pub open spec fn entries_sorted<V>(s: Seq<(Seq<char>, V)>) -> bool {
    forall|i: int, j: int| 0 <= i < j < s.len() ==> entry_le(s[i], s[j])
}

/// No two entries share a key.
pub open spec fn unique_keys<V>(s: Seq<(Seq<char>, V)>) -> bool {
    forall|i: int, j: int| 0 <= i < j < s.len() ==> s[i].0 != s[j].0
}

/// Whether some entry carries the given key.
pub open spec fn has_key<V>(s: Seq<(Seq<char>, V)>, k: Seq<char>) -> bool {
    exists|i: int| #![trigger s[i]] 0 <= i < s.len() && s[i].0 == k
}

/// The key-to-value map an entry sequence denotes (later entries win; under
/// `unique_keys` the direction is irrelevant).
pub open spec fn map_of<V>(s: Seq<(Seq<char>, V)>) -> Map<Seq<char>, V>
    decreases s.len(),
{
    if s.len() == 0 {
        Map::empty()
    } else {
        map_of(s.drop_last()).insert(s.last().0, s.last().1)
    }
}

/// An entry's key is a key of the sequence.
pub proof fn lemma_has_key_intro<V>(s: Seq<(Seq<char>, V)>, i: int)
    requires
        0 <= i < s.len(),
    ensures
        has_key(s, s[i].0),
{
    assert(0 <= i < s.len() && s[i].0 == s[i].0);
}

/// A witness index for a key the sequence has.
pub proof fn key_index<V>(s: Seq<(Seq<char>, V)>, k: Seq<char>) -> (i: int)
    requires
        has_key(s, k),
    ensures
        0 <= i < s.len(),
        s[i].0 == k,
{
    choose|i: int| #![trigger s[i]] 0 <= i < s.len() && s[i].0 == k
}

pub proof fn lemma_map_of_dom<V>(s: Seq<(Seq<char>, V)>)
    ensures
        forall|k: Seq<char>|
            #![trigger map_of(s).dom().contains(k)]
            #![trigger has_key(s, k)]
            map_of(s).dom().contains(k) <==> has_key(s, k),
    decreases s.len(),
{
    if s.len() > 0 {
        let t = s.drop_last();
        lemma_map_of_dom(t);
        assert forall|k: Seq<char>|
            #![trigger map_of(s).dom().contains(k)]
            #![trigger has_key(s, k)]
            map_of(s).dom().contains(k) <==> has_key(s, k) by {
            if map_of(s).dom().contains(k) {
                if k == s.last().0 {
                    lemma_has_key_intro(s, s.len() - 1);
                } else {
                    assert(map_of(t).dom().contains(k));
                    let i = key_index(t, k);
                    assert(s[i] == t[i]);
                    lemma_has_key_intro(s, i);
                }
            }
            if has_key(s, k) {
                let i = key_index(s, k);
                if i < s.len() - 1 {
                    assert(t[i] == s[i]);
                    lemma_has_key_intro(t, i);
                    assert(map_of(t).dom().contains(k));
                }
            }
        }
    }
}

/// Under unique keys, each entry's value is what the map holds for its key.
pub proof fn lemma_map_of_index<V>(s: Seq<(Seq<char>, V)>, i: int)
    requires
        unique_keys(s),
        0 <= i < s.len(),
    ensures
        map_of(s).dom().contains(s[i].0),
        map_of(s)[s[i].0] == s[i].1,
    decreases s.len(),
{
    if i < s.len() - 1 {
        assert(forall|p: int, q: int|
            0 <= p < q < s.drop_last().len() ==> s.drop_last()[p].0 != s.drop_last()[q].0);
        lemma_map_of_index(s.drop_last(), i);
        assert(s[i].0 != s.last().0);
    }
}

/// Peeling the first entry off removes exactly its key from the map.
pub proof fn lemma_map_of_drop_first<V>(s: Seq<(Seq<char>, V)>)
    requires
        unique_keys(s),
        s.len() > 0,
    ensures
        map_of(s.drop_first()) == map_of(s).remove(s[0].0),
        !map_of(s.drop_first()).dom().contains(s[0].0),
    decreases s.len(),
{
    let t = s.drop_first();
    assert(forall|p: int, q: int| 0 <= p < q < t.len() ==> t[p].0 != t[q].0);
    lemma_map_of_dom(t);
    assert(!has_key(t, s[0].0)) by {
        if has_key(t, s[0].0) {
            let i = key_index(t, s[0].0);
            assert(s[i + 1].0 == s[0].0);
        }
    }
    if s.len() == 1 {
        assert(t =~= Seq::<(Seq<char>, V)>::empty());
        assert(s.drop_last() =~= Seq::<(Seq<char>, V)>::empty());
        assert(map_of(s) =~= Map::empty().insert(s[0].0, s[0].1));
        assert(map_of(t) =~= map_of(s).remove(s[0].0));
    } else {
        lemma_map_of_drop_first(s.drop_last());
        assert(s.drop_last().drop_first() =~= t.drop_last());
        assert(s.drop_last()[0] == s[0]);
        assert(t.last() == s.last());
        assert(map_of(t) =~= map_of(s).remove(s[0].0)) by {
            assert(map_of(t) == map_of(t.drop_last()).insert(t.last().0, t.last().1));
            assert(map_of(t.drop_last()) == map_of(s.drop_last()).remove(s[0].0));
            assert(map_of(s) == map_of(s.drop_last()).insert(s.last().0, s.last().1));
            assert(s.last().0 != s[0].0);
        }
    }
}

/// Two sorted, duplicate-free entry sequences with the same map are the same
/// sequence: the ground of deterministic encoding.
pub proof fn lemma_sorted_unique_map_equal<V>(s1: Seq<(Seq<char>, V)>, s2: Seq<(Seq<char>, V)>)
    requires
        entries_sorted(s1),
        entries_sorted(s2),
        unique_keys(s1),
        unique_keys(s2),
        map_of(s1) == map_of(s2),
    ensures
        s1 == s2,
    decreases s1.len(),
{
    lemma_map_of_dom(s1);
    lemma_map_of_dom(s2);
    if s1.len() == 0 {
        if s2.len() > 0 {
            lemma_has_key_intro(s2, 0);
            assert(map_of(s2).dom().contains(s2[0].0));
            assert(map_of(s1).dom().contains(s2[0].0));
            assert(has_key(s1, s2[0].0));
            let i = key_index(s1, s2[0].0);
            assert(false);
        }
        assert(s1 =~= s2);
    } else {
        if s2.len() == 0 {
            lemma_has_key_intro(s1, 0);
            assert(map_of(s1).dom().contains(s1[0].0));
            assert(map_of(s2).dom().contains(s1[0].0));
            assert(has_key(s2, s1[0].0));
            let i = key_index(s2, s1[0].0);
            assert(false);
        }
        // The two head keys are mutually <=, hence byte-equal, hence equal.
        lemma_has_key_intro(s1, 0);
        assert(map_of(s1).dom().contains(s1[0].0));
        assert(map_of(s2).dom().contains(s1[0].0));
        assert(has_key(s2, s1[0].0));
        let j = key_index(s2, s1[0].0);
        if j > 0 {
            assert(entry_le(s2[0], s2[j]));
        } else {
            lemma_lex_le_refl(key_bytes(s2[0].0));
        }
        assert(lex_le(key_bytes(s2[0].0), key_bytes(s1[0].0)));
        lemma_has_key_intro(s2, 0);
        assert(map_of(s2).dom().contains(s2[0].0));
        assert(map_of(s1).dom().contains(s2[0].0));
        assert(has_key(s1, s2[0].0));
        let i = key_index(s1, s2[0].0);
        if i > 0 {
            assert(entry_le(s1[0], s1[i]));
        } else {
            lemma_lex_le_refl(key_bytes(s1[0].0));
        }
        assert(lex_le(key_bytes(s1[0].0), key_bytes(s2[0].0)));
        lemma_lex_le_antisym(key_bytes(s1[0].0), key_bytes(s2[0].0));
        lemma_key_bytes_injective(s1[0].0, s2[0].0);
        assert(s1[0].0 == s2[0].0);
        lemma_map_of_index(s1, 0);
        lemma_map_of_index(s2, 0);
        assert(s1[0].1 == s2[0].1);
        lemma_map_of_drop_first(s1);
        lemma_map_of_drop_first(s2);
        let t1 = s1.drop_first();
        let t2 = s2.drop_first();
        assert(forall|p: int, q: int|
            0 <= p < q < t1.len() ==> entry_le(t1[p], t1[q]) && t1[p].0 != t1[q].0);
        assert(forall|p: int, q: int|
            0 <= p < q < t2.len() ==> entry_le(t2[p], t2[q]) && t2[p].0 != t2[q].0);
        assert(map_of(t1) == map_of(t2));
        lemma_sorted_unique_map_equal(t1, t2);
        assert(s1 =~= s2) by {
            assert(forall|p: int| 1 <= p < s1.len() ==> s1[p] == t1[p - 1]);
            assert(forall|p: int| 1 <= p < s2.len() ==> s2[p] == t2[p - 1]);
        }
    }
}

/// Putting an element at the front adds it to the sequence's multiset.
pub proof fn lemma_to_multiset_insert_front<V>(s: Seq<V>, e: V)
    ensures
        s.insert(0, e).to_multiset() == s.to_multiset().insert(e),
{
    broadcast use vstd::seq_lib::group_to_multiset_ensures;
    broadcast use vstd::multiset::group_multiset_axioms;

    let r = s.insert(0, e);
    assert(r.remove(0) =~= s);
    assert(r.remove(0).to_multiset() =~= r.to_multiset().remove(r[0]));
    assert(r[0] == e);
    assert(r.to_multiset().count(e) > 0) by {
        assert(r.contains(e)) by {
            assert(r[0] == e);
        }
    }
    assert(r.to_multiset() =~= s.to_multiset().insert(e)) by {
        assert(forall|a: V|
            a != e ==> r.to_multiset().count(a) == s.to_multiset().insert(e).count(a));
        assert(r.to_multiset().count(e) == s.to_multiset().insert(e).count(e));
    }
}

/// What `insert_sorted` does, stated element-wise.
pub proof fn lemma_insert_sorted_props<V>(e: (Seq<char>, V), s: Seq<(Seq<char>, V)>)
    ensures
        insert_sorted(e, s).len() == s.len() + 1,
        insert_sorted(e, s).to_multiset() == s.to_multiset().insert(e),
        forall|k: Seq<char>| #[trigger] has_key(insert_sorted(e, s), k) <==> (has_key(s, k) || k == e.0),
        entries_sorted(s) ==> entries_sorted(insert_sorted(e, s)),
    decreases s.len(),
{
    broadcast use vstd::seq_lib::group_to_multiset_ensures;
    broadcast use vstd::multiset::group_multiset_axioms;

    let r = insert_sorted(e, s);
    if s.len() == 0 {
        assert(r =~= seq![e]);
        assert(r =~= Seq::<(Seq<char>, V)>::empty().insert(0, e));
        lemma_to_multiset_insert_front(Seq::<(Seq<char>, V)>::empty(), e);
        assert(Seq::<(Seq<char>, V)>::empty() =~= s);
        assert forall|k: Seq<char>| #[trigger] has_key(r, k) implies (has_key(s, k) || k == e.0) by {
            let i = key_index(r, k);
            assert(i == 0);
        }
        assert forall|k: Seq<char>| (has_key(s, k) || k == e.0) implies #[trigger] has_key(r, k) by {
            if has_key(s, k) {
                let i = key_index(s, k);
                assert(false);
            } else {
                lemma_has_key_intro(r, 0);
            }
        }
    } else if entry_le(e, s[0]) {
        assert(r == seq![e] + s);
        assert(r =~= s.insert(0, e));
        lemma_to_multiset_insert_front(s, e);
        assert forall|k: Seq<char>| #[trigger] has_key(r, k) implies (has_key(s, k) || k == e.0) by {
            let i = key_index(r, k);
            if i > 0 {
                assert(s[i - 1] == r[i]);
                lemma_has_key_intro(s, i - 1);
            }
        }
        assert forall|k: Seq<char>| (has_key(s, k) || k == e.0) implies #[trigger] has_key(r, k) by {
            if has_key(s, k) {
                let i = key_index(s, k);
                assert(r[i + 1] == s[i]);
                lemma_has_key_intro(r, i + 1);
            } else {
                lemma_has_key_intro(r, 0);
            }
        }
        if entries_sorted(s) {
            assert forall|i: int, j: int| 0 <= i < j < r.len() implies entry_le(r[i], r[j]) by {
                if i == 0 {
                    if j > 1 {
                        assert(entry_le(s[0], s[j - 1]));
                        lemma_lex_le_trans(
                            key_bytes(e.0),
                            key_bytes(s[0].0),
                            key_bytes(s[j - 1].0),
                        );
                    }
                } else {
                    assert(entry_le(s[i - 1], s[j - 1]));
                }
            }
        }
    } else {
        let tail = s.subrange(1, s.len() as int);
        lemma_insert_sorted_props(e, tail);
        let rt = insert_sorted(e, tail);
        assert(r == seq![s[0]] + rt);
        assert(r =~= rt.insert(0, s[0]));
        lemma_to_multiset_insert_front(rt, s[0]);
        assert(s =~= tail.insert(0, s[0]));
        lemma_to_multiset_insert_front(tail, s[0]);
        assert(r.to_multiset() == s.to_multiset().insert(e)) by {
            assert(r.to_multiset() == rt.to_multiset().insert(s[0]));
            assert(rt.to_multiset() == tail.to_multiset().insert(e));
            assert(s.to_multiset() == tail.to_multiset().insert(s[0]));
            assert(tail.to_multiset().insert(e).insert(s[0])
                =~= tail.to_multiset().insert(s[0]).insert(e));
        }
        assert forall|k: Seq<char>| #[trigger] has_key(r, k) implies (has_key(s, k) || k == e.0) by {
            let i = key_index(r, k);
            if i == 0 {
                lemma_has_key_intro(s, 0);
            } else {
                assert(rt[i - 1] == r[i]);
                lemma_has_key_intro(rt, i - 1);
                assert(has_key(rt, k));
                if has_key(tail, k) {
                    let p = key_index(tail, k);
                    assert(s[p + 1] == tail[p]);
                    lemma_has_key_intro(s, p + 1);
                }
            }
        }
        assert forall|k: Seq<char>| (has_key(s, k) || k == e.0) implies #[trigger] has_key(r, k) by {
            if has_key(s, k) {
                let i = key_index(s, k);
                if i == 0 {
                    lemma_has_key_intro(r, 0);
                } else {
                    assert(tail[i - 1] == s[i]);
                    lemma_has_key_intro(tail, i - 1);
                    assert(has_key(rt, k));
                    let p = key_index(rt, k);
                    assert(r[p + 1] == rt[p]);
                    lemma_has_key_intro(r, p + 1);
                }
            } else {
                assert(has_key(rt, k));
                let p = key_index(rt, k);
                assert(r[p + 1] == rt[p]);
                lemma_has_key_intro(r, p + 1);
            }
        }
        if entries_sorted(s) {
            assert(forall|p: int, q: int|
                0 <= p < q < tail.len() ==> entry_le(tail[p], tail[q]));
            assert(entries_sorted(rt));
            // s[0] is <= e (by totality, since !entry_le(e, s[0])) and <= every
            // tail entry, so it can stand in front of the inserted tail.
            lemma_lex_le_total(key_bytes(e.0), key_bytes(s[0].0));
            assert forall|i: int, j: int| 0 <= i < j < r.len() implies entry_le(r[i], r[j]) by {
                if i == 0 {
                    assert(rt.to_multiset().contains(r[j])) by {
                        assert(rt[j - 1] == r[j]);
                        assert(rt.contains(r[j]));
                    }
                    assert(tail.to_multiset().insert(e).contains(r[j]));
                    if r[j] == e {
                        assert(entry_le(s[0], e));
                    } else {
                        assert(tail.to_multiset().count(r[j]) > 0);
                        assert(tail.contains(r[j]));
                        let p = choose|p: int| 0 <= p < tail.len() && tail[p] == r[j];
                        assert(entry_le(s[0], s[p + 1]));
                    }
                } else {
                    assert(entry_le(rt[i - 1], rt[j - 1]));
                }
            }
        }
    }
}

/// What `sorted_by_key` does: a sorted permutation with the same keys.
pub proof fn lemma_sorted_by_key_props<V>(s: Seq<(Seq<char>, V)>)
    ensures
        sorted_by_key(s).len() == s.len(),
        sorted_by_key(s).to_multiset() == s.to_multiset(),
        forall|k: Seq<char>| #[trigger] has_key(sorted_by_key(s), k) <==> has_key(s, k),
        entries_sorted(sorted_by_key(s)),
    decreases s.len(),
{
    broadcast use vstd::seq_lib::group_to_multiset_ensures;
    broadcast use vstd::multiset::group_multiset_axioms;

    if s.len() > 0 {
        let tail = s.subrange(1, s.len() as int);
        lemma_sorted_by_key_props(tail);
        lemma_insert_sorted_props(s[0], sorted_by_key(tail));
        let r = sorted_by_key(s);
        assert(r.to_multiset() == s.to_multiset()) by {
            assert(r.to_multiset() == sorted_by_key(tail).to_multiset().insert(s[0]));
            assert(s =~= tail.insert(0, s[0]));
            lemma_to_multiset_insert_front(tail, s[0]);
        }
        assert forall|k: Seq<char>| has_key(s, k) implies #[trigger] has_key(r, k) by {
            let i = key_index(s, k);
            if i > 0 {
                assert(tail[i - 1] == s[i]);
                lemma_has_key_intro(tail, i - 1);
                assert(has_key(sorted_by_key(tail), k));
            } else {
                lemma_has_key_intro(s, 0);
            }
            assert(has_key(r, k));
        }
        assert forall|k: Seq<char>| #[trigger] has_key(r, k) implies has_key(s, k) by {
            if has_key(sorted_by_key(tail), k) {
                assert(has_key(tail, k));
                let i = key_index(tail, k);
                assert(s[i + 1] == tail[i]);
                lemma_has_key_intro(s, i + 1);
            } else {
                assert(k == s[0].0);
                lemma_has_key_intro(s, 0);
            }
        }
    }
}

/// The key view of executable entries: each `(String, T)` as `(Seq<char>, T)`.
pub open spec fn keyed<T>(s: Seq<(String, T)>) -> Seq<(Seq<char>, T)> {
    Seq::new(s.len(), |i: int| (s[i].0@, s[i].1))
}

/// Compare two keys in byte-lexicographic order.
pub fn key_le(a: &str, b: &str) -> (r: bool)
    ensures
        r == lex_le(key_bytes(a@), key_bytes(b@)),
{
    let ab = a.as_bytes();
    let bb = b.as_bytes();
    proof {
        assert(ab@.subrange(0, ab@.len() as int) =~= ab@);
        assert(bb@.subrange(0, bb@.len() as int) =~= bb@);
    }
    let mut i: usize = 0;
    loop
        invariant
            i <= ab@.len(),
            i <= bb@.len(),
            ab@ == key_bytes(a@),
            bb@ == key_bytes(b@),
            lex_le(key_bytes(a@), key_bytes(b@)) == lex_le(
                ab@.subrange(i as int, ab@.len() as int),
                bb@.subrange(i as int, bb@.len() as int),
            ),
        decreases ab@.len() - i,
    {
        let ghost sa = ab@.subrange(i as int, ab@.len() as int);
        let ghost sb = bb@.subrange(i as int, bb@.len() as int);
        if i == ab.len() {
            proof {
                assert(sa.len() == 0);
            }
            return true;
        }
        if i == bb.len() {
            proof {
                assert(sa.len() > 0 && sb.len() == 0);
            }
            return false;
        }
        let x = ab[i];
        let y = bb[i];
        proof {
            assert(sa[0] == x && sb[0] == y);
        }
        if x < y {
            return true;
        }
        if x > y {
            return false;
        }
        proof {
            assert(sa.subrange(1, sa.len() as int) =~= ab@.subrange(
                i as int + 1,
                ab@.len() as int,
            ));
            assert(sb.subrange(1, sb.len() as int) =~= bb@.subrange(
                i as int + 1,
                bb@.len() as int,
            ));
        }
        i = i + 1;
    }
}

/// Where `insert_sorted` puts an entry: the splice point, stated directly.
pub proof fn lemma_insert_sorted_at<V>(e: (Seq<char>, V), s: Seq<(Seq<char>, V)>, p: int)
    requires
        0 <= p <= s.len(),
        forall|j: int| 0 <= j < p ==> !entry_le(e, s[j]),
        p < s.len() ==> entry_le(e, s[p]),
    ensures
        insert_sorted(e, s) == s.subrange(0, p) + seq![e] + s.subrange(p, s.len() as int),
    decreases s.len(),
{
    if s.len() == 0 {
        assert(insert_sorted(e, s) =~= s.subrange(0, 0) + seq![e] + s.subrange(0, 0));
    } else if entry_le(e, s[0]) {
        assert(p == 0);
        assert(insert_sorted(e, s) =~= s.subrange(0, 0) + seq![e] + s.subrange(
            0,
            s.len() as int,
        ));
    } else {
        let tail = s.subrange(1, s.len() as int);
        assert(forall|j: int| 0 <= j < p - 1 ==> s[j + 1] == tail[j]);
        lemma_insert_sorted_at(e, tail, p - 1);
        assert(tail.subrange(0, p - 1) =~= s.subrange(1, p));
        assert(tail.subrange(p - 1, tail.len() as int) =~= s.subrange(p, s.len() as int));
        assert(insert_sorted(e, s) =~= s.subrange(0, p) + seq![e] + s.subrange(
            p,
            s.len() as int,
        ));
    }
}

/// First position whose key is not below `k` in a key-sorted vector.
fn insert_pos<T>(v: &Vec<(String, T)>, k: &str) -> (p: usize)
    ensures
        0 <= p <= v@.len(),
        forall|j: int| 0 <= j < p ==> !lex_le(key_bytes(k@), key_bytes(v@[j].0@)),
        p < v@.len() ==> lex_le(key_bytes(k@), key_bytes(v@[p as int].0@)),
{
    let mut p: usize = 0;
    while p < v.len()
        invariant
            p <= v@.len(),
            forall|j: int| 0 <= j < p ==> !lex_le(key_bytes(k@), key_bytes(v@[j].0@)),
        decreases v@.len() - p,
    {
        if key_le(k, v[p].0.as_str()) {
            return p;
        }
        p = p + 1;
    }
    p
}

/// Insert one entry into a key-sorted vector, keeping it sorted.
pub fn insert_entry<T>(v: &mut Vec<(String, T)>, e: (String, T))
    ensures
        keyed(final(v)@) == insert_sorted((e.0@, e.1), keyed(old(v)@)),
{
    let ghost before = keyed(v@);
    let ghost em = (e.0@, e.1);
    let p = insert_pos(v, e.0.as_str());
    proof {
        assert(forall|j: int| 0 <= j < p ==> !entry_le(em, before[j]));
        assert(p < before.len() ==> entry_le(em, before[p as int]));
        lemma_insert_sorted_at(em, before, p as int);
    }
    v.insert(p, e);
    proof {
        assert(keyed(v@) =~= before.subrange(0, p as int) + seq![em] + before.subrange(
            p as int,
            before.len() as int,
        ));
    }
}

/// Sort entries by key bytes; the result is exactly the sorted projection.
pub fn sort_entries<T>(v: Vec<(String, T)>) -> (r: Vec<(String, T)>)
    ensures
        keyed(r@) == sorted_by_key(keyed(v@)),
{
    let ghost orig = v@;
    let mut rest = v;
    let mut out: Vec<(String, T)> = Vec::new();
    proof {
        assert(orig.subrange(orig.len() as int, orig.len() as int).len() == 0);
        assert(keyed(out@) =~= sorted_by_key(
            keyed(orig.subrange(orig.len() as int, orig.len() as int)),
        ));
        assert(rest@ =~= orig.subrange(0, rest@.len() as int));
    }
    while rest.len() > 0
        invariant
            rest@ == orig.subrange(0, rest@.len() as int),
            rest@.len() <= orig.len(),
            keyed(out@) == sorted_by_key(keyed(orig.subrange(rest@.len() as int, orig.len() as int))),
        decreases rest@.len(),
    {
        let ghost i = rest@.len() - 1;
        let e = match rest.pop() {
            Some(x) => x,
            None => {
                proof {
                    assert(false);
                }
                return out;
            },
        };
        proof {
            assert(e == orig[i]);
            assert(rest@ =~= orig.subrange(0, i));
        }
        let ghost suffix = keyed(orig.subrange(i, orig.len() as int));
        insert_entry(&mut out, e);
        proof {
            assert(suffix.len() > 0);
            assert(suffix[0] == (orig[i].0@, orig[i].1));
            assert(suffix.subrange(1, suffix.len() as int) =~= keyed(
                orig.subrange(i + 1, orig.len() as int),
            ));
            assert(keyed(out@) == insert_sorted(
                suffix[0],
                sorted_by_key(keyed(orig.subrange(i + 1, orig.len() as int))),
            ));
            assert(keyed(out@) == sorted_by_key(suffix));
        }
    }
    proof {
        assert(orig.subrange(0, orig.len() as int) =~= orig);
    }
    out
}

/// Mapping entry values, keeping keys.
pub open spec fn map_entry_values<V, W>(s: Seq<(Seq<char>, V)>, f: spec_fn(V) -> W) -> Seq<
    (Seq<char>, W),
> {
    Seq::new(s.len(), |i: int| (s[i].0, f(s[i].1)))
}

/// Inserting a fresh key keeps keys unique.
pub proof fn lemma_insert_sorted_unique<V>(e: (Seq<char>, V), s: Seq<(Seq<char>, V)>)
    requires
        unique_keys(s),
        !has_key(s, e.0),
    ensures
        unique_keys(insert_sorted(e, s)),
    decreases s.len(),
{
    let r = insert_sorted(e, s);
    if s.len() == 0 {
    } else if entry_le(e, s[0]) {
        assert forall|i: int, j: int| 0 <= i < j < r.len() implies r[i].0 != r[j].0 by {
            if i == 0 {
                assert(r[j] == s[j - 1]);
                if r[j].0 == e.0 {
                    lemma_has_key_intro(s, j - 1);
                }
            } else {
                assert(r[i] == s[i - 1] && r[j] == s[j - 1]);
            }
        }
    } else {
        let tail = s.subrange(1, s.len() as int);
        assert(!has_key(tail, e.0)) by {
            if has_key(tail, e.0) {
                let p = key_index(tail, e.0);
                assert(s[p + 1] == tail[p]);
                lemma_has_key_intro(s, p + 1);
            }
        }
        lemma_insert_sorted_unique(e, tail);
        lemma_insert_sorted_props(e, tail);
        let rt = insert_sorted(e, tail);
        assert forall|i: int, j: int| 0 <= i < j < r.len() implies r[i].0 != r[j].0 by {
            if i == 0 {
                assert(r[j] == rt[j - 1]);
                lemma_has_key_intro(rt, j - 1);
                assert(has_key(rt, r[j].0));
                if r[j].0 == s[0].0 {
                    if has_key(tail, s[0].0) {
                        let p = key_index(tail, s[0].0);
                        assert(s[p + 1] == tail[p]);
                    } else {
                        assert(s[0].0 == e.0);
                        lemma_has_key_intro(s, 0);
                    }
                }
            } else {
                assert(r[i] == rt[i - 1] && r[j] == rt[j - 1]);
            }
        }
    }
}

/// Sorting keeps keys unique and denotes the same map.
pub proof fn lemma_sorted_by_key_unique_map<V>(s: Seq<(Seq<char>, V)>)
    requires
        unique_keys(s),
    ensures
        unique_keys(sorted_by_key(s)),
        map_of(sorted_by_key(s)) == map_of(s),
    decreases s.len(),
{
    broadcast use vstd::seq_lib::group_to_multiset_ensures;
    broadcast use vstd::multiset::group_multiset_axioms;

    if s.len() > 0 {
        let tail = s.subrange(1, s.len() as int);
        assert(forall|p: int, q: int| 0 <= p < q < tail.len() ==> tail[p].0 != tail[q].0);
        lemma_sorted_by_key_unique_map(tail);
        lemma_sorted_by_key_props(tail);
        let st = sorted_by_key(tail);
        assert(!has_key(st, s[0].0)) by {
            if has_key(st, s[0].0) {
                assert(has_key(tail, s[0].0));
                let p = key_index(tail, s[0].0);
                assert(s[p + 1] == tail[p]);
            }
        }
        lemma_insert_sorted_unique(s[0], st);
        assert(unique_keys(sorted_by_key(s)));
        // maps agree: both have the same dom and the same value at each key
        let r = sorted_by_key(s);
        lemma_sorted_by_key_props(s);
        lemma_insert_sorted_props(s[0], st);
        lemma_map_of_dom(r);
        lemma_map_of_dom(s);
        assert forall|k: Seq<char>| #[trigger] map_of(r).dom().contains(k)
            <==> map_of(s).dom().contains(k) by {
            if has_key(r, k) {
                assert(has_key(s, k));
            }
            if has_key(s, k) {
                assert(has_key(r, k));
            }
        }
        assert forall|k: Seq<char>| #[trigger] map_of(s).dom().contains(k)
            implies map_of(r)[k] == map_of(s)[k] by {
            let i = key_index(s, k);
            lemma_map_of_index(s, i);
            assert(r.to_multiset().contains(s[i])) by {
                assert(s.to_multiset().count(s[i]) > 0) by {
                    assert(s.contains(s[i]));
                }
            }
            assert(r.contains(s[i]));
            let j = choose|j: int| 0 <= j < r.len() && r[j] == s[i];
            lemma_map_of_index(r, j);
        }
        assert(map_of(r) =~= map_of(s));
    }
}

/// Sorting commutes with mapping entry values: the order depends on keys
/// alone.
pub proof fn lemma_insert_sorted_map_values<V, W>(
    e: (Seq<char>, V),
    s: Seq<(Seq<char>, V)>,
    f: spec_fn(V) -> W,
)
    ensures
        insert_sorted((e.0, f(e.1)), map_entry_values(s, f)) == map_entry_values(
            insert_sorted(e, s),
            f,
        ),
    decreases s.len(),
{
    let ms = map_entry_values(s, f);
    let me = (e.0, f(e.1));
    if s.len() == 0 {
        assert(insert_sorted(me, ms) =~= map_entry_values(insert_sorted(e, s), f));
    } else if entry_le(e, s[0]) {
        assert(entry_le(me, ms[0]));
        assert(insert_sorted(me, ms) =~= map_entry_values(insert_sorted(e, s), f));
    } else {
        assert(!entry_le(me, ms[0]));
        let tail = s.subrange(1, s.len() as int);
        lemma_insert_sorted_map_values(e, tail, f);
        assert(ms.subrange(1, ms.len() as int) =~= map_entry_values(tail, f));
        assert(insert_sorted(me, ms) =~= map_entry_values(insert_sorted(e, s), f)) by {
            assert(insert_sorted(me, ms) == seq![ms[0]] + insert_sorted(
                me,
                ms.subrange(1, ms.len() as int),
            ));
            assert(insert_sorted(e, s) == seq![s[0]] + insert_sorted(e, tail));
            assert(forall|i: int|
                0 <= i < insert_sorted(e, tail).len() ==> map_entry_values(
                    insert_sorted(e, s),
                    f,
                )[i + 1] == map_entry_values(insert_sorted(e, tail), f)[i]);
        }
    }
}

/// Sorting commutes with mapping entry values.
pub proof fn lemma_sorted_by_key_map_values<V, W>(s: Seq<(Seq<char>, V)>, f: spec_fn(V) -> W)
    ensures
        sorted_by_key(map_entry_values(s, f)) == map_entry_values(sorted_by_key(s), f),
    decreases s.len(),
{
    let ms = map_entry_values(s, f);
    if s.len() == 0 {
        assert(sorted_by_key(ms) =~= map_entry_values(sorted_by_key(s), f));
    } else {
        let tail = s.subrange(1, s.len() as int);
        lemma_sorted_by_key_map_values(tail, f);
        assert(ms.subrange(1, ms.len() as int) =~= map_entry_values(tail, f));
        assert(ms[0] == (s[0].0, f(s[0].1)));
        lemma_insert_sorted_map_values(s[0], sorted_by_key(tail), f);
        assert(sorted_by_key(ms) == insert_sorted(ms[0], sorted_by_key(map_entry_values(tail, f))));
    }
}

} // verus!
