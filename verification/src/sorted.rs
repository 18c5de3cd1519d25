//! Specification-level vocabulary for sorted sequences of key-value entries.
//!
//! The whole library is specified against `Seq<(i32, V)>` values that are
//! strictly ascending by key.  This module defines that ordering, sorted
//! insertion and removal at the specification level, the derived
//! `Map<i32, V>` abstraction, and the lemmas that connect them.

use vstd::prelude::*;

verus! {

/// The entries are strictly ascending by key; in particular all keys are distinct.
pub open spec fn entries_sorted<V>(s: Seq<(i32, V)>) -> bool {
    forall|i: int, j: int| 0 <= i < j < s.len() ==> (#[trigger] s[i]).0 < (#[trigger] s[j]).0
}

/// Every key in `s` lies strictly below the bound `b`.
pub open spec fn all_keys_lt<V>(s: Seq<(i32, V)>, b: int) -> bool {
    forall|i: int| 0 <= i < s.len() ==> (#[trigger] s[i]).0 < b
}

/// Every key in `s` lies strictly above the bound `b`.
pub open spec fn all_keys_gt<V>(s: Seq<(i32, V)>, b: int) -> bool {
    forall|i: int| 0 <= i < s.len() ==> (#[trigger] s[i]).0 > b
}

/// Some entry of `s` carries the key `k`.
pub open spec fn has_key<V>(s: Seq<(i32, V)>, k: i32) -> bool
    decreases s.len(),
{
    if s.len() == 0 {
        false
    } else if s[0].0 == k {
        true
    } else {
        has_key(s.skip(1), k)
    }
}

/// The value of the first entry of `s` carrying the key `k`.
pub open spec fn lookup<V>(s: Seq<(i32, V)>, k: i32) -> V
    recommends
        has_key(s, k),
    decreases s.len(),
{
    if s.len() == 0 {
        arbitrary()
    } else if s[0].0 == k {
        s[0].1
    } else {
        lookup(s.skip(1), k)
    }
}

/// `s` with `(k, v)` placed at its unique order-preserving position; an
/// existing entry with key `k` is replaced.
pub open spec fn insert_sorted<V>(s: Seq<(i32, V)>, k: i32, v: V) -> Seq<(i32, V)>
    decreases s.len(),
{
    if s.len() == 0 {
        seq![(k, v)]
    } else if k < s[0].0 {
        seq![(k, v)] + s
    } else if s[0].0 == k {
        seq![(k, v)] + s.skip(1)
    } else {
        seq![s[0]] + insert_sorted(s.skip(1), k, v)
    }
}

/// `s` with the first entry carrying key `k` removed; `s` itself if no entry has key `k`.
pub open spec fn remove_sorted<V>(s: Seq<(i32, V)>, k: i32) -> Seq<(i32, V)>
    decreases s.len(),
{
    if s.len() == 0 {
        s
    } else if s[0].0 == k {
        s.skip(1)
    } else {
        seq![s[0]] + remove_sorted(s.skip(1), k)
    }
}

/// The finite map carrying exactly the entries of `s` (earlier entries win,
/// which is immaterial once the keys are distinct).
pub open spec fn seq_to_map<V>(s: Seq<(i32, V)>) -> Map<i32, V>
    decreases s.len(),
{
    if s.len() == 0 {
        Map::empty()
    } else {
        seq_to_map(s.skip(1)).insert(s[0].0, s[0].1)
    }
}

/// The suffix of `s` from the first entry whose key is at least `k` onward.
pub open spec fn tail_from<V>(s: Seq<(i32, V)>, k: i32) -> Seq<(i32, V)>
    decreases s.len(),
{
    if s.len() == 0 {
        s
    } else if s[0].0 >= k {
        s
    } else {
        tail_from(s.skip(1), k)
    }
}

/// In a sorted sequence, `tail_from` drops exactly the positions whose keys
/// lie below `k`.
pub proof fn lemma_tail_from_at<V>(s: Seq<(i32, V)>, k: i32, p: int)
    requires
        0 <= p <= s.len(),
        forall|q: int| 0 <= q < p ==> (#[trigger] s[q]).0 < k,
        p < s.len() ==> s[p].0 >= k,
    ensures
        tail_from(s, k) == s.skip(p),
    decreases s.len(),
{
    if s.len() == 0 {
        assert(s.skip(0) =~= s);
    } else if p == 0 {
        assert(s[0].0 >= k);
        assert(s.skip(0) =~= s);
    } else {
        assert(s[0].0 < k);
        assert forall|q: int| 0 <= q < p - 1 implies (#[trigger] s.skip(1)[q]).0 < k by {
            assert(s.skip(1)[q] == s[q + 1]);
        }
        assert(p - 1 < s.skip(1).len() ==> s.skip(1)[p - 1].0 >= k);
        lemma_tail_from_at(s.skip(1), k, p - 1);
        assert(s.skip(1).skip(p - 1) =~= s.skip(p));
    }
}

/// `has_key` is membership: some index of `s` carries the key.
pub proof fn lemma_has_key_exists<V>(s: Seq<(i32, V)>, k: i32)
    ensures
        has_key(s, k) <==> exists|i: int| 0 <= i < s.len() && (#[trigger] s[i]).0 == k,
    decreases s.len(),
{
    if s.len() > 0 {
        lemma_has_key_exists(s.skip(1), k);
        if s[0].0 != k {
            if has_key(s.skip(1), k) {
                let i = choose|i: int| 0 <= i < s.skip(1).len() && (#[trigger] s.skip(1)[i]).0 == k;
                assert(s[i + 1].0 == k);
            }
            if exists|i: int| 0 <= i < s.len() && (#[trigger] s[i]).0 == k {
                let i = choose|i: int| 0 <= i < s.len() && (#[trigger] s[i]).0 == k;
                assert(s.skip(1)[i - 1].0 == k);
            }
        }
    }
}

/// In a sorted sequence, the entry at any index is found by `lookup`.
pub proof fn lemma_lookup_index<V>(s: Seq<(i32, V)>, i: int)
    requires
        entries_sorted(s),
        0 <= i < s.len(),
    ensures
        has_key(s, s[i].0),
        lookup(s, s[i].0) == s[i].1,
    decreases s.len(),
{
    if i > 0 {
        assert(s[0].0 < s[i].0);
        lemma_lookup_index(s.skip(1), i - 1);
        assert(s.skip(1)[i - 1] == s[i]);
    }
}

/// A key above every key of `s` does not occur in `s`.
pub proof fn lemma_all_lt_not_has<V>(s: Seq<(i32, V)>, k: i32)
    requires
        all_keys_lt(s, k as int),
    ensures
        !has_key(s, k),
{
    lemma_has_key_exists(s, k);
}

/// A key below every key of `s` does not occur in `s`.
pub proof fn lemma_all_gt_not_has<V>(s: Seq<(i32, V)>, k: i32)
    requires
        all_keys_gt(s, k as int),
    ensures
        !has_key(s, k),
{
    lemma_has_key_exists(s, k);
}

/// Inserting an entry at its order-preserving position keeps a sequence sorted.
pub proof fn lemma_sorted_insert_at<V>(s: Seq<(i32, V)>, idx: int, m: (i32, V))
    requires
        entries_sorted(s),
        0 <= idx <= s.len(),
        forall|j: int| 0 <= j < idx ==> (#[trigger] s[j]).0 < m.0,
        idx < s.len() ==> m.0 < s[idx].0,
    ensures
        entries_sorted(s.insert(idx, m)),
{
    let t = s.insert(idx, m);
    assert forall|i: int, j: int| 0 <= i < j < t.len() implies
        (#[trigger] t[i]).0 < (#[trigger] t[j]).0 by {
        if i < idx {
            assert(t[i] == s[i]);
        } else if i == idx {
            assert(t[i] == m);
        } else {
            assert(t[i] == s[i - 1]);
        }
        if j < idx {
            assert(t[j] == s[j]);
        } else if j == idx {
            assert(t[j] == m);
        } else {
            assert(t[j] == s[j - 1]);
            if i == idx && j - 1 > idx - 1 && idx < s.len() {
                if j - 1 > idx {
                    assert(s[idx].0 < s[j - 1].0);
                }
            }
        }
    }
}

/// Membership and lookup on a one-entry sequence.
pub proof fn lemma_singleton_lookup<V>(e: (i32, V), x: i32)
    ensures
        has_key(seq![e], x) <==> e.0 == x,
        e.0 == x ==> lookup(seq![e], x) == e.1,
{
    assert(seq![e][0] == e);
    assert(seq![e].skip(1).len() == 0);
    assert(!has_key(seq![e].skip(1), x));
}

/// Membership and lookup distribute over concatenation, preferring the left part.
pub proof fn lemma_concat_lookup<V>(a: Seq<(i32, V)>, b: Seq<(i32, V)>, k: i32)
    ensures
        has_key(a + b, k) <==> (has_key(a, k) || has_key(b, k)),
        has_key(a, k) ==> lookup(a + b, k) == lookup(a, k),
        !has_key(a, k) ==> lookup(a + b, k) == lookup(b, k),
    decreases a.len(),
{
    if a.len() == 0 {
        assert(a + b =~= b);
    } else {
        assert((a + b)[0] == a[0]);
        assert((a + b).skip(1) =~= a.skip(1) + b);
        lemma_concat_lookup(a.skip(1), b, k);
    }
}

/// Splitting a sorted sequence around a middle entry yields sorted parts with
/// the middle key as a strict bound.
pub proof fn lemma_sorted_parts<V>(a: Seq<(i32, V)>, m: (i32, V), b: Seq<(i32, V)>)
    requires
        entries_sorted(a + seq![m] + b),
    ensures
        entries_sorted(a),
        entries_sorted(b),
        all_keys_lt(a, m.0 as int),
        all_keys_gt(b, m.0 as int),
{
    let s = a + seq![m] + b;
    assert(s[a.len() as int] == m);
    assert forall|i: int| 0 <= i < a.len() implies (#[trigger] a[i]).0 < m.0 by {
        assert(s[i] == a[i]);
    }
    assert forall|i: int| 0 <= i < b.len() implies (#[trigger] b[i]).0 > m.0 by {
        assert(s[a.len() + 1 + i] == b[i]);
    }
    assert forall|i: int, j: int| 0 <= i < j < a.len() implies
        (#[trigger] a[i]).0 < (#[trigger] a[j]).0 by {
        assert(s[i] == a[i] && s[j] == a[j]);
    }
    assert forall|i: int, j: int| 0 <= i < j < b.len() implies
        (#[trigger] b[i]).0 < (#[trigger] b[j]).0 by {
        assert(s[a.len() + 1 + i] == b[i] && s[a.len() + 1 + j] == b[j]);
    }
}

/// Sorted parts separated by a strict middle bound concatenate to a sorted sequence.
pub proof fn lemma_sorted_join<V>(a: Seq<(i32, V)>, m: (i32, V), b: Seq<(i32, V)>)
    requires
        entries_sorted(a),
        entries_sorted(b),
        all_keys_lt(a, m.0 as int),
        all_keys_gt(b, m.0 as int),
    ensures
        entries_sorted(a + seq![m] + b),
{
    let s = a + seq![m] + b;
    assert forall|i: int, j: int| 0 <= i < j < s.len() implies
        (#[trigger] s[i]).0 < (#[trigger] s[j]).0 by {
        if i < a.len() {
            assert(s[i] == a[i]);
        } else if i == a.len() {
            assert(s[i] == m);
        } else {
            assert(s[i] == b[i - a.len() - 1]);
        }
        if j < a.len() {
            assert(s[j] == a[j]);
        } else if j == a.len() {
            assert(s[j] == m);
        } else {
            assert(s[j] == b[j - a.len() - 1]);
        }
    }
}

/// Sorted insertion commutes with a prefix whose keys all lie below the new key.
pub proof fn lemma_insert_sorted_prepend<V>(a: Seq<(i32, V)>, b: Seq<(i32, V)>, k: i32, v: V)
    requires
        all_keys_lt(a, k as int),
    ensures
        insert_sorted(a + b, k, v) == a + insert_sorted(b, k, v),
    decreases a.len(),
{
    if a.len() == 0 {
        assert(a + b =~= b);
        assert(a + insert_sorted(b, k, v) =~= insert_sorted(b, k, v));
    } else {
        let s = a + b;
        assert(s[0] == a[0]);
        assert(s.len() > 0 && s[0].0 < k);
        assert(s.skip(1) =~= a.skip(1) + b);
        lemma_insert_sorted_prepend(a.skip(1), b, k, v);
        assert(insert_sorted(s, k, v) == seq![s[0]] + (a.skip(1) + insert_sorted(b, k, v)));
        assert(seq![s[0]] + (a.skip(1) + insert_sorted(b, k, v))
            =~= a + insert_sorted(b, k, v));
    }
}

/// Sorted insertion commutes with a suffix whose keys all lie above the new key.
pub proof fn lemma_insert_sorted_append<V>(a: Seq<(i32, V)>, b: Seq<(i32, V)>, k: i32, v: V)
    requires
        all_keys_gt(b, k as int),
    ensures
        insert_sorted(a + b, k, v) == insert_sorted(a, k, v) + b,
    decreases a.len(),
{
    if a.len() == 0 {
        assert(a + b =~= b);
        if b.len() == 0 {
            assert(insert_sorted(a, k, v) + b =~= seq![(k, v)]);
        } else {
            assert(b[0].0 > k);
            assert(insert_sorted(b, k, v) == seq![(k, v)] + b);
            assert(insert_sorted(a, k, v) + b =~= seq![(k, v)] + b);
        }
    } else {
        let s = a + b;
        assert(s[0] == a[0]);
        assert(s.len() > 0);
        if k < a[0].0 {
            assert(insert_sorted(s, k, v) == seq![(k, v)] + s);
            assert(seq![(k, v)] + (a + b) =~= (seq![(k, v)] + a) + b);
        } else if a[0].0 == k {
            assert(s.skip(1) =~= a.skip(1) + b);
            assert(insert_sorted(s, k, v) == seq![(k, v)] + (a.skip(1) + b));
            assert(seq![(k, v)] + (a.skip(1) + b) =~= (seq![(k, v)] + a.skip(1)) + b);
        } else {
            assert(s.skip(1) =~= a.skip(1) + b);
            lemma_insert_sorted_append(a.skip(1), b, k, v);
            assert(insert_sorted(s, k, v)
                == seq![s[0]] + (insert_sorted(a.skip(1), k, v) + b));
            assert(seq![s[0]] + (insert_sorted(a.skip(1), k, v) + b)
                =~= (seq![a[0]] + insert_sorted(a.skip(1), k, v)) + b);
        }
    }
}

/// What sorted insertion does: it keeps the sequence sorted and bounded,
/// updates membership, lookup, length, and the derived map, exactly as an
/// upsert of `(k, v)` should.
pub proof fn lemma_insert_sorted_props<V>(s: Seq<(i32, V)>, k: i32, v: V)
    requires
        entries_sorted(s),
    ensures
        entries_sorted(insert_sorted(s, k, v)),
        forall|b: int| all_keys_lt(s, b) && k < b ==> #[trigger] all_keys_lt(insert_sorted(s, k, v), b),
        forall|b: int| all_keys_gt(s, b) && k > b ==> #[trigger] all_keys_gt(insert_sorted(s, k, v), b),
        forall|x: i32| #[trigger] has_key(insert_sorted(s, k, v), x) <==> (has_key(s, x) || x == k),
        lookup(insert_sorted(s, k, v), k) == v,
        forall|x: i32| x != k && has_key(s, x) ==>
            #[trigger] lookup(insert_sorted(s, k, v), x) == lookup(s, x),
        insert_sorted(s, k, v).len() == s.len() + (if has_key(s, k) { 0int } else { 1int }),
        seq_to_map(insert_sorted(s, k, v)) == seq_to_map(s).insert(k, v),
    decreases s.len(),
{
    let r = insert_sorted(s, k, v);
    if s.len() == 0 {
        assert(r == seq![(k, v)]);
        assert(r.skip(1) =~= Seq::<(i32, V)>::empty());
        assert(seq_to_map(r.skip(1)) == Map::<i32, V>::empty());
        assert(seq_to_map(s) == Map::<i32, V>::empty());
        assert(seq_to_map(r) =~= seq_to_map(s).insert(k, v));
        assert forall|x: i32|
            (#[trigger] has_key(r, x) <==> (has_key(s, x) || x == k)) by {
            lemma_singleton_lookup((k, v), x);
        }
        lemma_singleton_lookup((k, v), k);
    } else if k < s[0].0 {
        assert(r == seq![(k, v)] + s);
        assert(r[0] == (k, v));
        assert forall|i: int, j: int| 0 <= i < j < r.len() implies
            (#[trigger] r[i]).0 < (#[trigger] r[j]).0 by {
            if i > 0 {
                assert(r[i] == s[i - 1] && r[j] == s[j - 1]);
            } else {
                assert(r[j] == s[j - 1]);
                if j > 1 {
                    assert(s[0].0 < s[j - 1].0);
                }
            }
        }
        assert(r.skip(1) =~= s);
        assert(seq_to_map(r) =~= seq_to_map(s).insert(k, v));
        lemma_has_key_exists(s, k);
        if has_key(s, k) {
            let i = choose|i: int| 0 <= i < s.len() && (#[trigger] s[i]).0 == k;
            if i > 0 {
                assert(s[0].0 < s[i].0);
            }
            assert(false);
        }
        assert forall|x: i32|
            (#[trigger] has_key(r, x) <==> (has_key(s, x) || x == k)) by {
            lemma_concat_lookup(seq![(k, v)], s, x);
            lemma_singleton_lookup((k, v), x);
        }
        assert forall|x: i32| x != k && has_key(s, x) implies
            #[trigger] lookup(r, x) == lookup(s, x) by {
            lemma_concat_lookup(seq![(k, v)], s, x);
            lemma_singleton_lookup((k, v), x);
        }
        lemma_concat_lookup(seq![(k, v)], s, k);
        lemma_singleton_lookup((k, v), k);
    } else if s[0].0 == k {
        assert(r == seq![(k, v)] + s.skip(1));
        assert(r[0] == (k, v));
        assert forall|i: int, j: int| 0 <= i < j < r.len() implies
            (#[trigger] r[i]).0 < (#[trigger] r[j]).0 by {
            if i > 0 {
                assert(r[i] == s[i] && r[j] == s[j]);
            } else {
                assert(r[j] == s[j]);
                assert(s[0].0 < s[j].0);
            }
        }
        assert(r.skip(1) =~= s.skip(1));
        assert(seq_to_map(r) == seq_to_map(s.skip(1)).insert(k, v));
        assert(seq_to_map(s) == seq_to_map(s.skip(1)).insert(s[0].0, s[0].1));
        assert(seq_to_map(r) =~= seq_to_map(s).insert(k, v));
        assert(s =~= seq![s[0]] + s.skip(1));
        assert forall|x: i32|
            (#[trigger] has_key(r, x) <==> (has_key(s, x) || x == k)) by {
            lemma_concat_lookup(seq![(k, v)], s.skip(1), x);
            lemma_singleton_lookup((k, v), x);
            lemma_concat_lookup(seq![s[0]], s.skip(1), x);
            lemma_singleton_lookup(s[0], x);
            assert(has_key(seq![s[0]] + s.skip(1), x) == has_key(s, x));
        }
        assert forall|x: i32| x != k && has_key(s, x) implies
            #[trigger] lookup(r, x) == lookup(s, x) by {
            lemma_concat_lookup(seq![(k, v)], s.skip(1), x);
            lemma_singleton_lookup((k, v), x);
            lemma_concat_lookup(seq![s[0]], s.skip(1), x);
            lemma_singleton_lookup(s[0], x);
            assert(has_key(seq![s[0]] + s.skip(1), x) == has_key(s, x));
            assert(lookup(seq![s[0]] + s.skip(1), x) == lookup(s, x));
        }
        lemma_concat_lookup(seq![(k, v)], s.skip(1), k);
        lemma_singleton_lookup((k, v), k);
    } else {
        let t = insert_sorted(s.skip(1), k, v);
        assert(r == seq![s[0]] + t);
        assert(entries_sorted(s.skip(1)));
        lemma_insert_sorted_props(s.skip(1), k, v);
        assert(all_keys_gt(s.skip(1), s[0].0 as int));
        assert(all_keys_gt(t, s[0].0 as int));
        assert forall|i: int, j: int| 0 <= i < j < r.len() implies
            (#[trigger] r[i]).0 < (#[trigger] r[j]).0 by {
            if i > 0 {
                assert(r[i] == t[i - 1] && r[j] == t[j - 1]);
            } else {
                assert(r[j] == t[j - 1]);
                assert(t[j - 1].0 > s[0].0);
            }
        }
        assert(r.skip(1) =~= t);
        assert(seq_to_map(r) == seq_to_map(t).insert(s[0].0, s[0].1));
        assert(seq_to_map(t) == seq_to_map(s.skip(1)).insert(k, v));
        assert(seq_to_map(s) == seq_to_map(s.skip(1)).insert(s[0].0, s[0].1));
        assert(seq_to_map(r) =~= seq_to_map(s).insert(k, v));
        assert(s =~= seq![s[0]] + s.skip(1));
        assert forall|x: i32|
            (#[trigger] has_key(r, x) <==> (has_key(s, x) || x == k)) by {
            lemma_concat_lookup(seq![s[0]], t, x);
            lemma_concat_lookup(seq![s[0]], s.skip(1), x);
            lemma_singleton_lookup(s[0], x);
            assert(has_key(seq![s[0]] + s.skip(1), x) == has_key(s, x));
        }
        assert forall|x: i32| x != k && has_key(s, x) implies
            #[trigger] lookup(r, x) == lookup(s, x) by {
            lemma_concat_lookup(seq![s[0]], t, x);
            lemma_concat_lookup(seq![s[0]], s.skip(1), x);
            lemma_singleton_lookup(s[0], x);
            assert(has_key(seq![s[0]] + s.skip(1), x) == has_key(s, x));
            assert(lookup(seq![s[0]] + s.skip(1), x) == lookup(s, x));
        }
        assert forall|b: int| all_keys_lt(s, b) && k < b implies
            #[trigger] all_keys_lt(r, b) by {
            assert(all_keys_lt(s.skip(1), b));
            assert(all_keys_lt(t, b));
            assert forall|i: int| 0 <= i < r.len() implies (#[trigger] r[i]).0 < b by {
                if i > 0 {
                    assert(r[i] == t[i - 1]);
                }
            }
        }
        assert forall|b: int| all_keys_gt(s, b) && k > b implies
            #[trigger] all_keys_gt(r, b) by {
            assert(all_keys_gt(s.skip(1), b));
            assert(all_keys_gt(t, b));
            assert forall|i: int| 0 <= i < r.len() implies (#[trigger] r[i]).0 > b by {
                if i > 0 {
                    assert(r[i] == t[i - 1]);
                }
            }
        }
    }
}

/// What sorted removal does: it keeps the sequence sorted and bounded, deletes
/// exactly the key `k` from membership, lookup, length, and the derived map.
pub proof fn lemma_remove_sorted_props<V>(s: Seq<(i32, V)>, k: i32)
    requires
        entries_sorted(s),
    ensures
        entries_sorted(remove_sorted(s, k)),
        forall|b: int| all_keys_lt(s, b) ==> #[trigger] all_keys_lt(remove_sorted(s, k), b),
        forall|b: int| all_keys_gt(s, b) ==> #[trigger] all_keys_gt(remove_sorted(s, k), b),
        forall|x: i32| #[trigger] has_key(remove_sorted(s, k), x) <==> (has_key(s, x) && x != k),
        forall|x: i32| x != k && has_key(s, x) ==>
            #[trigger] lookup(remove_sorted(s, k), x) == lookup(s, x),
        remove_sorted(s, k).len() == s.len() - (if has_key(s, k) { 1int } else { 0int }),
        seq_to_map(remove_sorted(s, k)) == seq_to_map(s).remove(k),
        !has_key(s, k) ==> remove_sorted(s, k) == s,
    decreases s.len(),
{
    let r = remove_sorted(s, k);
    if s.len() == 0 {
        assert(seq_to_map(r) =~= seq_to_map(s).remove(k));
    } else if s[0].0 == k {
        assert(r == s.skip(1));
        assert(entries_sorted(s.skip(1)));
        lemma_has_key_exists(s.skip(1), k);
        if has_key(s.skip(1), k) {
            let i = choose|i: int| 0 <= i < s.skip(1).len() && (#[trigger] s.skip(1)[i]).0 == k;
            assert(s.skip(1)[i] == s[i + 1]);
            assert(s[0].0 < s[i + 1].0);
        }
        assert(!has_key(s.skip(1), k));
        lemma_remove_sorted_props(s.skip(1), k);
        assert(seq_to_map(s) == seq_to_map(s.skip(1)).insert(k, s[0].1));
        assert(seq_to_map(r) =~= seq_to_map(s).remove(k));
        assert(s =~= seq![s[0]] + s.skip(1));
        assert forall|x: i32|
            (#[trigger] has_key(r, x) <==> (has_key(s, x) && x != k)) by {
            lemma_concat_lookup(seq![s[0]], s.skip(1), x);
            lemma_singleton_lookup(s[0], x);
            assert(has_key(seq![s[0]] + s.skip(1), x) == has_key(s, x));
        }
        assert forall|x: i32| x != k && has_key(s, x) implies
            #[trigger] lookup(r, x) == lookup(s, x) by {
            lemma_concat_lookup(seq![s[0]], s.skip(1), x);
            lemma_singleton_lookup(s[0], x);
            assert(has_key(seq![s[0]] + s.skip(1), x) == has_key(s, x));
            assert(lookup(seq![s[0]] + s.skip(1), x) == lookup(s, x));
        }
        assert forall|b: int| all_keys_lt(s, b) implies #[trigger] all_keys_lt(r, b) by {
            assert forall|i: int| 0 <= i < r.len() implies (#[trigger] r[i]).0 < b by {
                assert(r[i] == s[i + 1]);
            }
        }
        assert forall|b: int| all_keys_gt(s, b) implies #[trigger] all_keys_gt(r, b) by {
            assert forall|i: int| 0 <= i < r.len() implies (#[trigger] r[i]).0 > b by {
                assert(r[i] == s[i + 1]);
            }
        }
    } else {
        let t = remove_sorted(s.skip(1), k);
        assert(r == seq![s[0]] + t);
        assert(entries_sorted(s.skip(1)));
        lemma_remove_sorted_props(s.skip(1), k);
        assert(all_keys_gt(s.skip(1), s[0].0 as int));
        assert(all_keys_gt(t, s[0].0 as int));
        assert forall|i: int, j: int| 0 <= i < j < r.len() implies
            (#[trigger] r[i]).0 < (#[trigger] r[j]).0 by {
            if i > 0 {
                assert(r[i] == t[i - 1] && r[j] == t[j - 1]);
            } else {
                assert(r[j] == t[j - 1]);
                assert(t[j - 1].0 > s[0].0);
            }
        }
        assert(r.skip(1) =~= t);
        assert(seq_to_map(r) == seq_to_map(t).insert(s[0].0, s[0].1));
        assert(seq_to_map(s) == seq_to_map(s.skip(1)).insert(s[0].0, s[0].1));
        assert(seq_to_map(r) =~= seq_to_map(s).remove(k));
        assert forall|b: int| all_keys_lt(s, b) implies #[trigger] all_keys_lt(r, b) by {
            assert(all_keys_lt(s.skip(1), b));
            assert(all_keys_lt(t, b));
            assert forall|i: int| 0 <= i < r.len() implies (#[trigger] r[i]).0 < b by {
                if i > 0 {
                    assert(r[i] == t[i - 1]);
                }
            }
        }
        assert forall|b: int| all_keys_gt(s, b) implies #[trigger] all_keys_gt(r, b) by {
            assert(all_keys_gt(s.skip(1), b));
            assert(all_keys_gt(t, b));
            assert forall|i: int| 0 <= i < r.len() implies (#[trigger] r[i]).0 > b by {
                if i > 0 {
                    assert(r[i] == t[i - 1]);
                }
            }
        }
        assert(s =~= seq![s[0]] + s.skip(1));
        assert forall|x: i32|
            (#[trigger] has_key(r, x) <==> (has_key(s, x) && x != k)) by {
            lemma_concat_lookup(seq![s[0]], t, x);
            lemma_concat_lookup(seq![s[0]], s.skip(1), x);
            lemma_singleton_lookup(s[0], x);
            assert(has_key(seq![s[0]] + s.skip(1), x) == has_key(s, x));
        }
        assert forall|x: i32| x != k && has_key(s, x) implies
            #[trigger] lookup(r, x) == lookup(s, x) by {
            lemma_concat_lookup(seq![s[0]], t, x);
            lemma_concat_lookup(seq![s[0]], s.skip(1), x);
            lemma_singleton_lookup(s[0], x);
            assert(has_key(seq![s[0]] + s.skip(1), x) == has_key(s, x));
            assert(lookup(seq![s[0]] + s.skip(1), x) == lookup(s, x));
        }
        if !has_key(s, k) {
            assert(r =~= s);
        }
    }
}

/// Sorted removal commutes with a prefix whose keys all differ from `k`
/// because they lie below it.
pub proof fn lemma_remove_sorted_prepend<V>(a: Seq<(i32, V)>, b: Seq<(i32, V)>, k: i32)
    requires
        all_keys_lt(a, k as int),
    ensures
        remove_sorted(a + b, k) == a + remove_sorted(b, k),
    decreases a.len(),
{
    if a.len() == 0 {
        assert(a + b =~= b);
        assert(a + remove_sorted(b, k) =~= remove_sorted(b, k));
    } else {
        let s = a + b;
        assert(s[0] == a[0]);
        assert(s.len() > 0 && s[0].0 != k);
        assert(s.skip(1) =~= a.skip(1) + b);
        lemma_remove_sorted_prepend(a.skip(1), b, k);
        assert(remove_sorted(s, k) == seq![s[0]] + (a.skip(1) + remove_sorted(b, k)));
        assert(seq![s[0]] + (a.skip(1) + remove_sorted(b, k)) =~= a + remove_sorted(b, k));
    }
}

/// Sorted removal commutes with a suffix whose keys all lie above `k`.
pub proof fn lemma_remove_sorted_append<V>(a: Seq<(i32, V)>, b: Seq<(i32, V)>, k: i32)
    requires
        all_keys_gt(b, k as int),
    ensures
        remove_sorted(a + b, k) == remove_sorted(a, k) + b,
    decreases a.len(),
{
    if a.len() == 0 {
        assert(a + b =~= b);
        if b.len() == 0 {
            assert(remove_sorted(a, k) + b =~= Seq::<(i32, V)>::empty());
        } else {
            assert(b[0].0 > k);
            lemma_remove_sorted_gt(b, k);
            assert(remove_sorted(a, k) + b =~= b);
        }
    } else {
        let s = a + b;
        assert(s[0] == a[0]);
        assert(s.len() > 0);
        if a[0].0 == k {
            assert(s.skip(1) =~= a.skip(1) + b);
            assert(remove_sorted(s, k) == a.skip(1) + b);
            assert(remove_sorted(a, k) + b =~= a.skip(1) + b);
        } else {
            assert(s.skip(1) =~= a.skip(1) + b);
            lemma_remove_sorted_append(a.skip(1), b, k);
            assert(remove_sorted(s, k) == seq![s[0]] + (remove_sorted(a.skip(1), k) + b));
            assert(seq![s[0]] + (remove_sorted(a.skip(1), k) + b)
                =~= (seq![a[0]] + remove_sorted(a.skip(1), k)) + b);
        }
    }
}

/// Removal of a key lying below every key of `s` leaves `s` unchanged.
proof fn lemma_remove_sorted_gt<V>(s: Seq<(i32, V)>, k: i32)
    requires
        all_keys_gt(s, k as int),
    ensures
        remove_sorted(s, k) == s,
    decreases s.len(),
{
    if s.len() > 0 {
        assert(s[0].0 > k);
        assert(forall|i: int| 0 <= i < s.skip(1).len() ==> (#[trigger] s.skip(1)[i]).0 > k);
        lemma_remove_sorted_gt(s.skip(1), k);
        assert(remove_sorted(s, k) == seq![s[0]] + s.skip(1));
        assert(seq![s[0]] + s.skip(1) =~= s);
    }
}

/// The derived map of a sorted sequence: its domain is exactly the keys, its
/// values are the lookups, and its size is the sequence length.
pub proof fn lemma_seq_to_map_props<V>(s: Seq<(i32, V)>)
    requires
        entries_sorted(s),
    ensures
        forall|x: i32| #[trigger] seq_to_map(s).contains_key(x) <==> has_key(s, x),
        forall|x: i32| has_key(s, x) ==> #[trigger] seq_to_map(s)[x] == lookup(s, x),
        seq_to_map(s).dom().finite(),
        seq_to_map(s).dom().len() == s.len(),
    decreases s.len(),
{
    if s.len() == 0 {
        assert(seq_to_map(s) == Map::<i32, V>::empty());
        assert(seq_to_map(s).dom() =~= Set::<i32>::empty());
    } else {
        assert(entries_sorted(s.skip(1)));
        lemma_seq_to_map_props(s.skip(1));
        assert(all_keys_gt(s.skip(1), s[0].0 as int));
        lemma_has_key_exists(s.skip(1), s[0].0);
        assert(!has_key(s.skip(1), s[0].0));
        assert(seq_to_map(s) == seq_to_map(s.skip(1)).insert(s[0].0, s[0].1));
        assert(seq_to_map(s).dom() =~= seq_to_map(s.skip(1)).dom().insert(s[0].0));
        assert(!seq_to_map(s.skip(1)).dom().contains(s[0].0));
        vstd::set::axiom_set_insert_len(seq_to_map(s.skip(1)).dom(), s[0].0);
    }
}

} // verus!
