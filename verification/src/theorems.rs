//! Library-level theorems.
//!
//! Each proof function here states, over the same models the operation
//! contracts use, a guarantee that spans several operations or all inputs,
//! so a reader sees it stated rather than having to derive it.

use vstd::prelude::*;
use crate::tree::Btree;
use crate::sorted::{entries_sorted, has_key, lookup, seq_to_map, lemma_lookup_index};

verus! {

/// After `insert(k, v)` the map holds exactly `v` under `k`: a `get(k)`
/// right after returns `Some(v)`, and no other key's presence or value
/// changed.  Composes the contracts of `insert` and `get`, which speak of
/// the view `self@` this lemma is stated over.
pub proof fn lemma_insert_then_get<V>(m: Map<i32, V>, k: i32, v: V)
    ensures
        m.insert(k, v).contains_key(k),
        m.insert(k, v)[k] == v,
        forall|x: i32| x != k ==>
            (#[trigger] m.insert(k, v).contains_key(x) <==> m.contains_key(x)),
        forall|x: i32| x != k && m.contains_key(x) ==> #[trigger] m.insert(k, v)[x] == m[x],
{
}

/// `insert` on an existing key replaces the value and leaves the map size
/// unchanged; on a new key it grows the map by exactly one.  The `insert`
/// contract reports which case occurred through its `Some`/`None` result.
pub proof fn lemma_insert_size<V>(m: Map<i32, V>, k: i32, v: V)
    requires
        m.dom().finite(),
    ensures
        m.contains_key(k) ==> m.insert(k, v).dom().len() == m.dom().len(),
        !m.contains_key(k) ==> m.insert(k, v).dom().len() == m.dom().len() + 1,
{
    assert(m.insert(k, v).dom() =~= m.dom().insert(k));
    vstd::set::axiom_set_insert_len(m.dom(), k);
    if m.contains_key(k) {
        assert(m.dom().insert(k) =~= m.dom());
    }
}

/// `remove(k)` deletes exactly the entry `get(k)` would have returned just
/// before: afterwards `k` is absent and every other entry is untouched.
/// Composes the contracts of `remove` and `get` over the view.
pub proof fn lemma_remove_then_get<V>(m: Map<i32, V>, k: i32)
    ensures
        !m.remove(k).contains_key(k),
        forall|x: i32| x != k ==>
            (#[trigger] m.remove(k).contains_key(x) <==> m.contains_key(x)),
        forall|x: i32| x != k && m.contains_key(x) ==> #[trigger] m.remove(k)[x] == m[x],
{
}

/// Iteration yields the entries in strictly ascending key order, with
/// exactly one entry per key of the map, carrying the map's value for it:
/// `iter()` hands out `as_seq()`, about which this lemma speaks.
pub proof fn lemma_iteration_sorted<V>(t: Btree<V>)
    requires
        t.wf(),
    ensures
        entries_sorted(t.as_seq()),
        t.as_seq().len() == t@.dom().len(),
        seq_to_map(t.as_seq()) == t@,
        forall|i: int| 0 <= i < t.as_seq().len() ==> {
            &&& t@.contains_key((#[trigger] t.as_seq()[i]).0)
            &&& t@[t.as_seq()[i].0] == t.as_seq()[i].1
        },
{
    t.lemma_view();
    assert forall|i: int| 0 <= i < t.as_seq().len() implies {
        &&& t@.contains_key((#[trigger] t.as_seq()[i]).0)
        &&& t@[t.as_seq()[i].0] == t.as_seq()[i].1
    } by {
        lemma_lookup_index(t.as_seq(), i);
    }
}

/// The map left after removing the keys of `ks`, first key first.
pub open spec fn remove_all<V>(m: Map<i32, V>, ks: Seq<i32>) -> Map<i32, V>
    decreases ks.len(),
{
    if ks.len() == 0 {
        m
    } else {
        remove_all(m.remove(ks[0]), ks.skip(1))
    }
}

/// Removing every key of the map — in whatever order a key sequence lists
/// them — leaves the empty map.
pub proof fn lemma_remove_all_empty<V>(m: Map<i32, V>, ks: Seq<i32>)
    requires
        m.dom().finite(),
        forall|x: i32| m.contains_key(x) ==> ks.contains(x),
    ensures
        remove_all(m, ks) == Map::<i32, V>::empty(),
    decreases ks.len(),
{
    if ks.len() == 0 {
        assert(m =~= Map::<i32, V>::empty()) by {
            assert forall|x: i32| !m.contains_key(x) by {
                if m.contains_key(x) {
                    assert(ks.contains(x));
                }
            }
        }
    } else {
        let m2 = m.remove(ks[0]);
        assert forall|x: i32| m2.contains_key(x) implies ks.skip(1).contains(x) by {
            assert(m.contains_key(x));
            assert(ks.contains(x));
            let i = choose|i: int| 0 <= i < ks.len() && ks[i] == x;
            assert(x != ks[0]);
            assert(ks.skip(1)[i - 1] == x);
        }
        lemma_remove_all_empty(m2, ks.skip(1));
    }
}

/// Round trip: after a run of removals, exactly the untouched keys remain,
/// each still carrying its original value — so iterating afterwards yields
/// the sorted remainder (by `lemma_iteration_sorted`).
pub proof fn lemma_remove_all_remainder<V>(m: Map<i32, V>, ks: Seq<i32>)
    ensures
        forall|x: i32| #[trigger] remove_all(m, ks).contains_key(x)
            <==> (m.contains_key(x) && !ks.contains(x)),
        forall|x: i32| m.contains_key(x) && !ks.contains(x)
            ==> #[trigger] remove_all(m, ks)[x] == m[x],
    decreases ks.len(),
{
    if ks.len() > 0 {
        lemma_remove_all_remainder(m.remove(ks[0]), ks.skip(1));
        assert(remove_all(m, ks) == remove_all(m.remove(ks[0]), ks.skip(1)));
        assert forall|x: i32| #[trigger] remove_all(m, ks).contains_key(x) implies
            (m.contains_key(x) && !ks.contains(x)) by {
            assert(m.remove(ks[0]).contains_key(x) && !ks.skip(1).contains(x));
            assert(x != ks[0]);
            if ks.contains(x) {
                let i = choose|i: int| 0 <= i < ks.len() && ks[i] == x;
                assert(i >= 1);
                assert(ks.skip(1)[i - 1] == x);
                assert(false);
            }
        }
        assert forall|x: i32| m.contains_key(x) && !ks.contains(x) implies
            #[trigger] remove_all(m, ks)[x] == m[x] by {
            assert(forall|i: int| 0 <= i < ks.len() ==> ks[i] != x);
            assert(ks[0] != x);
            assert forall|i: int| 0 <= i < ks.skip(1).len() implies ks.skip(1)[i] != x by {
                assert(ks.skip(1)[i] == ks[i + 1]);
            }
            assert(!ks.skip(1).contains(x));
        }
        assert forall|x: i32| (m.contains_key(x) && !ks.contains(x)) implies
            #[trigger] remove_all(m, ks).contains_key(x) by {
            assert(ks[0] != x);
            assert forall|i: int| 0 <= i < ks.skip(1).len() implies ks.skip(1)[i] != x by {
                assert(ks.skip(1)[i] == ks[i + 1]);
            }
            assert(!ks.skip(1).contains(x));
        }
    }
}

/// A tree holding no entries is a single empty leaf: its sequence is empty
/// and its height is zero.
pub proof fn lemma_empty_tree<V>(t: Btree<V>)
    requires
        t.wf(),
        t@.dom().len() == 0,
    ensures
        t.as_seq().len() == 0,
        t.height_spec() == 0,
{
    t.lemma_view();
    t.lemma_root();
    t.lemma_root_shape();
    if t.root.children@.len() > 0 {
        t.root.lemma_suffix_len(0);
        assert(t.as_seq().len() >= 1);
    }
}

} // verus!
