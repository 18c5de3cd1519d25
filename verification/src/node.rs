//! Tree nodes and their structural invariant.
//!
//! A node holds its entries in ascending key order together with the child
//! subtrees interleaving them: child `i` carries exactly the keys lying
//! between entry `i - 1` and entry `i`.  The in-order entry sequence of a
//! subtree is the specification-level model every operation is proved
//! against.

use vstd::prelude::*;
use crate::sorted::{entries_sorted, all_keys_lt, all_keys_gt, has_key, lookup,
    lemma_all_lt_not_has, lemma_all_gt_not_has, lemma_concat_lookup, lemma_singleton_lookup,
    lemma_sorted_parts, lemma_sorted_join, lemma_sorted_insert_at, insert_sorted,
    lemma_insert_sorted_prepend, lemma_insert_sorted_append, lemma_insert_sorted_props,
    remove_sorted, lemma_remove_sorted_prepend, lemma_remove_sorted_append,
    lemma_remove_sorted_props};

verus! {

/// Order (fan-out) of the tree: the maximum number of children of a node.
pub const ORDER: usize = 5;

/// Maximum number of entries a node may hold.
pub const MAX_KEYS: usize = 4;

/// Minimum number of entries of every node other than the root.
pub const MIN_KEYS: usize = 2;

/// Boundary at which an overflowing node is split: the overfull entry
/// sequence keeps `SPLIT_POS - 1` entries on the left, gives one up as the
/// median, and moves the rest to a fresh right sibling.
pub const SPLIT_POS: usize = (ORDER + 1) / 2;

pub(crate) struct Node<V> {
    pub entries: Vec<(i32, V)>,
    pub children: Vec<Box<Node<V>>>,
}

impl<V> Node<V> {
    /// A node without children is a leaf.
    pub(crate) open spec fn is_leaf(self) -> bool {
        self.children@.len() == 0
    }

    /// Distance from this node down to its leftmost leaf.
    pub(crate) open spec fn height(self) -> nat
        decreases self,
    {
        if self.children@.len() == 0 {
            0
        } else {
            1 + self.children@[0].height()
        }
    }

    /// The in-order entry sequence of this subtree from child slot `i`
    /// onward: child `i`, entry `i`, child `i + 1`, entry `i + 1`, ...
    pub(crate) open spec fn seq_suffix(self, i: int) -> Seq<(i32, V)>
        decreases self, self.entries@.len() - i + 1,
    {
        if i < 0 || i > self.entries@.len() {
            Seq::empty()
        } else {
            let childpart = if self.children@.len() == 0 || i >= self.children@.len() {
                Seq::empty()
            } else {
                self.children@[i].seq_suffix(0)
            };
            if i == self.entries@.len() {
                childpart
            } else {
                childpart + seq![self.entries@[i]] + self.seq_suffix(i + 1)
            }
        }
    }

    /// The in-order entry sequence of the whole subtree.
    pub(crate) open spec fn entry_seq(self) -> Seq<(i32, V)> {
        self.seq_suffix(0)
    }

    /// Everything strictly before entry slot `i` in the in-order sequence:
    /// child `0`, entry `0`, ..., child `i - 1`, entry `i - 1`.
    pub(crate) open spec fn seq_prefix(self, i: int) -> Seq<(i32, V)>
        decreases i + 1,
    {
        if i <= 0 || i > self.entries@.len() {
            Seq::empty()
        } else {
            let childpart = if self.children@.len() == 0 || i - 1 >= self.children@.len() {
                Seq::empty()
            } else {
                self.children@[i - 1].entry_seq()
            };
            self.seq_prefix(i - 1) + childpart + seq![self.entries@[i - 1]]
        }
    }

    /// Structural invariant of a subtree except for the bound on this node's
    /// own entry count: sorted entries, children interleaving them, fully
    /// well-formed child subtrees of equal height, and key bounds gluing each
    /// child subtree between the neighbouring entries.  Child slot `x` (no
    /// slot, if out of range) is allowed to run one entry short of the
    /// minimum fill: the transient state the delete rebalancing repairs.
    pub(crate) open spec fn wf_core(self, x: int) -> bool
        decreases self,
    {
        &&& entries_sorted(self.entries@)
        &&& (self.children@.len() == 0 || self.children@.len() == self.entries@.len() + 1)
        &&& forall|i: int| 0 <= i < self.children@.len() ==> {
            let c = #[trigger] self.children@[i];
            &&& c.wf_core(-1)
            &&& c.entries@.len() <= MAX_KEYS
            &&& (i != x ==> c.entries@.len() >= MIN_KEYS)
            &&& (i == x ==> c.entries@.len() >= 1)
            &&& c.height() == self.children@[0].height()
            &&& (i < self.entries@.len() ==> all_keys_lt(c.entry_seq(), self.entries@[i].0 as int))
            &&& (i >= 1 ==> all_keys_gt(c.entry_seq(), self.entries@[i - 1].0 as int))
        }
    }

    /// `wf_core` together with the fan-out cap on this node's own entries.
    pub(crate) open spec fn wf_except(self, x: int) -> bool {
        self.wf_core(x) && self.entries@.len() <= MAX_KEYS
    }

    /// Structural invariant of a subtree: sorted entries, fan-out bounds,
    /// minimum fill of every child, uniform child heights, and key bounds
    /// gluing each child subtree between the neighbouring entries.  The
    /// bound on a node's own minimum fill is imposed by its parent, so the
    /// root is exempt, as it must be.
    pub(crate) open spec fn wf(self) -> bool {
        self.wf_except(-1)
    }

    /// The in-order sequence of the child subtree at slot `i`; empty at a
    /// leaf or out of range.
    pub(crate) open spec fn childpart(self, i: int) -> Seq<(i32, V)> {
        if self.children@.len() == 0 || i < 0 || i >= self.children@.len() {
            Seq::empty()
        } else {
            self.children@[i].entry_seq()
        }
    }

    /// One unfolding step of the in-order suffix.
    pub(crate) proof fn lemma_suffix_unfold(self, i: int)
        requires
            0 <= i <= self.entries@.len(),
            self.children@.len() == 0 || self.children@.len() == self.entries@.len() + 1,
        ensures
            i == self.entries@.len() ==> self.seq_suffix(i) == self.childpart(i),
            i < self.entries@.len() ==> self.seq_suffix(i)
                == self.childpart(i) + seq![self.entries@[i]] + self.seq_suffix(i + 1),
    {
        if self.children@.len() != 0 {
            assert(self.children@[i].seq_suffix(0) == self.children@[i].entry_seq());
        }
    }

    /// One unfolding step of the in-order prefix.
    pub(crate) proof fn lemma_prefix_unfold(self, i: int)
        requires
            0 <= i < self.entries@.len(),
            self.children@.len() == 0 || self.children@.len() == self.entries@.len() + 1,
        ensures
            self.seq_prefix(i + 1) == self.seq_prefix(i) + self.childpart(i)
                + seq![self.entries@[i]],
    {
    }

    /// The in-order sequence of a leaf is its entry vector.
    pub(crate) proof fn lemma_leaf_seq(self, i: int)
        requires
            self.is_leaf(),
            0 <= i <= self.entries@.len(),
        ensures
            self.seq_suffix(i) == self.entries@.skip(i),
        decreases self.entries@.len() - i,
    {
        if i == self.entries@.len() {
            assert(self.seq_suffix(i) =~= self.entries@.skip(i));
        } else {
            self.lemma_leaf_seq(i + 1);
            assert(self.seq_suffix(i)
                == Seq::empty() + seq![self.entries@[i]] + self.entries@.skip(i + 1));
            assert(Seq::empty() + seq![self.entries@[i]] + self.entries@.skip(i + 1)
                =~= self.entries@.skip(i));
        }
    }

    /// The in-order sequence splits at any entry slot into its prefix and suffix.
    pub(crate) proof fn lemma_decompose(self, i: int)
        requires
            0 <= i <= self.entries@.len(),
            self.children@.len() == 0 || self.children@.len() == self.entries@.len() + 1,
        ensures
            self.entry_seq() == self.seq_prefix(i) + self.seq_suffix(i),
        decreases i,
    {
        if i == 0 {
            assert(self.seq_prefix(0) + self.seq_suffix(0) =~= self.seq_suffix(0));
        } else {
            self.lemma_decompose(i - 1);
            let cp = if self.children@.len() == 0 {
                Seq::empty()
            } else {
                self.children@[i - 1].entry_seq()
            };
            assert(self.children@.len() != 0 ==>
                self.children@[i - 1].seq_suffix(0) == self.children@[i - 1].entry_seq());
            assert(self.seq_suffix(i - 1) == cp + seq![self.entries@[i - 1]] + self.seq_suffix(i));
            assert(self.seq_prefix(i) == self.seq_prefix(i - 1) + cp + seq![self.entries@[i - 1]]);
            assert(self.seq_prefix(i - 1) + (cp + seq![self.entries@[i - 1]] + self.seq_suffix(i))
                =~= (self.seq_prefix(i - 1) + cp + seq![self.entries@[i - 1]]) + self.seq_suffix(i));
        }
    }

    /// Every key at or after entry slot `i` lies above the key of entry `i - 1`.
    pub(crate) proof fn lemma_suffix_gt(self, x: int, i: int)
        requires
            self.wf_core(x),
            1 <= i <= self.entries@.len(),
        ensures
            all_keys_gt(self.seq_suffix(i), self.entries@[i - 1].0 as int),
        decreases self.entries@.len() - i,
    {
        let b = self.entries@[i - 1].0 as int;
        let cp = if self.children@.len() == 0 {
            Seq::<(i32, V)>::empty()
        } else {
            self.children@[i].entry_seq()
        };
        assert(self.children@.len() != 0 ==>
            self.children@[i].seq_suffix(0) == self.children@[i].entry_seq());
        assert(all_keys_gt(cp, b));
        if i == self.entries@.len() {
            assert(self.seq_suffix(i) == cp);
        } else {
            self.lemma_suffix_gt(x, i + 1);
            let rest = self.seq_suffix(i + 1);
            let s = self.seq_suffix(i);
            assert(s == cp + seq![self.entries@[i]] + rest);
            assert(self.entries@[i].0 > b);
            assert forall|j: int| 0 <= j < s.len() implies (#[trigger] s[j]).0 > b by {
                if j < cp.len() {
                    assert(s[j] == cp[j]);
                } else if j == cp.len() {
                    assert(s[j] == self.entries@[i]);
                } else {
                    assert(s[j] == rest[j - cp.len() - 1]);
                    assert(rest[j - cp.len() - 1].0 > self.entries@[i].0);
                }
            }
        }
    }

    /// Under the invariant the in-order suffix from any slot is sorted.
    pub(crate) proof fn lemma_suffix_sorted(self, x: int, i: int)
        requires
            self.wf_core(x),
            0 <= i <= self.entries@.len(),
        ensures
            entries_sorted(self.seq_suffix(i)),
        decreases self, self.entries@.len() - i + 1,
    {
        let cp = if self.children@.len() == 0 {
            Seq::<(i32, V)>::empty()
        } else {
            self.children@[i].entry_seq()
        };
        if self.children@.len() != 0 {
            assert(self.children@[i].seq_suffix(0) == self.children@[i].entry_seq());
            self.children@[i].lemma_suffix_sorted(-1, 0);
            assert(entries_sorted(cp));
        }
        if i == self.entries@.len() {
            assert(self.seq_suffix(i) == cp);
        } else {
            self.lemma_suffix_sorted(x, i + 1);
            let rest = self.seq_suffix(i + 1);
            if i + 1 <= self.entries@.len() {
                self.lemma_suffix_gt(x, i + 1);
            }
            assert(all_keys_lt(cp, self.entries@[i].0 as int));
            crate::sorted::lemma_sorted_join(cp, self.entries@[i], rest);
            assert(self.seq_suffix(i) == cp + seq![self.entries@[i]] + rest);
        }
    }

    /// Every key strictly before entry slot `i` lies below any bound that
    /// dominates the first `i` entry keys.
    pub(crate) proof fn lemma_prefix_lt(self, x: int, i: int, b: int)
        requires
            self.wf_core(x),
            0 <= i <= self.entries@.len(),
            forall|j: int| 0 <= j < i ==> (#[trigger] self.entries@[j]).0 < b,
        ensures
            all_keys_lt(self.seq_prefix(i), b),
        decreases i,
    {
        if i > 0 {
            self.lemma_prefix_lt(x, i - 1, b);
            let cp = if self.children@.len() == 0 {
                Seq::<(i32, V)>::empty()
            } else {
                self.children@[i - 1].entry_seq()
            };
            assert(all_keys_lt(cp, self.entries@[i - 1].0 as int));
            let p = self.seq_prefix(i);
            let q = self.seq_prefix(i - 1);
            assert(p == q + cp + seq![self.entries@[i - 1]]);
            assert forall|j: int| 0 <= j < p.len() implies (#[trigger] p[j]).0 < b by {
                if j < q.len() {
                    assert(p[j] == q[j]);
                } else if j < q.len() + cp.len() {
                    assert(p[j] == cp[j - q.len()]);
                    assert(cp[j - q.len()].0 < self.entries@[i - 1].0);
                } else {
                    assert(p[j] == self.entries@[i - 1]);
                }
            }
        }
    }
}

impl<V> Node<V> {
    /// Relates membership and lookup in the whole subtree to the slot the
    /// entry scan stops at: a hit is the entry itself, a miss at a leaf is a
    /// miss for the subtree, and a miss at an internal node delegates to the
    /// child at the slot.
    pub(crate) proof fn lemma_search_frame(self, x: int, idx: int, k: i32)
        requires
            self.wf_core(x),
            0 <= idx <= self.entries@.len(),
            forall|j: int| 0 <= j < idx ==> (#[trigger] self.entries@[j]).0 < k,
            idx < self.entries@.len() ==> self.entries@[idx].0 >= k,
        ensures
            idx < self.entries@.len() && self.entries@[idx].0 == k ==> {
                &&& has_key(self.entry_seq(), k)
                &&& lookup(self.entry_seq(), k) == self.entries@[idx].1
            },
            (idx == self.entries@.len() || self.entries@[idx].0 != k) ==> {
                &&& (self.is_leaf() ==> !has_key(self.entry_seq(), k))
                &&& (!self.is_leaf() ==> {
                    &&& has_key(self.entry_seq(), k) == has_key(
                        self.children@[idx].entry_seq(), k)
                    &&& has_key(self.children@[idx].entry_seq(), k) ==>
                        lookup(self.entry_seq(), k) == lookup(
                            self.children@[idx].entry_seq(), k)
                })
            },
    {
        let pre = self.seq_prefix(idx);
        let suf = self.seq_suffix(idx);
        self.lemma_decompose(idx);
        self.lemma_prefix_lt(x, idx, k as int);
        lemma_all_lt_not_has(pre, k);
        lemma_concat_lookup(pre, suf, k);
        let cp = if self.children@.len() == 0 {
            Seq::<(i32, V)>::empty()
        } else {
            self.children@[idx].entry_seq()
        };
        if self.children@.len() != 0 {
            assert(self.children@[idx].seq_suffix(0) == self.children@[idx].entry_seq());
        }
        if idx == self.entries@.len() {
            assert(suf == cp);
        } else {
            let e = self.entries@[idx];
            let rest = self.seq_suffix(idx + 1);
            assert(suf == cp + seq![e] + rest);
            assert(suf =~= cp + (seq![e] + rest));
            lemma_concat_lookup(cp, seq![e] + rest, k);
            lemma_concat_lookup(seq![e], rest, k);
            lemma_singleton_lookup(e, k);
            self.lemma_suffix_gt(x, idx + 1);
            if e.0 == k {
                assert(all_keys_lt(cp, k as int));
                lemma_all_lt_not_has(cp, k);
                assert(lookup(suf, k) == e.1);
            } else {
                assert(e.0 > k);
                assert(all_keys_gt(rest, e.0 as int));
                assert forall|j: int| 0 <= j < rest.len() implies (#[trigger] rest[j]).0 > k by {
                    assert(rest[j].0 > e.0);
                }
                lemma_all_gt_not_has(rest, k);
            }
        }
    }

    /// Position of the first entry whose key is at least `key`, or the entry
    /// count if every key lies below it.
    pub(crate) fn find_slot(&self, key: i32) -> (idx: usize)
        ensures
            0 <= idx <= self.entries@.len(),
            forall|j: int| 0 <= j < idx ==> (#[trigger] self.entries@[j]).0 < key,
            idx < self.entries@.len() ==> self.entries@[idx as int].0 >= key,
    {
        let mut idx: usize = 0;
        while idx < self.entries.len()
            invariant
                0 <= idx <= self.entries@.len(),
                forall|j: int| 0 <= j < idx ==> (#[trigger] self.entries@[j]).0 < key,
            decreases self.entries@.len() - idx,
        {
            if self.entries[idx].0 >= key {
                return idx;
            }
            idx = idx + 1;
        }
        idx
    }

    /// Borrow the value stored under `key` in this subtree, if any.
    pub(crate) fn get_in(&self, key: i32) -> (r: Option<&V>)
        requires
            self.wf(),
        ensures
            match r {
                Some(v) => has_key(self.entry_seq(), key)
                    && *v == lookup(self.entry_seq(), key),
                None => !has_key(self.entry_seq(), key),
            },
        decreases *self,
    {
        let idx = self.find_slot(key);
        proof {
            self.lemma_search_frame(-1, idx as int, key);
        }
        if idx < self.entries.len() && self.entries[idx].0 == key {
            Some(&self.entries[idx].1)
        } else if self.children.len() == 0 {
            None
        } else {
            self.children[idx].get_in(key)
        }
    }
}

impl<V> Node<V> {
    /// Split this overfull node: keep the first `SPLIT_POS - 1` entries,
    /// return the entry that fell at the boundary as the median, and move
    /// everything after it (entries and, when present, children) to a fresh
    /// right sibling.  The median separates the two halves, and the in-order
    /// sequence `left + median + right` is exactly the sequence before the
    /// split.
    pub(crate) fn split(&mut self) -> (r: ((i32, V), Box<Node<V>>))
        requires
            old(self).wf_core(-1),
            old(self).entries@.len() == ORDER,
        ensures
            final(self).wf(),
            r.1.wf(),
            final(self).entries@.len() == SPLIT_POS - 1,
            r.1.entries@.len() == ORDER - SPLIT_POS,
            final(self).height() == old(self).height(),
            r.1.height() == old(self).height(),
            final(self).entry_seq() + seq![r.0] + r.1.entry_seq() == old(self).entry_seq(),
            all_keys_lt(final(self).entry_seq(), r.0.0 as int),
            all_keys_gt(r.1.entry_seq(), r.0.0 as int),
    {
        let ghost o = *self;
        let right_entries = self.entries.split_off(SPLIT_POS);
        let med = self.entries.pop().unwrap();
        let mut right_children: Vec<Box<Node<V>>> = Vec::new();
        if self.children.len() > 0 {
            right_children = self.children.split_off(SPLIT_POS);
        }
        let right = Box::new(Node { entries: right_entries, children: right_children });
        proof {
            let l = *self;
            let rn = *right;
            let m = SPLIT_POS as int;
            assert(l.entries@ =~= o.entries@.subrange(0, m - 1));
            assert(rn.entries@ =~= o.entries@.subrange(m, ORDER as int));
            assert(med == o.entries@[m - 1]);
            if o.children@.len() > 0 {
                assert(l.children@ =~= o.children@.subrange(0, m));
                assert(rn.children@ =~= o.children@.subrange(m, ORDER as int + 1));
            }
            // the in-order sequence splits exactly at the median
            o.lemma_decompose(m - 1);
            o.lemma_suffix_unfold(m - 1);
            assert(o.entry_seq()
                == o.seq_prefix(m - 1) + (o.childpart(m - 1) + seq![med] + o.seq_suffix(m)));
            l.lemma_decompose(m - 1);
            l.lemma_suffix_unfold(m - 1);
            lemma_prefix_align(l, o, m - 1);
            assert(l.childpart(m - 1) == o.childpart(m - 1));
            assert(l.entry_seq() == o.seq_prefix(m - 1) + o.childpart(m - 1));
            lemma_suffix_align(rn, o, 0, m);
            assert(rn.entry_seq() == o.seq_suffix(m));
            assert(l.entry_seq() + seq![med] + rn.entry_seq()
                =~= o.seq_prefix(m - 1) + (o.childpart(m - 1) + seq![med] + o.seq_suffix(m)));
            // both halves satisfy the invariant
            assert forall|i: int, j: int| 0 <= i < j < l.entries@.len() implies
                (#[trigger] l.entries@[i]).0 < (#[trigger] l.entries@[j]).0 by {
                assert(l.entries@[i] == o.entries@[i] && l.entries@[j] == o.entries@[j]);
            }
            assert forall|i: int, j: int| 0 <= i < j < rn.entries@.len() implies
                (#[trigger] rn.entries@[i]).0 < (#[trigger] rn.entries@[j]).0 by {
                assert(rn.entries@[i] == o.entries@[i + m] && rn.entries@[j] == o.entries@[j + m]);
            }
            assert forall|i: int| 0 <= i < l.children@.len() implies {
                let c = #[trigger] l.children@[i];
                &&& c.wf_core(-1)
                &&& c.entries@.len() <= MAX_KEYS
                &&& c.entries@.len() >= MIN_KEYS
                &&& c.height() == l.children@[0].height()
                &&& (i < l.entries@.len() ==> all_keys_lt(c.entry_seq(), l.entries@[i].0 as int))
                &&& (i >= 1 ==> all_keys_gt(c.entry_seq(), l.entries@[i - 1].0 as int))
            } by {
                assert(l.children@[i] == o.children@[i]);
                assert(l.children@[0] == o.children@[0]);
                if i < l.entries@.len() {
                    assert(l.entries@[i] == o.entries@[i]);
                }
                if i >= 1 {
                    assert(l.entries@[i - 1] == o.entries@[i - 1]);
                }
            }
            assert forall|i: int| 0 <= i < rn.children@.len() implies {
                let c = #[trigger] rn.children@[i];
                &&& c.wf_core(-1)
                &&& c.entries@.len() <= MAX_KEYS
                &&& c.entries@.len() >= MIN_KEYS
                &&& c.height() == rn.children@[0].height()
                &&& (i < rn.entries@.len() ==> all_keys_lt(c.entry_seq(), rn.entries@[i].0 as int))
                &&& (i >= 1 ==> all_keys_gt(c.entry_seq(), rn.entries@[i - 1].0 as int))
            } by {
                assert(rn.children@[i] == o.children@[i + m]);
                assert(rn.children@[0] == o.children@[m]);
                assert(o.children@[i + m].height() == o.children@[0].height());
                assert(o.children@[m].height() == o.children@[0].height());
                if i < rn.entries@.len() {
                    assert(rn.entries@[i] == o.entries@[i + m]);
                }
                if i >= 1 {
                    assert(rn.entries@[i - 1] == o.entries@[i + m - 1]);
                }
            }
            // heights are preserved
            if o.children@.len() > 0 {
                assert(l.children@[0] == o.children@[0]);
                assert(rn.children@[0] == o.children@[m]);
                assert(o.children@[m].height() == o.children@[0].height());
            }
            // the median separates the halves
            o.lemma_suffix_sorted(-1, 0);
            assert(entries_sorted(l.entry_seq() + seq![med] + rn.entry_seq()));
            lemma_sorted_parts(l.entry_seq(), med, rn.entry_seq());
        }
        (med, right)
    }
}

impl<V> Node<V> {
    /// Replacing the value of the entry at slot `i` (whose key is `key`)
    /// upserts `(key, value)` into the subtree sequence and preserves the
    /// invariant.
    proof fn lemma_insert_hit(o: Node<V>, n: Node<V>, i: int, key: i32, value: V)
        requires
            o.wf_core(-1),
            0 <= i < o.entries@.len(),
            o.entries@[i].0 == key,
            n.entries@ == o.entries@.update(i, (key, value)),
            n.children@ == o.children@,
        ensures
            n.wf_core(-1),
            n.entry_seq() == insert_sorted(o.entry_seq(), key, value),
            n.height() == o.height(),
    {
        assert forall|a: int, b: int| 0 <= a < b < n.entries@.len() implies
            (#[trigger] n.entries@[a]).0 < (#[trigger] n.entries@[b]).0 by {
            assert(n.entries@[a].0 == o.entries@[a].0);
            assert(n.entries@[b].0 == o.entries@[b].0);
        }
        assert forall|a: int| 0 <= a < n.children@.len() implies {
            let c = #[trigger] n.children@[a];
            &&& c.wf_core(-1)
            &&& c.entries@.len() <= MAX_KEYS
            &&& c.entries@.len() >= MIN_KEYS
            &&& c.height() == n.children@[0].height()
            &&& (a < n.entries@.len() ==> all_keys_lt(c.entry_seq(), n.entries@[a].0 as int))
            &&& (a >= 1 ==> all_keys_gt(c.entry_seq(), n.entries@[a - 1].0 as int))
        } by {
            assert(n.children@[a] == o.children@[a]);
            if a < n.entries@.len() {
                assert(n.entries@[a].0 == o.entries@[a].0);
            }
            if a >= 1 {
                assert(n.entries@[a - 1].0 == o.entries@[a - 1].0);
            }
        }
        // the in-order sequence is updated exactly at the hit
        o.lemma_decompose(i);
        o.lemma_suffix_unfold(i);
        n.lemma_decompose(i);
        n.lemma_suffix_unfold(i);
        lemma_prefix_align(n, o, i);
        lemma_suffix_align(n, o, i + 1, i + 1);
        assert(n.childpart(i) == o.childpart(i));
        let pre = o.seq_prefix(i);
        let cp = o.childpart(i);
        let rest = o.seq_suffix(i + 1);
        assert(o.entry_seq() == pre + (cp + seq![o.entries@[i]] + rest));
        assert(n.entry_seq() == pre + (cp + seq![(key, value)] + rest));
        assert forall|j: int| 0 <= j < i implies (#[trigger] o.entries@[j]).0 < key by {
            assert(o.entries@[j].0 < o.entries@[i].0);
        }
        o.lemma_prefix_lt(-1, i, key as int);
        lemma_insert_sorted_prepend(pre, cp + seq![o.entries@[i]] + rest, key, value);
        lemma_insert_sorted_prepend(cp, seq![o.entries@[i]] + rest, key, value);
        assert(cp + seq![o.entries@[i]] + rest =~= cp + (seq![o.entries@[i]] + rest));
        assert((seq![o.entries@[i]] + rest)[0] == o.entries@[i]);
        assert(insert_sorted(seq![o.entries@[i]] + rest, key, value)
            == seq![(key, value)] + (seq![o.entries@[i]] + rest).skip(1));
        assert((seq![o.entries@[i]] + rest).skip(1) =~= rest);
        assert(insert_sorted(o.entry_seq(), key, value)
            =~= pre + (cp + (seq![(key, value)] + rest)));
        assert(n.entry_seq() =~= pre + (cp + (seq![(key, value)] + rest)));
        // the node's height only depends on its children
        if o.children@.len() > 0 {
            assert(n.children@[0] == o.children@[0]);
        }
    }

    /// Inserting a missing key at its scan slot in a leaf upserts it into
    /// the leaf's sequence and preserves the invariant.
    proof fn lemma_insert_leaf(o: Node<V>, n: Node<V>, i: int, key: i32, value: V)
        requires
            o.wf_core(-1),
            o.is_leaf(),
            0 <= i <= o.entries@.len(),
            forall|j: int| 0 <= j < i ==> (#[trigger] o.entries@[j]).0 < key,
            i < o.entries@.len() ==> o.entries@[i].0 > key,
            n.entries@ == o.entries@.insert(i, (key, value)),
            n.children@ == o.children@,
        ensures
            n.wf_core(-1),
            n.entry_seq() == insert_sorted(o.entry_seq(), key, value),
            n.height() == o.height(),
    {
        o.lemma_leaf_seq(0);
        n.lemma_leaf_seq(0);
        assert(o.entry_seq() =~= o.entries@);
        assert(n.entry_seq() =~= n.entries@);
        let a = o.entries@.subrange(0, i);
        let b = o.entries@.subrange(i, o.entries@.len() as int);
        assert(o.entries@ =~= a + b);
        assert(n.entries@ =~= a + (seq![(key, value)] + b));
        lemma_insert_sorted_prepend(a, b, key, value);
        if b.len() > 0 {
            assert(b[0] == o.entries@[i]);
            assert(b[0].0 > key);
            assert(insert_sorted(b, key, value) == seq![(key, value)] + b);
        } else {
            assert(insert_sorted(b, key, value) =~= seq![(key, value)] + b);
        }
        assert(insert_sorted(o.entry_seq(), key, value) == a + (seq![(key, value)] + b));
        lemma_sorted_insert_at(o.entries@, i, (key, value));
    }

    /// After an upsert inside child `i` that did not split it, the node's
    /// sequence is the upserted one and the invariant survives.
    proof fn lemma_insert_descend(o: Node<V>, n: Node<V>, i: int, key: i32, value: V)
        requires
            o.wf_core(-1),
            o.children@.len() == o.entries@.len() + 1,
            0 <= i <= o.entries@.len(),
            forall|j: int| 0 <= j < i ==> (#[trigger] o.entries@[j]).0 < key,
            i < o.entries@.len() ==> o.entries@[i].0 > key,
            n.entries@ == o.entries@,
            n.children@ == o.children@.update(i, n.children@[i]),
            n.children@[i].wf_core(-1),
            n.children@[i].entries@.len() <= MAX_KEYS,
            n.children@[i].entries@.len() >= o.children@[i].entries@.len(),
            n.children@[i].height() == o.children@[i].height(),
            n.children@[i].entry_seq()
                == insert_sorted(o.children@[i].entry_seq(), key, value),
        ensures
            n.wf_core(-1),
            n.entry_seq() == insert_sorted(o.entry_seq(), key, value),
            n.height() == o.height(),
    {
        let oc = o.children@[i];
        let nc = n.children@[i];
        o.lemma_decompose(i);
        o.lemma_suffix_unfold(i);
        o.lemma_prefix_lt(-1, i, key as int);
        oc.lemma_suffix_sorted(-1, 0);
        n.lemma_decompose(i);
        n.lemma_suffix_unfold(i);
        lemma_prefix_align(n, o, i);
        if i < o.entries@.len() {
            lemma_suffix_align(n, o, i + 1, i + 1);
        }
        let pre = o.seq_prefix(i);
        let cp = oc.entry_seq();
        let ncp = nc.entry_seq();
        lemma_insert_sorted_prepend(pre, o.seq_suffix(i), key, value);
        if i < o.entries@.len() {
            let e = o.entries@[i];
            let rest = o.seq_suffix(i + 1);
            o.lemma_suffix_gt(-1, i + 1);
            assert(o.seq_suffix(i) == cp + seq![e] + rest);
            assert(o.seq_suffix(i) =~= cp + (seq![e] + rest));
            assert(e.0 > key);
            assert forall|j: int| 0 <= j < (seq![e] + rest).len() implies
                (#[trigger] (seq![e] + rest)[j]).0 > key by {
                if j > 0 {
                    assert((seq![e] + rest)[j] == rest[j - 1]);
                    assert(rest[j - 1].0 > e.0);
                }
            }
            lemma_insert_sorted_append(cp, seq![e] + rest, key, value);
            assert(n.seq_suffix(i) == ncp + seq![e] + rest);
            assert(n.seq_suffix(i) =~= ncp + (seq![e] + rest));
            assert(insert_sorted(o.seq_suffix(i), key, value) == ncp + (seq![e] + rest));
        } else {
            assert(o.seq_suffix(i) == cp);
            assert(n.seq_suffix(i) == ncp);
        }
        assert(n.entry_seq() == pre + insert_sorted(o.seq_suffix(i), key, value));
        assert(insert_sorted(o.entry_seq(), key, value)
            == pre + insert_sorted(o.seq_suffix(i), key, value));
        // only child `i` changed, and its keys stay strictly between the
        // neighbouring entries
        lemma_insert_sorted_props(cp, key, value);
        assert forall|a: int| 0 <= a < n.children@.len() implies {
            let c = #[trigger] n.children@[a];
            &&& c.wf_core(-1)
            &&& c.entries@.len() <= MAX_KEYS
            &&& c.entries@.len() >= MIN_KEYS
            &&& c.height() == n.children@[0].height()
            &&& (a < n.entries@.len() ==> all_keys_lt(c.entry_seq(), n.entries@[a].0 as int))
            &&& (a >= 1 ==> all_keys_gt(c.entry_seq(), n.entries@[a - 1].0 as int))
        } by {
            if a != i {
                assert(n.children@[a] == o.children@[a]);
            }
            if a == 0 && i != 0 {
                assert(n.children@[0] == o.children@[0]);
            }
            if a == i {
                assert(nc.height() == oc.height());
                if i < n.entries@.len() {
                    assert(all_keys_lt(cp, n.entries@[i].0 as int));
                    assert(all_keys_lt(ncp, n.entries@[i].0 as int));
                }
                if i >= 1 {
                    assert(all_keys_gt(cp, n.entries@[i - 1].0 as int));
                    assert(o.entries@[i - 1].0 < key);
                    assert(all_keys_gt(ncp, n.entries@[i - 1].0 as int));
                }
            }
            if i == 0 {
                assert(n.children@[0].height() == o.children@[0].height());
            }
        }
        if i == 0 {
            assert(n.children@[0].height() == o.children@[0].height());
        } else {
            assert(n.children@[0] == o.children@[0]);
        }
        assert(n.height() == o.height());
    }
}

impl<V> Node<V> {
    /// After an upsert inside child `i` split that child into `left`,
    /// median, `right`, weaving the median into the entries at slot `i` and
    /// the right sibling into the children at slot `i + 1` makes the node's
    /// sequence the upserted one and restores the invariant (the node itself
    /// may now be overfull by one entry).
    #[verifier::rlimit(100)]
    #[verifier::spinoff_prover]
    proof fn lemma_insert_weave(o: Node<V>, n: Node<V>, i: int, key: i32, value: V, med: (i32, V))
        requires
            o.wf_core(-1),
            o.entries@.len() < ORDER,
            o.children@.len() == o.entries@.len() + 1,
            0 <= i <= o.entries@.len(),
            forall|j: int| 0 <= j < i ==> (#[trigger] o.entries@[j]).0 < key,
            i < o.entries@.len() ==> o.entries@[i].0 > key,
            n.entries@ == o.entries@.insert(i, med),
            n.children@ == o.children@.update(i, n.children@[i]).insert(i + 1, n.children@[i + 1]),
            n.children@[i].wf_core(-1),
            n.children@[i + 1].wf_core(-1),
            n.children@[i].entries@.len() == SPLIT_POS - 1,
            n.children@[i + 1].entries@.len() == ORDER - SPLIT_POS,
            n.children@[i].height() == o.children@[i].height(),
            n.children@[i + 1].height() == o.children@[i].height(),
            n.children@[i].entry_seq() + seq![med] + n.children@[i + 1].entry_seq()
                == insert_sorted(o.children@[i].entry_seq(), key, value),
            all_keys_lt(n.children@[i].entry_seq(), med.0 as int),
            all_keys_gt(n.children@[i + 1].entry_seq(), med.0 as int),
        ensures
            n.wf_core(-1),
            n.entries@.len() == o.entries@.len() + 1,
            n.entry_seq() == insert_sorted(o.entry_seq(), key, value),
            n.height() == o.height(),
    {
        let oc = o.children@[i];
        let cp = oc.entry_seq();
        let nc = n.children@[i];
        let rt = n.children@[i + 1];
        let lseq = nc.entry_seq();
        let rseq = rt.entry_seq();
        let ins = insert_sorted(cp, key, value);
        oc.lemma_suffix_sorted(-1, 0);
        lemma_insert_sorted_props(cp, key, value);
        assert(lseq + seq![med] + rseq == ins);
        // locate the median inside the upserted child sequence
        assert(ins[lseq.len() as int] == med);
        if i < o.entries@.len() {
            assert(all_keys_lt(cp, o.entries@[i].0 as int));
            assert(all_keys_lt(ins, o.entries@[i].0 as int));
        }
        if i >= 1 {
            assert(all_keys_gt(cp, o.entries@[i - 1].0 as int));
            assert(o.entries@[i - 1].0 < key);
            assert(all_keys_gt(ins, o.entries@[i - 1].0 as int));
        }
        assert forall|j: int| 0 <= j < lseq.len() implies (#[trigger] lseq[j]) == ins[j] by {}
        assert forall|j: int| 0 <= j < rseq.len() implies
            (#[trigger] rseq[j]) == ins[lseq.len() + 1 + j] by {}
        // the new entry vector is sorted around the median
        lemma_sorted_insert_at(o.entries@, i, med);
        // decompose the new node one slot past the median
        assert(n.children@.len() == o.children@.len() + 1);
        assert(n.children@.len() == n.entries@.len() + 1);
        n.lemma_decompose(i + 1);
        n.lemma_prefix_unfold(i);
        lemma_prefix_align(n, o, i);
        n.lemma_suffix_unfold(i + 1);
        let pre = o.seq_prefix(i);
        o.lemma_decompose(i);
        o.lemma_suffix_unfold(i);
        assert(n.seq_prefix(i) == pre);
        assert(n.childpart(i) == lseq);
        assert(n.entries@[i] == med);
        assert(n.seq_prefix(i + 1) == pre + lseq + seq![med]);
        if i < o.entries@.len() {
            assert(n.entries@[i + 1] == o.entries@[i]);
            assert forall|d: int| 0 <= d < n.entries@.len() - (i + 2) implies
                #[trigger] n.entries@[i + 2 + d] == o.entries@[i + 1 + d] by {
                assert(n.entries@[i + 2 + d] == o.entries@[(i + 2 + d) - 1]);
            }
            assert forall|d: int| 0 <= d <= n.entries@.len() - (i + 2) implies
                #[trigger] n.children@[i + 2 + d] == o.children@[i + 1 + d] by {
                assert(n.children@[i + 2 + d] == o.children@[(i + 2 + d) - 1]);
            }
            lemma_suffix_align(n, o, i + 2, i + 1);
            assert(n.seq_suffix(i + 1) == rseq + seq![o.entries@[i]] + o.seq_suffix(i + 1));
        } else {
            assert(i + 1 == n.entries@.len());
            assert(n.seq_suffix(i + 1) == n.childpart(i + 1));
            assert(n.childpart(i + 1) == rseq);
        }
        // assemble: the whole sequence is the upserted one
        let e = if i < o.entries@.len() {
            seq![o.entries@[i]] + o.seq_suffix(i + 1)
        } else {
            Seq::<(i32, V)>::empty()
        };
        assert(o.entry_seq() == pre + o.seq_suffix(i));
        if i < o.entries@.len() {
            assert(o.seq_suffix(i) == cp + seq![o.entries@[i]] + o.seq_suffix(i + 1));
            assert(o.seq_suffix(i) =~= cp + e);
            assert(n.seq_suffix(i + 1) =~= rseq + e);
        } else {
            assert(o.seq_suffix(i) == cp);
            assert(o.seq_suffix(i) =~= cp + e);
            assert(n.seq_suffix(i + 1) =~= rseq + e);
        }
        assert(n.entry_seq() == (pre + lseq + seq![med]) + (rseq + e));
        o.lemma_prefix_lt(-1, i, key as int);
        lemma_insert_sorted_prepend(pre, cp + e, key, value);
        if i < o.entries@.len() {
            o.lemma_suffix_gt(-1, i + 1);
            assert forall|j: int| 0 <= j < e.len() implies (#[trigger] e[j]).0 > key by {
                if j > 0 {
                    assert(e[j] == o.seq_suffix(i + 1)[j - 1]);
                    assert(o.seq_suffix(i + 1)[j - 1].0 > o.entries@[i].0);
                }
                assert(e[0] == o.entries@[i]);
            }
        }
        lemma_insert_sorted_append(cp, e, key, value);
        assert(insert_sorted(o.entry_seq(), key, value) == pre + (ins + e));
        assert(pre + (ins + e) =~= pre + ((lseq + seq![med] + rseq) + e));
        assert((pre + lseq + seq![med]) + (rseq + e)
            =~= pre + ((lseq + seq![med] + rseq) + e));
        assert(n.entry_seq() == insert_sorted(o.entry_seq(), key, value));
        // the invariant survives the weave
        assert forall|a: int| 0 <= a < n.children@.len() implies {
            let c = #[trigger] n.children@[a];
            &&& c.wf_core(-1)
            &&& c.entries@.len() <= MAX_KEYS
            &&& c.entries@.len() >= MIN_KEYS
            &&& c.height() == n.children@[0].height()
            &&& (a < n.entries@.len() ==> all_keys_lt(c.entry_seq(), n.entries@[a].0 as int))
            &&& (a >= 1 ==> all_keys_gt(c.entry_seq(), n.entries@[a - 1].0 as int))
        } by {
            assert(nc.height() == oc.height());
            assert(rt.height() == oc.height());
            if a < i {
                assert(n.children@[a] == o.children@[a]);
                assert(n.entries@[a] == o.entries@[a]);
                if a >= 1 {
                    assert(n.entries@[a - 1] == o.entries@[a - 1]);
                }
            } else if a == i {
                if a >= 1 {
                    assert(n.entries@[a - 1] == o.entries@[a - 1]);
                    assert(all_keys_gt(ins, o.entries@[a - 1].0 as int));
                    assert forall|j: int| 0 <= j < lseq.len() implies
                        (#[trigger] lseq[j]).0 > o.entries@[a - 1].0 by {
                        assert(lseq[j] == ins[j]);
                    }
                }
            } else if a == i + 1 {
                if i < o.entries@.len() {
                    assert(n.entries@[a] == o.entries@[i]);
                    assert(all_keys_lt(ins, o.entries@[i].0 as int));
                    assert forall|j: int| 0 <= j < rseq.len() implies
                        (#[trigger] rseq[j]).0 < o.entries@[i].0 by {
                        assert(rseq[j] == ins[lseq.len() + 1 + j]);
                    }
                }
            } else {
                assert(n.children@[a] == o.children@[a - 1]);
                assert(n.entries@[a - 1] == o.entries@[a - 2]);
                if a < n.entries@.len() {
                    assert(n.entries@[a] == o.entries@[a - 1]);
                }
            }
            if i == 0 {
                assert(n.children@[0] == nc);
            } else {
                assert(n.children@[0] == o.children@[0]);
            }
        }
        if i == 0 {
            assert(n.children@[0].height() == o.children@[0].height());
        } else {
            assert(n.children@[0] == o.children@[0]);
        }
        assert(n.height() == o.height());
    }
}

impl<V> Node<V> {
    /// Upsert `(key, value)` into this subtree.  The first component of the
    /// result is the value previously stored under `key`, if any.  If the
    /// insertion overflowed this node, the node splits: the second component
    /// carries the median entry and the fresh right sibling for the caller
    /// to weave in one level up; the in-order sequence `self + median +
    /// right` is then the upserted sequence.
    pub(crate) fn insert_in(&mut self, key: i32, value: V) -> (r: (
        Option<V>,
        Option<((i32, V), Box<Node<V>>)>,
    ))
        requires
            old(self).wf(),
        ensures
            match r.0 {
                Some(v) => has_key(old(self).entry_seq(), key)
                    && v == lookup(old(self).entry_seq(), key),
                None => !has_key(old(self).entry_seq(), key),
            },
            match r.1 {
                None => {
                    &&& final(self).wf()
                    &&& final(self).entry_seq()
                        == insert_sorted(old(self).entry_seq(), key, value)
                    &&& final(self).height() == old(self).height()
                    &&& final(self).entries@.len() >= old(self).entries@.len()
                    &&& (old(self).is_leaf() ==> final(self).is_leaf())
                },
                Some((med, right)) => {
                    &&& r.0 is None
                    &&& final(self).wf()
                    &&& right.wf()
                    &&& final(self).entries@.len() == SPLIT_POS - 1
                    &&& right.entries@.len() == ORDER - SPLIT_POS
                    &&& final(self).height() == old(self).height()
                    &&& right.height() == old(self).height()
                    &&& final(self).entry_seq() + seq![med] + right.entry_seq()
                        == insert_sorted(old(self).entry_seq(), key, value)
                    &&& all_keys_lt(final(self).entry_seq(), med.0 as int)
                    &&& all_keys_gt(right.entry_seq(), med.0 as int)
                },
            },
        decreases *old(self),
    {
        let ghost o = *self;
        let idx = self.find_slot(key);
        proof {
            self.lemma_search_frame(-1, idx as int, key);
        }
        if idx < self.entries.len() && self.entries[idx].0 == key {
            // hit: replace the value in place, no structural change
            let (k0, v0) = self.entries.remove(idx);
            self.entries.insert(idx, (key, value));
            proof {
                assert(self.entries@ =~= o.entries@.update(idx as int, (key, value)));
                Self::lemma_insert_hit(o, *self, idx as int, key, value);
            }
            (Some(v0), None)
        } else if self.children.len() == 0 {
            // miss at a leaf: the key is inserted right here
            self.entries.insert(idx, (key, value));
            proof {
                Self::lemma_insert_leaf(o, *self, idx as int, key, value);
            }
            if self.entries.len() < ORDER {
                (None, None)
            } else {
                let mr = self.split();
                (None, Some(mr))
            }
        } else {
            // miss at an internal node: descend into the child at the slot
            proof {
                assert(o.children@[idx as int].wf_core(-1));
            }
            let (prev, childsplit) = self.children[idx].insert_in(key, value);
            match childsplit {
                None => {
                    proof {
                        assert(self.children@
                            =~= o.children@.update(idx as int, self.children@[idx as int]));
                        Self::lemma_insert_descend(o, *self, idx as int, key, value);
                    }
                    (prev, None)
                }
                Some((med, right)) => {
                    self.entries.insert(idx, med);
                    self.children.insert(idx + 1, right);
                    proof {
                        assert(self.children@ =~= o.children@.update(
                            idx as int,
                            self.children@[idx as int],
                        ).insert(idx as int + 1, self.children@[idx as int + 1]));
                        Self::lemma_insert_weave(o, *self, idx as int, key, value, med);
                    }
                    if self.entries.len() < ORDER {
                        (prev, None)
                    } else {
                        let mr = self.split();
                        (prev, Some(mr))
                    }
                }
            }
        }
    }
}

/// Two nodes that agree entrywise and childwise from slots `i` and `j`
/// onward have the same in-order suffixes there.
pub(crate) proof fn lemma_suffix_align<V>(n1: Node<V>, n2: Node<V>, i: int, j: int)
    requires
        0 <= i <= n1.entries@.len(),
        0 <= j <= n2.entries@.len(),
        n1.entries@.len() - i == n2.entries@.len() - j,
        n1.children@.len() == 0 || n1.children@.len() == n1.entries@.len() + 1,
        n2.children@.len() == 0 || n2.children@.len() == n2.entries@.len() + 1,
        (n1.children@.len() == 0) <==> (n2.children@.len() == 0),
        forall|d: int| 0 <= d < n1.entries@.len() - i ==>
            #[trigger] n1.entries@[i + d] == n2.entries@[j + d],
        n1.children@.len() != 0 ==> forall|d: int| 0 <= d <= n1.entries@.len() - i ==>
            #[trigger] n1.children@[i + d] == n2.children@[j + d],
    ensures
        n1.seq_suffix(i) == n2.seq_suffix(j),
    decreases n1.entries@.len() - i,
{
    let cp1 = if n1.children@.len() == 0 {
        Seq::<(i32, V)>::empty()
    } else {
        n1.children@[i].seq_suffix(0)
    };
    let cp2 = if n2.children@.len() == 0 {
        Seq::<(i32, V)>::empty()
    } else {
        n2.children@[j].seq_suffix(0)
    };
    if n1.children@.len() != 0 {
        assert(n1.children@[i + 0] == n2.children@[j + 0]);
        assert(cp1 == cp2);
    }
    if i == n1.entries@.len() {
        assert(n1.seq_suffix(i) == cp1);
        assert(n2.seq_suffix(j) == cp2);
    } else {
        assert forall|d: int| 0 <= d < n1.entries@.len() - (i + 1) implies
            #[trigger] n1.entries@[i + 1 + d] == n2.entries@[j + 1 + d] by {
            assert(n1.entries@[i + (d + 1)] == n2.entries@[j + (d + 1)]);
        }
        if n1.children@.len() != 0 {
            assert forall|d: int| 0 <= d <= n1.entries@.len() - (i + 1) implies
                #[trigger] n1.children@[i + 1 + d] == n2.children@[j + 1 + d] by {
                assert(n1.children@[i + (d + 1)] == n2.children@[j + (d + 1)]);
            }
        }
        lemma_suffix_align(n1, n2, i + 1, j + 1);
        assert(n1.entries@[i + 0] == n2.entries@[j + 0]);
        assert(n1.seq_suffix(i) == cp1 + seq![n1.entries@[i]] + n1.seq_suffix(i + 1));
        assert(n2.seq_suffix(j) == cp2 + seq![n2.entries@[j]] + n2.seq_suffix(j + 1));
    }
}

/// Two nodes that agree entrywise and childwise before slot `i` have the
/// same in-order prefixes there.
pub(crate) proof fn lemma_prefix_align<V>(n1: Node<V>, n2: Node<V>, i: int)
    requires
        0 <= i <= n1.entries@.len(),
        i <= n2.entries@.len(),
        (n1.children@.len() == 0) <==> (n2.children@.len() == 0),
        n1.children@.len() != 0 ==> i <= n1.children@.len() && i <= n2.children@.len(),
        forall|d: int| 0 <= d < i ==> #[trigger] n1.entries@[d] == n2.entries@[d],
        n1.children@.len() != 0 ==> forall|d: int| 0 <= d < i ==>
            #[trigger] n1.children@[d] == n2.children@[d],
    ensures
        n1.seq_prefix(i) == n2.seq_prefix(i),
    decreases i,
{
    if i > 0 {
        lemma_prefix_align(n1, n2, i - 1);
        assert(n1.entries@[i - 1] == n2.entries@[i - 1]);
        if n1.children@.len() != 0 {
            assert(n1.children@[i - 1] == n2.children@[i - 1]);
        }
    }
}

} // verus!

verus! {

impl<V> Node<V> {
    /// A subtree holds at least as many entries as its own node.
    pub(crate) proof fn lemma_suffix_len(self, i: int)
        requires
            0 <= i <= self.entries@.len(),
            self.children@.len() == 0 || self.children@.len() == self.entries@.len() + 1,
        ensures
            self.seq_suffix(i).len() >= self.entries@.len() - i,
        decreases self.entries@.len() - i,
    {
        if i < self.entries@.len() {
            self.lemma_suffix_len(i + 1);
        }
    }

    /// Each entry of the node occurs in the subtree's in-order sequence.
    pub(crate) proof fn lemma_entry_at(self, j: int)
        requires
            0 <= j < self.entries@.len(),
            self.children@.len() == 0 || self.children@.len() == self.entries@.len() + 1,
        ensures
            exists|p: int| 0 <= p < self.entry_seq().len()
                && #[trigger] self.entry_seq()[p] == self.entries@[j],
    {
        self.lemma_decompose(j);
        self.lemma_suffix_unfold(j);
        let pre = self.seq_prefix(j);
        let cp = self.childpart(j);
        let p = pre.len() + cp.len();
        assert(self.entry_seq() == pre + (cp + seq![self.entries@[j]] + self.seq_suffix(j + 1)));
        assert(self.entry_seq()[p as int] == self.entries@[j]);
    }

    /// Removing the entry at the scan slot of a leaf removes exactly `key`
    /// from the leaf's sequence and preserves the invariant.
    proof fn lemma_remove_hit_leaf(o: Node<V>, n: Node<V>, i: int, key: i32)
        requires
            o.wf_core(-1),
            o.is_leaf(),
            0 <= i < o.entries@.len(),
            o.entries@[i].0 == key,
            n.entries@ == o.entries@.remove(i),
            n.children@ == o.children@,
        ensures
            n.wf_core(-1),
            n.entry_seq() == remove_sorted(o.entry_seq(), key),
            n.height() == o.height(),
    {
        o.lemma_leaf_seq(0);
        n.lemma_leaf_seq(0);
        assert(o.entry_seq() =~= o.entries@);
        assert(n.entry_seq() =~= n.entries@);
        let a = o.entries@.subrange(0, i);
        let b = o.entries@.subrange(i, o.entries@.len() as int);
        assert(o.entries@ =~= a + b);
        assert(n.entries@ =~= a + b.skip(1));
        assert forall|j: int| 0 <= j < a.len() implies (#[trigger] a[j]).0 < key by {
            assert(a[j] == o.entries@[j]);
            assert(o.entries@[j].0 < o.entries@[i].0);
        }
        lemma_remove_sorted_prepend(a, b, key);
        assert(b[0] == o.entries@[i]);
        assert(remove_sorted(b, key) == b.skip(1));
        assert forall|x: int, y: int| 0 <= x < y < n.entries@.len() implies
            (#[trigger] n.entries@[x]).0 < (#[trigger] n.entries@[y]).0 by {
            if x < i {
                assert(n.entries@[x] == o.entries@[x]);
            } else {
                assert(n.entries@[x] == o.entries@[x + 1]);
            }
            if y < i {
                assert(n.entries@[y] == o.entries@[y]);
            } else {
                assert(n.entries@[y] == o.entries@[y + 1]);
            }
        }
    }

    /// After removing `key` inside child `i`, the node's sequence has `key`
    /// removed; the child may now run one entry short of the minimum.
    proof fn lemma_remove_descend(o: Node<V>, n: Node<V>, i: int, key: i32)
        requires
            o.wf_core(-1),
            o.children@.len() == o.entries@.len() + 1,
            0 <= i <= o.entries@.len(),
            forall|j: int| 0 <= j < i ==> (#[trigger] o.entries@[j]).0 < key,
            i < o.entries@.len() ==> o.entries@[i].0 > key,
            n.entries@ == o.entries@,
            n.children@ == o.children@.update(i, n.children@[i]),
            n.children@[i].wf_core(-1),
            n.children@[i].entries@.len() <= MAX_KEYS,
            n.children@[i].entries@.len() >= o.children@[i].entries@.len() - 1,
            n.children@[i].entries@.len() <= o.children@[i].entries@.len(),
            n.children@[i].height() == o.children@[i].height(),
            n.children@[i].entry_seq() == remove_sorted(o.children@[i].entry_seq(), key),
        ensures
            n.wf_core(i),
            n.entry_seq() == remove_sorted(o.entry_seq(), key),
            n.height() == o.height(),
    {
        let oc = o.children@[i];
        let nc = n.children@[i];
        o.lemma_decompose(i);
        o.lemma_suffix_unfold(i);
        o.lemma_prefix_lt(-1, i, key as int);
        oc.lemma_suffix_sorted(-1, 0);
        n.lemma_decompose(i);
        n.lemma_suffix_unfold(i);
        lemma_prefix_align(n, o, i);
        if i < o.entries@.len() {
            lemma_suffix_align(n, o, i + 1, i + 1);
        }
        let pre = o.seq_prefix(i);
        let cp = oc.entry_seq();
        let ncp = nc.entry_seq();
        lemma_remove_sorted_prepend(pre, o.seq_suffix(i), key);
        if i < o.entries@.len() {
            let e = o.entries@[i];
            let rest = o.seq_suffix(i + 1);
            o.lemma_suffix_gt(-1, i + 1);
            assert(o.seq_suffix(i) == cp + seq![e] + rest);
            assert(o.seq_suffix(i) =~= cp + (seq![e] + rest));
            assert(e.0 > key);
            assert forall|j: int| 0 <= j < (seq![e] + rest).len() implies
                (#[trigger] (seq![e] + rest)[j]).0 > key by {
                if j > 0 {
                    assert((seq![e] + rest)[j] == rest[j - 1]);
                    assert(rest[j - 1].0 > e.0);
                }
            }
            lemma_remove_sorted_append(cp, seq![e] + rest, key);
            assert(n.seq_suffix(i) == ncp + seq![e] + rest);
            assert(n.seq_suffix(i) =~= ncp + (seq![e] + rest));
            assert(remove_sorted(o.seq_suffix(i), key) == ncp + (seq![e] + rest));
        } else {
            assert(o.seq_suffix(i) == cp);
            assert(n.seq_suffix(i) == ncp);
        }
        assert(n.entry_seq() == pre + remove_sorted(o.seq_suffix(i), key));
        assert(remove_sorted(o.entry_seq(), key)
            == pre + remove_sorted(o.seq_suffix(i), key));
        lemma_remove_sorted_props(cp, key);
        assert forall|a: int| 0 <= a < n.children@.len() implies {
            let c = #[trigger] n.children@[a];
            &&& c.wf_core(-1)
            &&& c.entries@.len() <= MAX_KEYS
            &&& (a != i ==> c.entries@.len() >= MIN_KEYS)
            &&& (a == i ==> c.entries@.len() >= 1)
            &&& c.height() == n.children@[0].height()
            &&& (a < n.entries@.len() ==> all_keys_lt(c.entry_seq(), n.entries@[a].0 as int))
            &&& (a >= 1 ==> all_keys_gt(c.entry_seq(), n.entries@[a - 1].0 as int))
        } by {
            if a != i {
                assert(n.children@[a] == o.children@[a]);
            }
            if a == 0 && i != 0 {
                assert(n.children@[0] == o.children@[0]);
            }
            if a == i {
                assert(nc.height() == oc.height());
                if i < n.entries@.len() {
                    assert(all_keys_lt(cp, n.entries@[i].0 as int));
                    assert(all_keys_lt(ncp, n.entries@[i].0 as int));
                }
                if i >= 1 {
                    assert(all_keys_gt(cp, n.entries@[i - 1].0 as int));
                    assert(all_keys_gt(ncp, n.entries@[i - 1].0 as int));
                }
            }
            if i == 0 {
                assert(n.children@[0].height() == o.children@[0].height());
            }
        }
        if i == 0 {
            assert(n.children@[0].height() == o.children@[0].height());
        } else {
            assert(n.children@[0] == o.children@[0]);
        }
        assert(n.height() == o.height());
    }

    /// Substituting the in-order successor (the smallest key of child
    /// `i + 1`, already deleted from that subtree) for the entry at slot `i`
    /// removes exactly that entry's key from the node's sequence.
    proof fn lemma_remove_subst(o: Node<V>, n: Node<V>, i: int, key: i32, succ: (i32, V))
        requires
            o.wf_core(-1),
            o.children@.len() == o.entries@.len() + 1,
            0 <= i < o.entries@.len(),
            o.entries@[i].0 == key,
            o.children@[i + 1].entry_seq().len() >= 1,
            succ == o.children@[i + 1].entry_seq()[0],
            n.entries@ == o.entries@.update(i, succ),
            n.children@ == o.children@.update(i + 1, n.children@[i + 1]),
            n.children@[i + 1].wf_core(-1),
            n.children@[i + 1].entries@.len() <= MAX_KEYS,
            n.children@[i + 1].entries@.len() >= o.children@[i + 1].entries@.len() - 1,
            n.children@[i + 1].entries@.len() <= o.children@[i + 1].entries@.len(),
            n.children@[i + 1].height() == o.children@[i + 1].height(),
            n.children@[i + 1].entry_seq() == o.children@[i + 1].entry_seq().skip(1),
        ensures
            n.wf_core(i + 1),
            n.entry_seq() == remove_sorted(o.entry_seq(), key),
            n.height() == o.height(),
    {
        let cr = o.children@[i + 1];
        let ncr = n.children@[i + 1];
        let cs = cr.entry_seq();
        cr.lemma_suffix_sorted(-1, 0);
        o.lemma_decompose(i);
        o.lemma_suffix_unfold(i);
        o.lemma_suffix_unfold(i + 1);
        n.lemma_decompose(i);
        n.lemma_suffix_unfold(i);
        n.lemma_suffix_unfold(i + 1);
        lemma_prefix_align(n, o, i);
        if i + 1 < o.entries@.len() {
            lemma_suffix_align(n, o, i + 2, i + 2);
        }
        let pre = o.seq_prefix(i);
        let cp = o.childpart(i);
        let tail = if i + 1 < o.entries@.len() {
            seq![o.entries@[i + 1]] + o.seq_suffix(i + 2)
        } else {
            Seq::<(i32, V)>::empty()
        };
        if i + 1 < o.entries@.len() {
            assert(o.seq_suffix(i + 1) =~= cs + tail);
            assert(n.seq_suffix(i + 1) =~= ncr.entry_seq() + tail);
        } else {
            assert(o.seq_suffix(i + 1) == cs);
            assert(o.seq_suffix(i + 1) =~= cs + tail);
            assert(n.seq_suffix(i + 1) == ncr.entry_seq());
            assert(n.seq_suffix(i + 1) =~= ncr.entry_seq() + tail);
        }
        assert(n.childpart(i) == cp);
        assert(o.entry_seq() == pre + (cp + seq![o.entries@[i]] + o.seq_suffix(i + 1)));
        assert(n.entry_seq() == pre + (cp + seq![succ] + n.seq_suffix(i + 1)));
        // removing `key` strips the separator and promotes the successor
        assert forall|j: int| 0 <= j < i implies (#[trigger] o.entries@[j]).0 < key by {
            assert(o.entries@[j].0 < o.entries@[i].0);
        }
        o.lemma_prefix_lt(-1, i, key as int);
        lemma_remove_sorted_prepend(pre, cp + seq![o.entries@[i]] + o.seq_suffix(i + 1), key);
        lemma_remove_sorted_prepend(cp, seq![o.entries@[i]] + o.seq_suffix(i + 1), key);
        assert(cp + seq![o.entries@[i]] + o.seq_suffix(i + 1)
            =~= cp + (seq![o.entries@[i]] + o.seq_suffix(i + 1)));
        assert((seq![o.entries@[i]] + o.seq_suffix(i + 1))[0] == o.entries@[i]);
        assert(remove_sorted(seq![o.entries@[i]] + o.seq_suffix(i + 1), key)
            == (seq![o.entries@[i]] + o.seq_suffix(i + 1)).skip(1));
        assert((seq![o.entries@[i]] + o.seq_suffix(i + 1)).skip(1) =~= o.seq_suffix(i + 1));
        assert(remove_sorted(o.entry_seq(), key) =~= pre + (cp + (cs + tail)));
        assert(cs =~= seq![succ] + cs.skip(1));
        assert(n.entry_seq() =~= pre + (cp + (cs + tail)));
        // the invariant, with child `i + 1` possibly one entry short
        assert forall|x: int, y: int| 0 <= x < y < n.entries@.len() implies
            (#[trigger] n.entries@[x]).0 < (#[trigger] n.entries@[y]).0 by {
            assert(all_keys_gt(cs, o.entries@[i].0 as int));
            assert(succ.0 > o.entries@[i].0);
            if i + 1 < o.entries@.len() {
                assert(all_keys_lt(cs, o.entries@[i + 1].0 as int));
                assert(succ.0 < o.entries@[i + 1].0);
            }
            if x != i {
                assert(n.entries@[x] == o.entries@[x]);
            }
            if y != i {
                assert(n.entries@[y] == o.entries@[y]);
            }
        }
        assert forall|a: int| 0 <= a < n.children@.len() implies {
            let c = #[trigger] n.children@[a];
            &&& c.wf_core(-1)
            &&& c.entries@.len() <= MAX_KEYS
            &&& (a != i + 1 ==> c.entries@.len() >= MIN_KEYS)
            &&& (a == i + 1 ==> c.entries@.len() >= 1)
            &&& c.height() == n.children@[0].height()
            &&& (a < n.entries@.len() ==> all_keys_lt(c.entry_seq(), n.entries@[a].0 as int))
            &&& (a >= 1 ==> all_keys_gt(c.entry_seq(), n.entries@[a - 1].0 as int))
        } by {
            assert(all_keys_gt(cs, o.entries@[i].0 as int));
            assert(succ.0 > o.entries@[i].0);
            if a != i + 1 {
                assert(n.children@[a] == o.children@[a]);
            }
            assert(n.children@[0] == o.children@[0]);
            if a == i + 1 {
                assert(ncr.height() == cr.height());
                // its keys exceed the successor: they are the tail of the
                // sorted child sequence
                assert forall|p: int| 0 <= p < ncr.entry_seq().len() implies
                    (#[trigger] ncr.entry_seq()[p]).0 > succ.0 by {
                    assert(ncr.entry_seq()[p] == cs[p + 1]);
                    assert(cs[0].0 < cs[p + 1].0);
                }
                if i + 1 < n.entries@.len() {
                    assert(all_keys_lt(cs, n.entries@[i + 1].0 as int));
                    assert forall|p: int| 0 <= p < ncr.entry_seq().len() implies
                        (#[trigger] ncr.entry_seq()[p]).0 < n.entries@[i + 1].0 by {
                        assert(ncr.entry_seq()[p] == cs[p + 1]);
                    }
                }
            }
            if a == i {
                assert(all_keys_lt(o.children@[a].entry_seq(), o.entries@[i].0 as int));
                assert forall|p: int| 0 <= p < o.children@[a].entry_seq().len() implies
                    (#[trigger] o.children@[a].entry_seq()[p]).0 < succ.0 by {}
            }
            if a == i + 2 {
                assert(all_keys_gt(n.children@[a].entry_seq(), o.entries@[i + 1].0 as int));
            }
        }
        assert(n.height() == o.height());
    }
}

} // verus!

verus! {

impl<V> Node<V> {
    /// Correctness of borrowing from the right sibling: the separator drops
    /// into child `i`, the right sibling's first entry replaces the
    /// separator, and (for internal children) the right sibling's first
    /// child moves over.  The in-order sequence is unchanged and the
    /// invariant is fully restored.
    #[verifier::rlimit(100)]
    #[verifier::spinoff_prover]
    proof fn lemma_borrow_right(o: Node<V>, n: Node<V>, i: int)
        requires
            o.wf_core(i),
            o.children@.len() == o.entries@.len() + 1,
            0 <= i,
            i + 1 < o.children@.len(),
            o.children@[i].entries@.len() >= 1,
            o.children@[i].entries@.len() < MIN_KEYS,
            o.children@[i + 1].entries@.len() > MIN_KEYS,
            n.entries@ == o.entries@.update(i, o.children@[i + 1].entries@[0]),
            n.children@ == o.children@.update(i, n.children@[i]).update(i + 1, n.children@[i + 1]),
            n.children@[i].entries@ == o.children@[i].entries@.push(o.entries@[i]),
            n.children@[i + 1].entries@ == o.children@[i + 1].entries@.skip(1),
            o.children@[i + 1].children@.len() == 0 ==> {
                &&& n.children@[i].children@ == o.children@[i].children@
                &&& n.children@[i + 1].children@ == o.children@[i + 1].children@
            },
            o.children@[i + 1].children@.len() > 0 ==> {
                &&& n.children@[i].children@
                    == o.children@[i].children@.push(o.children@[i + 1].children@[0])
                &&& n.children@[i + 1].children@ == o.children@[i + 1].children@.skip(1)
            },
        ensures
            n.wf_core(-1),
            n.entry_seq() == o.entry_seq(),
            n.height() == o.height(),
            n.entries@.len() == o.entries@.len(),
    {
        let ci = o.children@[i];
        let cr = o.children@[i + 1];
        let nci = n.children@[i];
        let ncr = n.children@[i + 1];
        let sep = o.entries@[i];
        let first = cr.entries@[0];
        let m = ci.entries@.len() as int;
        assert(ci.wf_core(-1));
        assert(cr.wf_core(-1));
        assert(ci.children@.len() == 0 || ci.children@.len() == ci.entries@.len() + 1);
        assert(cr.children@.len() == 0 || cr.children@.len() == cr.entries@.len() + 1);
        // both siblings are leaves, or both are internal
        assert(ci.height() == cr.height());
        if cr.children@.len() > 0 {
            assert(cr.height() >= 1);
            assert(ci.children@.len() > 0);
        } else {
            assert(cr.height() == 0);
            assert(ci.children@.len() == 0) by {
                if ci.children@.len() > 0 {
                    assert(ci.height() >= 1);
                }
            }
        }
        let c0seq = if cr.children@.len() > 0 {
            cr.children@[0].entry_seq()
        } else {
            Seq::<(i32, V)>::empty()
        };
        // the right sibling's sequence starts with its first subtree and entry
        cr.lemma_decompose(1);
        cr.lemma_prefix_unfold(0);
        cr.lemma_suffix_unfold(0);
        assert(cr.seq_prefix(0) =~= Seq::<(i32, V)>::empty());
        assert(cr.seq_prefix(1) =~= c0seq + seq![first]);
        lemma_suffix_align(*ncr, *cr, 0, 1);
        assert(cr.entry_seq() == (c0seq + seq![first]) + ncr.entry_seq());
        // the grown left sibling appends the separator and that subtree
        nci.lemma_decompose(m);
        lemma_prefix_align(*nci, *ci, m);
        nci.lemma_suffix_unfold(m);
        ci.lemma_decompose(m);
        ci.lemma_suffix_unfold(m);
        assert(nci.childpart(m) == ci.childpart(m));
        assert(ci.entry_seq() == ci.seq_prefix(m) + ci.childpart(m));
        if cr.children@.len() > 0 {
            assert(nci.seq_suffix(m + 1) == nci.childpart(m + 1));
            assert(nci.childpart(m + 1) == c0seq);
            assert(nci.entry_seq()
                == ci.seq_prefix(m) + (ci.childpart(m) + seq![sep] + c0seq));
        } else {
            assert(nci.seq_suffix(m + 1) =~= Seq::<(i32, V)>::empty());
            assert(nci.entry_seq()
                =~= ci.seq_prefix(m) + (ci.childpart(m) + seq![sep] + c0seq));
        }
        assert(nci.entry_seq() =~= ci.entry_seq() + seq![sep] + c0seq);
        // the parent's sequence is a pure reassociation
        o.lemma_decompose(i);
        o.lemma_suffix_unfold(i);
        o.lemma_suffix_unfold(i + 1);
        n.lemma_decompose(i);
        n.lemma_suffix_unfold(i);
        n.lemma_suffix_unfold(i + 1);
        lemma_prefix_align(n, o, i);
        let tail = if i + 1 < o.entries@.len() {
            seq![o.entries@[i + 1]] + o.seq_suffix(i + 2)
        } else {
            Seq::<(i32, V)>::empty()
        };
        if i + 1 < o.entries@.len() {
            lemma_suffix_align(n, o, i + 2, i + 2);
            assert(n.entries@[i + 1] == o.entries@[i + 1]);
            assert(o.seq_suffix(i + 1) =~= cr.entry_seq() + tail);
            assert(n.seq_suffix(i + 1) =~= ncr.entry_seq() + tail);
        } else {
            assert(o.seq_suffix(i + 1) =~= cr.entry_seq() + tail);
            assert(n.seq_suffix(i + 1) =~= ncr.entry_seq() + tail);
        }
        assert(o.entry_seq()
            == o.seq_prefix(i) + (ci.entry_seq() + seq![sep] + (cr.entry_seq() + tail)));
        assert(n.entry_seq()
            == o.seq_prefix(i) + (nci.entry_seq() + seq![first] + (ncr.entry_seq() + tail)));
        assert(nci.entry_seq() + seq![first] + (ncr.entry_seq() + tail)
            =~= ci.entry_seq() + seq![sep] + (((c0seq + seq![first]) + ncr.entry_seq()) + tail));
        assert(ci.entry_seq() + seq![sep] + (((c0seq + seq![first]) + ncr.entry_seq()) + tail)
            =~= ci.entry_seq() + seq![sep] + (cr.entry_seq() + tail));
        // bounds used to restore the invariant
        assert(all_keys_gt(cr.entry_seq(), sep.0 as int));
        assert(first == cr.entry_seq()[c0seq.len() as int]);
        assert(first.0 > sep.0);
        if i + 1 < o.entries@.len() {
            assert(all_keys_lt(cr.entry_seq(), o.entries@[i + 1].0 as int));
            assert(first.0 < o.entries@[i + 1].0);
        }
        assert forall|x: int, y: int| 0 <= x < y < n.entries@.len() implies
            (#[trigger] n.entries@[x]).0 < (#[trigger] n.entries@[y]).0 by {
            if x != i {
                assert(n.entries@[x] == o.entries@[x]);
            }
            if y != i {
                assert(n.entries@[y] == o.entries@[y]);
            }
            if y == i {
                assert(o.entries@[x].0 < sep.0);
            }
        }
        // the grown left sibling is well formed
        assert(all_keys_lt(ci.entry_seq(), sep.0 as int));
        assert forall|x: int, y: int| 0 <= x < y < nci.entries@.len() implies
            (#[trigger] nci.entries@[x]).0 < (#[trigger] nci.entries@[y]).0 by {
            if y < m {
                assert(nci.entries@[x] == ci.entries@[x] && nci.entries@[y] == ci.entries@[y]);
            } else {
                assert(nci.entries@[y] == sep);
                assert(nci.entries@[x] == ci.entries@[x]);
                ci.lemma_entry_at(x);
                let p = choose|p: int| 0 <= p < ci.entry_seq().len()
                    && #[trigger] ci.entry_seq()[p] == ci.entries@[x];
                assert(ci.entry_seq()[p].0 < sep.0);
            }
        }
        assert forall|a: int| 0 <= a < nci.children@.len() implies {
            let c = #[trigger] nci.children@[a];
            &&& c.wf_core(-1)
            &&& c.entries@.len() <= MAX_KEYS
            &&& c.entries@.len() >= MIN_KEYS
            &&& c.height() == nci.children@[0].height()
            &&& (a < nci.entries@.len() ==> all_keys_lt(c.entry_seq(), nci.entries@[a].0 as int))
            &&& (a >= 1 ==> all_keys_gt(c.entry_seq(), nci.entries@[a - 1].0 as int))
        } by {
            let mc = m + 1;
            assert(ci.children@.len() > 0 ==> nci.children@.len() == ci.children@.len() + 1);
            if a < nci.children@.len() - 1 {
                assert(nci.children@[a] == ci.children@[a]);
                if a < ci.entries@.len() {
                    assert(nci.entries@[a] == ci.entries@[a]);
                }
                if a >= 1 {
                    assert(nci.entries@[a - 1] == ci.entries@[a - 1]);
                }
                if a == ci.entries@.len() {
                    // the old last child now sits left of the dropped separator
                    assert(nci.entries@[a] == sep);
                    assert forall|p: int| 0 <= p < ci.children@[a].entry_seq().len() implies
                        (#[trigger] ci.children@[a].entry_seq()[p]).0 < sep.0 by {
                        ci.lemma_decompose(a);
                        ci.lemma_suffix_unfold(a);
                        assert(ci.children@[a].seq_suffix(0) == ci.children@[a].entry_seq());
                        assert(ci.entry_seq()[ci.seq_prefix(a).len() + p]
                            == ci.children@[a].entry_seq()[p]);
                    }
                }
                assert(nci.children@[0] == ci.children@[0]);
            } else {
                // the moved subtree: its keys lie between the separator and
                // the promoted entry
                assert(cr.children@.len() > 0);
                let c0 = cr.children@[0];
                assert(nci.children@[a] == c0);
                assert(c0.wf_core(-1));
                assert(a == nci.entries@.len());
                assert(nci.entries@[a - 1] == sep);
                assert forall|p: int| 0 <= p < c0.entry_seq().len() implies
                    (#[trigger] c0.entry_seq()[p]).0 > sep.0 by {
                    assert(c0.entry_seq()[p] == cr.entry_seq()[p]);
                }
                assert(c0.height() == cr.children@[0].height());
                assert(nci.children@[0] == ci.children@[0]);
                assert(1 + ci.children@[0].height() == ci.height());
                assert(1 + cr.children@[0].height() == cr.height());
                assert(c0.height() == ci.children@[0].height());
            }
        }
        // the shrunk right sibling is well formed
        assert forall|x: int, y: int| 0 <= x < y < ncr.entries@.len() implies
            (#[trigger] ncr.entries@[x]).0 < (#[trigger] ncr.entries@[y]).0 by {
            assert(ncr.entries@[x] == cr.entries@[x + 1]);
            assert(ncr.entries@[y] == cr.entries@[y + 1]);
        }
        assert forall|a: int| 0 <= a < ncr.children@.len() implies {
            let c = #[trigger] ncr.children@[a];
            &&& c.wf_core(-1)
            &&& c.entries@.len() <= MAX_KEYS
            &&& c.entries@.len() >= MIN_KEYS
            &&& c.height() == ncr.children@[0].height()
            &&& (a < ncr.entries@.len() ==> all_keys_lt(c.entry_seq(), ncr.entries@[a].0 as int))
            &&& (a >= 1 ==> all_keys_gt(c.entry_seq(), ncr.entries@[a - 1].0 as int))
        } by {
            assert(ncr.children@[a] == cr.children@[a + 1]);
            assert(ncr.children@[0] == cr.children@[1]);
            assert(cr.children@[a + 1].height() == cr.children@[0].height());
            assert(cr.children@[1].height() == cr.children@[0].height());
            if a < ncr.entries@.len() {
                assert(ncr.entries@[a] == cr.entries@[a + 1]);
            }
            if a >= 1 {
                assert(ncr.entries@[a - 1] == cr.entries@[a]);
            } else {
                assert(all_keys_gt(cr.children@[1].entry_seq(), cr.entries@[0].0 as int));
            }
        }
        // heights are untouched
        if cr.children@.len() > 0 {
            assert(nci.children@[0] == ci.children@[0]);
            assert(ncr.children@[0] == cr.children@[1]);
            assert(cr.children@[1].height() == cr.children@[0].height());
            assert(nci.height() == ci.height());
            assert(ncr.height() == cr.height());
        }
        // the parent invariant with every slot filled
        assert(all_keys_gt(ncr.entry_seq(), first.0 as int)) by {
            if cr.children@.len() > 0 {
                cr.lemma_suffix_gt(-1, 1);
            } else {
                cr.lemma_leaf_seq(0);
                ncr.lemma_leaf_seq(0);
                assert forall|p: int| 0 <= p < ncr.entry_seq().len() implies
                    (#[trigger] ncr.entry_seq()[p]).0 > first.0 by {
                    assert(ncr.entry_seq()[p] == cr.entries@[p + 1]);
                }
            }
        }
        assert(all_keys_lt(nci.entry_seq(), first.0 as int)) by {
            assert forall|p: int| 0 <= p < nci.entry_seq().len() implies
                (#[trigger] nci.entry_seq()[p]).0 < first.0 by {
                let a = ci.entry_seq();
                if p < a.len() {
                    assert(nci.entry_seq()[p] == a[p]);
                    assert(a[p].0 < sep.0);
                } else if p == a.len() {
                    assert(nci.entry_seq()[p] == sep);
                } else {
                    assert(nci.entry_seq()[p] == c0seq[p - a.len() - 1]);
                    assert(c0seq[p - a.len() - 1] == cr.entry_seq()[p - a.len() - 1]);
                    assert(all_keys_lt(c0seq, first.0 as int)) by {
                        if cr.children@.len() > 0 {
                            assert(all_keys_lt(cr.children@[0].entry_seq(),
                                cr.entries@[0].0 as int));
                        }
                    }
                }
            }
        }
        assert forall|a: int| 0 <= a < n.children@.len() implies {
            let c = #[trigger] n.children@[a];
            &&& c.wf_core(-1)
            &&& c.entries@.len() <= MAX_KEYS
            &&& c.entries@.len() >= MIN_KEYS
            &&& c.height() == n.children@[0].height()
            &&& (a < n.entries@.len() ==> all_keys_lt(c.entry_seq(), n.entries@[a].0 as int))
            &&& (a >= 1 ==> all_keys_gt(c.entry_seq(), n.entries@[a - 1].0 as int))
        } by {
            if a != i && a != i + 1 {
                assert(n.children@[a] == o.children@[a]);
                if a < n.entries@.len() && a != i {
                    assert(n.entries@[a] == o.entries@[a]);
                }
                if a >= 1 && a - 1 != i {
                    assert(n.entries@[a - 1] == o.entries@[a - 1]);
                }
                if a - 1 == i {
                    assert(all_keys_gt(o.children@[a].entry_seq(), o.entries@[i + 1 - 1].0 as int));
                }
            }
            if a == i {
                assert(n.entries@[i] == first);
                if i >= 1 {
                    assert(n.entries@[i - 1] == o.entries@[i - 1]);
                    assert(all_keys_gt(ci.entry_seq(), o.entries@[i - 1].0 as int));
                    assert forall|p: int| 0 <= p < nci.entry_seq().len() implies
                        (#[trigger] nci.entry_seq()[p]).0 > o.entries@[i - 1].0 by {
                        let s = ci.entry_seq();
                        if p < s.len() {
                            assert(nci.entry_seq()[p] == s[p]);
                        } else if p == s.len() {
                            assert(nci.entry_seq()[p] == sep);
                        } else {
                            assert(nci.entry_seq()[p] == c0seq[p - s.len() - 1]);
                            assert(c0seq[p - s.len() - 1] == cr.entry_seq()[p - s.len() - 1]);
                        }
                    }
                }
            }
            if a == i + 1 {
                assert(n.entries@[i] == first);
                if a < n.entries@.len() {
                    assert(n.entries@[a] == o.entries@[a]);
                    assert forall|p: int| 0 <= p < ncr.entry_seq().len() implies
                        (#[trigger] ncr.entry_seq()[p]).0 < o.entries@[a].0 by {
                        assert(ncr.entry_seq()[p] == cr.entry_seq()[p + c0seq.len() + 1]);
                    }
                }
            }
            if i == 0 {
                assert(n.children@[0] == nci);
                assert(nci.height() == ci.height());
            } else {
                assert(n.children@[0] == o.children@[0]);
            }
            if a == i {
                assert(nci.height() == ci.height());
            }
            if a == i + 1 {
                assert(ncr.height() == cr.height());
            }
        }
        if i == 0 {
            assert(n.children@[0].height() == o.children@[0].height());
        } else {
            assert(n.children@[0] == o.children@[0]);
        }
        assert(n.height() == o.height());
    }
}

} // verus!

verus! {

impl<V> Node<V> {
    /// Correctness of borrowing from the left sibling: the separator drops
    /// to the front of child `i`, the left sibling's last entry replaces the
    /// separator, and (for internal children) the left sibling's last child
    /// moves over.  The in-order sequence is unchanged and the invariant is
    /// fully restored.
    #[verifier::rlimit(100)]
    #[verifier::spinoff_prover]
    proof fn lemma_borrow_left(o: Node<V>, n: Node<V>, i: int)
        requires
            o.wf_core(i),
            o.children@.len() == o.entries@.len() + 1,
            1 <= i < o.children@.len(),
            o.children@[i].entries@.len() >= 1,
            o.children@[i].entries@.len() < MIN_KEYS,
            o.children@[i - 1].entries@.len() > MIN_KEYS,
            n.entries@ == o.entries@.update(
                i - 1,
                o.children@[i - 1].entries@.last(),
            ),
            n.children@ == o.children@.update(i - 1, n.children@[i - 1]).update(i, n.children@[i]),
            n.children@[i - 1].entries@ == o.children@[i - 1].entries@.drop_last(),
            n.children@[i].entries@ == o.children@[i].entries@.insert(0, o.entries@[i - 1]),
            o.children@[i - 1].children@.len() == 0 ==> {
                &&& n.children@[i - 1].children@ == o.children@[i - 1].children@
                &&& n.children@[i].children@ == o.children@[i].children@
            },
            o.children@[i - 1].children@.len() > 0 ==> {
                &&& n.children@[i - 1].children@ == o.children@[i - 1].children@.drop_last()
                &&& n.children@[i].children@
                    == o.children@[i].children@.insert(0, o.children@[i - 1].children@.last())
            },
        ensures
            n.wf_core(-1),
            n.entry_seq() == o.entry_seq(),
            n.height() == o.height(),
            n.entries@.len() == o.entries@.len(),
    {
        let cl = o.children@[i - 1];
        let ci = o.children@[i];
        let ncl = n.children@[i - 1];
        let nci = n.children@[i];
        let sep = o.entries@[i - 1];
        let last = cl.entries@.last();
        let m = cl.entries@.len() - 1;
        assert(cl.wf_core(-1));
        assert(ci.wf_core(-1));
        assert(cl.children@.len() == 0 || cl.children@.len() == cl.entries@.len() + 1);
        assert(ci.children@.len() == 0 || ci.children@.len() == ci.entries@.len() + 1);
        // both siblings are leaves, or both are internal
        assert(cl.height() == ci.height());
        if cl.children@.len() > 0 {
            assert(cl.height() >= 1);
            assert(ci.children@.len() > 0) by {
                if ci.children@.len() == 0 {
                    assert(ci.height() == 0);
                }
            }
        } else {
            assert(cl.height() == 0);
            assert(ci.children@.len() == 0) by {
                if ci.children@.len() > 0 {
                    assert(ci.height() >= 1);
                }
            }
        }
        let clseq = if cl.children@.len() > 0 {
            cl.children@.last().entry_seq()
        } else {
            Seq::<(i32, V)>::empty()
        };
        cl.lemma_suffix_sorted(-1, 0);
        // the left sibling's sequence ends with its last entry and subtree
        cl.lemma_decompose(m);
        cl.lemma_suffix_unfold(m);
        cl.lemma_suffix_unfold(m + 1);
        ncl.lemma_decompose(m);
        lemma_prefix_align(*ncl, *cl, m);
        ncl.lemma_suffix_unfold(m);
        assert(ncl.childpart(m) == cl.childpart(m));
        assert(ncl.entry_seq() == cl.seq_prefix(m) + cl.childpart(m));
        assert(cl.seq_suffix(m + 1) == cl.childpart(m + 1));
        assert(cl.childpart(m + 1) =~= clseq);
        assert(cl.entry_seq()
            == cl.seq_prefix(m) + (cl.childpart(m) + seq![last] + clseq));
        assert(cl.entry_seq() =~= ncl.entry_seq() + seq![last] + clseq);
        // the grown child gains the separator and that subtree at the front
        nci.lemma_decompose(1);
        nci.lemma_prefix_unfold(0);
        nci.lemma_suffix_unfold(0);
        assert(nci.seq_prefix(0) =~= Seq::<(i32, V)>::empty());
        assert(nci.entries@[0] == sep);
        assert(nci.childpart(0) =~= clseq);
        assert(nci.seq_prefix(1) =~= clseq + seq![sep]);
        lemma_suffix_align(*nci, *ci, 1, 0);
        assert(nci.entry_seq() == (clseq + seq![sep]) + ci.entry_seq());
        // the parent's sequence is a pure reassociation
        o.lemma_decompose(i - 1);
        o.lemma_suffix_unfold(i - 1);
        o.lemma_suffix_unfold(i);
        n.lemma_decompose(i - 1);
        n.lemma_suffix_unfold(i - 1);
        n.lemma_suffix_unfold(i);
        lemma_prefix_align(n, o, i - 1);
        let tail = if i < o.entries@.len() {
            seq![o.entries@[i]] + o.seq_suffix(i + 1)
        } else {
            Seq::<(i32, V)>::empty()
        };
        if i < o.entries@.len() {
            lemma_suffix_align(n, o, i + 1, i + 1);
            assert(n.entries@[i] == o.entries@[i]);
            assert(o.seq_suffix(i) =~= ci.entry_seq() + tail);
            assert(n.seq_suffix(i) =~= nci.entry_seq() + tail);
        } else {
            assert(o.seq_suffix(i) =~= ci.entry_seq() + tail);
            assert(n.seq_suffix(i) =~= nci.entry_seq() + tail);
        }
        assert(o.entry_seq()
            == o.seq_prefix(i - 1) + (cl.entry_seq() + seq![sep] + (ci.entry_seq() + tail)));
        assert(n.entry_seq()
            == o.seq_prefix(i - 1) + (ncl.entry_seq() + seq![last] + (nci.entry_seq() + tail)));
        assert(ncl.entry_seq() + seq![last] + (nci.entry_seq() + tail)
            =~= (ncl.entry_seq() + seq![last] + clseq) + seq![sep] + (ci.entry_seq() + tail));
        assert((ncl.entry_seq() + seq![last] + clseq) + seq![sep] + (ci.entry_seq() + tail)
            =~= cl.entry_seq() + seq![sep] + (ci.entry_seq() + tail));
        // bounds used to restore the invariant
        assert(all_keys_lt(cl.entry_seq(), sep.0 as int));
        assert(last == cl.entry_seq()[ncl.entry_seq().len() as int]);
        assert(last.0 < sep.0);
        if i >= 2 {
            assert(all_keys_gt(cl.entry_seq(), o.entries@[i - 2].0 as int));
            assert(last.0 > o.entries@[i - 2].0);
        }
        assert forall|x: int, y: int| 0 <= x < y < n.entries@.len() implies
            (#[trigger] n.entries@[x]).0 < (#[trigger] n.entries@[y]).0 by {
            if x != i - 1 {
                assert(n.entries@[x] == o.entries@[x]);
            }
            if y != i - 1 {
                assert(n.entries@[y] == o.entries@[y]);
            }
            if x == i - 1 {
                assert(sep.0 <= o.entries@[y].0);
            }
        }
        // the shrunk left sibling is well formed
        assert forall|x: int, y: int| 0 <= x < y < ncl.entries@.len() implies
            (#[trigger] ncl.entries@[x]).0 < (#[trigger] ncl.entries@[y]).0 by {
            assert(ncl.entries@[x] == cl.entries@[x]);
            assert(ncl.entries@[y] == cl.entries@[y]);
        }
        assert forall|a: int| 0 <= a < ncl.children@.len() implies {
            let c = #[trigger] ncl.children@[a];
            &&& c.wf_core(-1)
            &&& c.entries@.len() <= MAX_KEYS
            &&& c.entries@.len() >= MIN_KEYS
            &&& c.height() == ncl.children@[0].height()
            &&& (a < ncl.entries@.len() ==> all_keys_lt(c.entry_seq(), ncl.entries@[a].0 as int))
            &&& (a >= 1 ==> all_keys_gt(c.entry_seq(), ncl.entries@[a - 1].0 as int))
        } by {
            assert(ncl.children@[a] == cl.children@[a]);
            assert(ncl.children@[0] == cl.children@[0]);
            if a < ncl.entries@.len() {
                assert(ncl.entries@[a] == cl.entries@[a]);
            }
            if a >= 1 {
                assert(ncl.entries@[a - 1] == cl.entries@[a - 1]);
            }
        }
        // the grown child is well formed
        assert(all_keys_gt(ci.entry_seq(), sep.0 as int));
        assert forall|x: int, y: int| 0 <= x < y < nci.entries@.len() implies
            (#[trigger] nci.entries@[x]).0 < (#[trigger] nci.entries@[y]).0 by {
            if x > 0 {
                assert(nci.entries@[x] == ci.entries@[x - 1]);
                assert(nci.entries@[y] == ci.entries@[y - 1]);
            } else {
                assert(nci.entries@[0] == sep);
                assert(nci.entries@[y] == ci.entries@[y - 1]);
                ci.lemma_entry_at(y - 1);
                let p = choose|p: int| 0 <= p < ci.entry_seq().len()
                    && #[trigger] ci.entry_seq()[p] == ci.entries@[y - 1];
                assert(ci.entry_seq()[p].0 > sep.0);
            }
        }
        assert forall|a: int| 0 <= a < nci.children@.len() implies {
            let c = #[trigger] nci.children@[a];
            &&& c.wf_core(-1)
            &&& c.entries@.len() <= MAX_KEYS
            &&& c.entries@.len() >= MIN_KEYS
            &&& c.height() == nci.children@[0].height()
            &&& (a < nci.entries@.len() ==> all_keys_lt(c.entry_seq(), nci.entries@[a].0 as int))
            &&& (a >= 1 ==> all_keys_gt(c.entry_seq(), nci.entries@[a - 1].0 as int))
        } by {
            assert(cl.children@.len() > 0);
            let clast = cl.children@.last();
            assert(nci.children@[0] == clast);
            if a == 0 {
                // the moved subtree sits below the dropped separator
                assert(clast.wf_core(-1));
                assert forall|p: int| 0 <= p < clast.entry_seq().len() implies
                    (#[trigger] clast.entry_seq()[p]).0 < sep.0 by {
                    assert(clast.entry_seq()[p]
                        == cl.entry_seq()[ncl.entry_seq().len() + 1 + p]);
                }
                assert(clast.height() == cl.children@[0].height());
                assert(1 + cl.children@[0].height() == cl.height());
                assert(1 + ci.children@[0].height() == ci.height());
                assert(clast.height() == ci.children@[0].height());
                assert(clast.height() == nci.children@[0].height());
            } else {
                assert(nci.children@[a] == ci.children@[a - 1]);
                assert(ci.children@[a - 1].height() == ci.children@[0].height());
                if a == 1 {
                    assert(nci.entries@[0] == sep);
                    assert forall|p: int| 0 <= p < ci.children@[0].entry_seq().len() implies
                        (#[trigger] ci.children@[0].entry_seq()[p]).0 > sep.0 by {
                        ci.lemma_decompose(0);
                        ci.lemma_suffix_unfold(0);
                        assert(ci.children@[0].seq_suffix(0) == ci.children@[0].entry_seq());
                        assert(ci.entry_seq()[p] == ci.children@[0].entry_seq()[p]);
                    }
                } else {
                    assert(nci.entries@[a - 1] == ci.entries@[a - 2]);
                }
                if a < nci.entries@.len() {
                    assert(nci.entries@[a] == ci.entries@[a - 1]);
                }
                let clast2 = cl.children@.last();
                assert(1 + cl.children@[0].height() == cl.height());
                assert(1 + ci.children@[0].height() == ci.height());
                assert(clast2.height() == cl.children@[0].height());
                assert(nci.children@[0].height() == ci.children@[0].height());
            }
        }
        // heights are untouched
        if cl.children@.len() > 0 {
            assert(ncl.children@[0] == cl.children@[0]);
            assert(nci.children@[0] == cl.children@.last());
            assert(cl.children@.last().height() == cl.children@[0].height());
            assert(1 + cl.children@[0].height() == cl.height());
            assert(1 + ci.children@[0].height() == ci.height());
            assert(ncl.height() == cl.height());
            assert(nci.height() == ci.height());
        }
        // the parent invariant with every slot filled
        assert(all_keys_lt(ncl.entry_seq(), last.0 as int)) by {
            assert forall|p: int| 0 <= p < ncl.entry_seq().len() implies
                (#[trigger] ncl.entry_seq()[p]).0 < last.0 by {
                assert(ncl.entry_seq()[p] == cl.entry_seq()[p]);
                assert(cl.entry_seq()[p].0 < cl.entry_seq()[ncl.entry_seq().len() as int].0);
            }
        }
        assert(all_keys_gt(nci.entry_seq(), last.0 as int)) by {
            assert forall|p: int| 0 <= p < nci.entry_seq().len() implies
                (#[trigger] nci.entry_seq()[p]).0 > last.0 by {
                if p < clseq.len() {
                    assert(nci.entry_seq()[p] == clseq[p]);
                    assert(clseq[p] == cl.entry_seq()[ncl.entry_seq().len() + 1 + p]);
                    assert(cl.entry_seq()[ncl.entry_seq().len() + 1 + p].0
                        > cl.entry_seq()[ncl.entry_seq().len() as int].0);
                } else if p == clseq.len() {
                    assert(nci.entry_seq()[p] == sep);
                } else {
                    assert(nci.entry_seq()[p] == ci.entry_seq()[p - clseq.len() - 1]);
                    assert(ci.entry_seq()[p - clseq.len() - 1].0 > sep.0);
                }
            }
        }
        assert forall|a: int| 0 <= a < n.children@.len() implies {
            let c = #[trigger] n.children@[a];
            &&& c.wf_core(-1)
            &&& c.entries@.len() <= MAX_KEYS
            &&& c.entries@.len() >= MIN_KEYS
            &&& c.height() == n.children@[0].height()
            &&& (a < n.entries@.len() ==> all_keys_lt(c.entry_seq(), n.entries@[a].0 as int))
            &&& (a >= 1 ==> all_keys_gt(c.entry_seq(), n.entries@[a - 1].0 as int))
        } by {
            if a != i - 1 && a != i {
                assert(n.children@[a] == o.children@[a]);
                if a < n.entries@.len() && a != i - 1 {
                    assert(n.entries@[a] == o.entries@[a]);
                }
                if a >= 1 && a - 1 != i - 1 {
                    assert(n.entries@[a - 1] == o.entries@[a - 1]);
                }
                if a == i - 2 && a < n.entries@.len() {
                    assert(all_keys_lt(o.children@[a].entry_seq(), o.entries@[a].0 as int));
                    assert(o.entries@[a].0 < last.0 || o.entries@[a].0 == last.0
                        || o.entries@[a].0 > last.0);
                    assert forall|p: int| 0 <= p < o.children@[a].entry_seq().len() implies
                        (#[trigger] o.children@[a].entry_seq()[p]).0 < n.entries@[a].0 by {
                        assert(o.children@[a].entry_seq()[p].0 < o.entries@[a].0);
                        assert(o.entries@[a].0 < last.0) by {
                            cl.lemma_entry_at(0);
                            let q = choose|q: int| 0 <= q < cl.entry_seq().len()
                                && #[trigger] cl.entry_seq()[q] == cl.entries@[0];
                            assert(cl.entry_seq()[q].0 > o.entries@[i - 2].0);
                            assert(cl.entries@[0].0 <= last.0);
                        }
                    }
                }
            }
            if a == i - 1 {
                assert(n.entries@[i - 1] == last);
                if a >= 1 {
                    assert(n.entries@[a - 1] == o.entries@[a - 1]);
                    assert forall|p: int| 0 <= p < ncl.entry_seq().len() implies
                        (#[trigger] ncl.entry_seq()[p]).0 > o.entries@[a - 1].0 by {
                        assert(ncl.entry_seq()[p] == cl.entry_seq()[p]);
                    }
                }
                assert(ncl.height() == cl.height());
            }
            if a == i {
                assert(n.entries@[i - 1] == last);
                if a < n.entries@.len() {
                    assert(n.entries@[a] == o.entries@[a]);
                    assert forall|p: int| 0 <= p < nci.entry_seq().len() implies
                        (#[trigger] nci.entry_seq()[p]).0 < o.entries@[a].0 by {
                        if p < clseq.len() {
                            assert(nci.entry_seq()[p] == clseq[p]);
                            assert(clseq[p] == cl.entry_seq()[ncl.entry_seq().len() + 1 + p]);
                            assert(cl.entry_seq()[ncl.entry_seq().len() + 1 + p].0 < sep.0);
                            assert(sep.0 < o.entries@[a].0);
                        } else if p == clseq.len() {
                            assert(nci.entry_seq()[p] == sep);
                            assert(sep.0 < o.entries@[a].0);
                        } else {
                            assert(nci.entry_seq()[p] == ci.entry_seq()[p - clseq.len() - 1]);
                            assert(ci.entry_seq()[p - clseq.len() - 1].0 < o.entries@[a].0);
                        }
                    }
                }
                assert(nci.height() == ci.height());
            }
            if i - 1 == 0 {
                assert(n.children@[0] == ncl);
                assert(ncl.height() == cl.height());
            } else {
                assert(n.children@[0] == o.children@[0]);
            }
        }
        if i - 1 == 0 {
            assert(n.children@[0].height() == o.children@[0].height());
        } else {
            assert(n.children@[0] == o.children@[0]);
        }
        assert(n.height() == o.height());
    }
}

} // verus!

verus! {

impl<V> Node<V> {
    /// Correctness of merging child `j + 1` into child `j`: the separating
    /// entry drops between the two entry runs, the right child's children
    /// are appended, and the right child leaves the parent.  The in-order
    /// sequence is unchanged; the invariant is restored (the parent itself
    /// lost one entry, which its own parent may have to repair).
    #[verifier::rlimit(100)]
    #[verifier::spinoff_prover]
    proof fn lemma_merge(o: Node<V>, n: Node<V>, j: int, x: int)
        requires
            o.wf_core(x),
            x == j || x == j + 1,
            o.children@.len() == o.entries@.len() + 1,
            0 <= j,
            j + 1 < o.children@.len(),
            o.children@[j].entries@.len() >= 1,
            o.children@[j + 1].entries@.len() >= 1,
            o.children@[j].entries@.len() + o.children@[j + 1].entries@.len() + 1 >= MIN_KEYS,
            o.children@[j].entries@.len() + o.children@[j + 1].entries@.len() + 1 <= MAX_KEYS,
            n.entries@ == o.entries@.remove(j),
            n.children@ == o.children@.update(j, n.children@[j]).remove(j + 1),
            n.children@[j].entries@
                == o.children@[j].entries@ + seq![o.entries@[j]] + o.children@[j + 1].entries@,
            n.children@[j].children@ == o.children@[j].children@ + o.children@[j + 1].children@,
        ensures
            n.wf_core(-1),
            n.entry_seq() == o.entry_seq(),
            n.height() == o.height(),
            n.entries@.len() == o.entries@.len() - 1,
    {
        let cj = o.children@[j];
        let cr = o.children@[j + 1];
        let mg = n.children@[j];
        let sep = o.entries@[j];
        let m = cj.entries@.len() as int;
        assert(cj.wf_core(-1));
        assert(cr.wf_core(-1));
        assert(cj.children@.len() == 0 || cj.children@.len() == cj.entries@.len() + 1);
        assert(cr.children@.len() == 0 || cr.children@.len() == cr.entries@.len() + 1);
        // both merged nodes are leaves, or both are internal
        assert(cj.height() == cr.height());
        if cr.children@.len() > 0 {
            assert(cr.height() >= 1);
            assert(cj.children@.len() > 0) by {
                if cj.children@.len() == 0 {
                    assert(cj.height() == 0);
                }
            }
        } else {
            assert(cr.height() == 0);
            assert(cj.children@.len() == 0) by {
                if cj.children@.len() > 0 {
                    assert(cj.height() >= 1);
                }
            }
        }
        assert(mg.children@.len() == 0 || mg.children@.len() == mg.entries@.len() + 1);
        // the merged node's sequence is left + separator + right
        mg.lemma_decompose(m);
        lemma_prefix_align(*mg, *cj, m);
        mg.lemma_suffix_unfold(m);
        cj.lemma_decompose(m);
        cj.lemma_suffix_unfold(m);
        assert(mg.childpart(m) == cj.childpart(m)) by {
            if cj.children@.len() > 0 {
                assert(mg.children@[m] == cj.children@[m]);
            }
        }
        assert(mg.entries@[m] == sep);
        assert forall|d: int| 0 <= d < mg.entries@.len() - (m + 1) implies
            #[trigger] mg.entries@[m + 1 + d] == cr.entries@[d] by {}
        if cr.children@.len() > 0 {
            assert forall|d: int| 0 <= d <= mg.entries@.len() - (m + 1) implies
                #[trigger] mg.children@[m + 1 + d] == cr.children@[d] by {}
        }
        lemma_suffix_align(*mg, *cr, m + 1, 0);
        assert(mg.seq_suffix(m + 1) == cr.entry_seq());
        assert(cj.entry_seq() == cj.seq_prefix(m) + cj.childpart(m));
        assert(mg.entry_seq()
            == cj.seq_prefix(m) + (cj.childpart(m) + seq![sep] + cr.entry_seq()));
        assert(mg.entry_seq() =~= cj.entry_seq() + seq![sep] + cr.entry_seq());
        // the parent's sequence is unchanged
        o.lemma_decompose(j);
        o.lemma_suffix_unfold(j);
        o.lemma_suffix_unfold(j + 1);
        n.lemma_decompose(j);
        n.lemma_suffix_unfold(j);
        lemma_prefix_align(n, o, j);
        let tail = if j + 1 < o.entries@.len() {
            seq![o.entries@[j + 1]] + o.seq_suffix(j + 2)
        } else {
            Seq::<(i32, V)>::empty()
        };
        if j + 1 < o.entries@.len() {
            assert(n.entries@[j] == o.entries@[j + 1]);
            assert forall|d: int| 0 <= d < n.entries@.len() - (j + 1) implies
                #[trigger] n.entries@[j + 1 + d] == o.entries@[j + 2 + d] by {}
            assert forall|d: int| 0 <= d <= n.entries@.len() - (j + 1) implies
                #[trigger] n.children@[j + 1 + d] == o.children@[j + 2 + d] by {}
            lemma_suffix_align(n, o, j + 1, j + 2);
            assert(n.seq_suffix(j) == mg.entry_seq() + seq![o.entries@[j + 1]] + o.seq_suffix(j + 2));
            assert(n.seq_suffix(j) =~= mg.entry_seq() + tail);
            assert(o.seq_suffix(j + 1) =~= cr.entry_seq() + tail);
        } else {
            assert(j == n.entries@.len());
            assert(n.seq_suffix(j) == n.childpart(j));
            assert(n.childpart(j) == mg.entry_seq());
            assert(n.seq_suffix(j) =~= mg.entry_seq() + tail);
            assert(o.seq_suffix(j + 1) == cr.entry_seq());
            assert(o.seq_suffix(j + 1) =~= cr.entry_seq() + tail);
        }
        assert(o.entry_seq()
            == o.seq_prefix(j) + (cj.entry_seq() + seq![sep] + (cr.entry_seq() + tail)));
        assert(n.entry_seq() == o.seq_prefix(j) + ((cj.entry_seq() + seq![sep] + cr.entry_seq()) + tail));
        assert((cj.entry_seq() + seq![sep] + cr.entry_seq()) + tail
            =~= cj.entry_seq() + seq![sep] + (cr.entry_seq() + tail));
        // the merged node is well formed
        assert(all_keys_lt(cj.entry_seq(), sep.0 as int));
        assert(all_keys_gt(cr.entry_seq(), sep.0 as int));
        assert forall|p: int, q: int| 0 <= p < q < mg.entries@.len() implies
            (#[trigger] mg.entries@[p]).0 < (#[trigger] mg.entries@[q]).0 by {
            if p < m {
                assert(mg.entries@[p] == cj.entries@[p]);
                cj.lemma_entry_at(p);
                let w = choose|w: int| 0 <= w < cj.entry_seq().len()
                    && #[trigger] cj.entry_seq()[w] == cj.entries@[p];
                assert(cj.entry_seq()[w].0 < sep.0);
            } else if p == m {
                assert(mg.entries@[p] == sep);
            } else {
                assert(mg.entries@[p] == cr.entries@[p - m - 1]);
            }
            if q < m {
                assert(mg.entries@[q] == cj.entries@[q]);
            } else if q == m {
                assert(mg.entries@[q] == sep);
                assert(mg.entries@[p].0 < sep.0);
            } else {
                assert(mg.entries@[q] == cr.entries@[q - m - 1]);
                cr.lemma_entry_at(q - m - 1);
                let w = choose|w: int| 0 <= w < cr.entry_seq().len()
                    && #[trigger] cr.entry_seq()[w] == cr.entries@[q - m - 1];
                assert(cr.entry_seq()[w].0 > sep.0);
                if p > m {
                    assert(mg.entries@[p] == cr.entries@[p - m - 1]);
                }
                if p < m {
                    assert(mg.entries@[p].0 < sep.0);
                }
            }
        }
        assert forall|a: int| 0 <= a < mg.children@.len() implies {
            let c = #[trigger] mg.children@[a];
            &&& c.wf_core(-1)
            &&& c.entries@.len() <= MAX_KEYS
            &&& c.entries@.len() >= MIN_KEYS
            &&& c.height() == mg.children@[0].height()
            &&& (a < mg.entries@.len() ==> all_keys_lt(c.entry_seq(), mg.entries@[a].0 as int))
            &&& (a >= 1 ==> all_keys_gt(c.entry_seq(), mg.entries@[a - 1].0 as int))
        } by {
            assert(cj.children@.len() > 0 && cr.children@.len() > 0);
            assert(mg.children@[0] == cj.children@[0]);
            assert(1 + cj.children@[0].height() == cj.height());
            assert(1 + cr.children@[0].height() == cr.height());
            if a <= m {
                assert(mg.children@[a] == cj.children@[a]);
                assert(cj.children@[a].height() == cj.children@[0].height());
                if a < m {
                    assert(mg.entries@[a] == cj.entries@[a]);
                }
                if a == m {
                    // the left child's last subtree sits below the separator
                    assert(mg.entries@[a] == sep);
                    assert forall|p: int| 0 <= p < cj.children@[a].entry_seq().len() implies
                        (#[trigger] cj.children@[a].entry_seq()[p]).0 < sep.0 by {
                        assert(cj.children@[a].entry_seq()[p]
                            == cj.entry_seq()[cj.seq_prefix(m).len() + p]);
                    }
                }
                if a >= 1 {
                    assert(mg.entries@[a - 1] == cj.entries@[a - 1]);
                }
            } else {
                assert(mg.children@[a] == cr.children@[a - m - 1]);
                assert(cr.children@[a - m - 1].height() == cr.children@[0].height());
                if a < mg.entries@.len() {
                    assert(mg.entries@[a] == cr.entries@[a - m - 1]);
                }
                if a == m + 1 {
                    // the right child's first subtree sits above the separator
                    assert(mg.entries@[a - 1] == sep);
                    cr.lemma_decompose(0);
                    cr.lemma_suffix_unfold(0);
                    assert(cr.children@[0].seq_suffix(0) == cr.children@[0].entry_seq());
                    assert forall|p: int| 0 <= p < cr.children@[0].entry_seq().len() implies
                        (#[trigger] cr.children@[0].entry_seq()[p]).0 > sep.0 by {
                        assert(cr.entry_seq()[p] == cr.children@[0].entry_seq()[p]);
                    }
                } else {
                    assert(mg.entries@[a - 1] == cr.entries@[a - m - 2]);
                }
            }
        }
        // heights are untouched
        if cj.children@.len() > 0 {
            assert(mg.children@[0] == cj.children@[0]);
            assert(mg.height() == cj.height());
        } else {
            assert(mg.height() == 0);
        }
        // the parent invariant with the right child gone
        assert(all_keys_lt(mg.entry_seq(), n.entries@[j].0 as int) || j == n.entries@.len()) by {
            if j < n.entries@.len() {
                assert(n.entries@[j] == o.entries@[j + 1]);
                assert(all_keys_lt(cr.entry_seq(), o.entries@[j + 1].0 as int));
                assert forall|p: int| 0 <= p < mg.entry_seq().len() implies
                    (#[trigger] mg.entry_seq()[p]).0 < o.entries@[j + 1].0 by {
                    let s1 = cj.entry_seq();
                    if p < s1.len() {
                        assert(mg.entry_seq()[p] == s1[p]);
                        assert(s1[p].0 < sep.0);
                        assert(sep.0 < o.entries@[j + 1].0);
                    } else if p == s1.len() {
                        assert(mg.entry_seq()[p] == sep);
                        assert(sep.0 < o.entries@[j + 1].0);
                    } else {
                        assert(mg.entry_seq()[p] == cr.entry_seq()[p - s1.len() - 1]);
                    }
                }
            }
        }
        assert forall|a: int| 0 <= a < n.children@.len() implies {
            let c = #[trigger] n.children@[a];
            &&& c.wf_core(-1)
            &&& c.entries@.len() <= MAX_KEYS
            &&& c.entries@.len() >= MIN_KEYS
            &&& c.height() == n.children@[0].height()
            &&& (a < n.entries@.len() ==> all_keys_lt(c.entry_seq(), n.entries@[a].0 as int))
            &&& (a >= 1 ==> all_keys_gt(c.entry_seq(), n.entries@[a - 1].0 as int))
        } by {
            if a != j {
                if a < j {
                    assert(n.children@[a] == o.children@[a]);
                } else {
                    assert(n.children@[a] == o.children@[a + 1]);
                }
            }
            if a < n.entries@.len() {
                if a < j {
                    assert(n.entries@[a] == o.entries@[a]);
                } else {
                    assert(n.entries@[a] == o.entries@[a + 1]);
                }
            }
            if a >= 1 {
                if a - 1 < j {
                    assert(n.entries@[a - 1] == o.entries@[a - 1]);
                } else {
                    assert(n.entries@[a - 1] == o.entries@[a]);
                }
            }
            if a == j {
                assert(mg.height() == cj.height());
                if a >= 1 {
                    assert(n.entries@[a - 1] == o.entries@[a - 1]);
                    assert(all_keys_gt(cj.entry_seq(), o.entries@[a - 1].0 as int));
                    assert forall|p: int| 0 <= p < mg.entry_seq().len() implies
                        (#[trigger] mg.entry_seq()[p]).0 > o.entries@[a - 1].0 by {
                        let s1 = cj.entry_seq();
                        if p < s1.len() {
                            assert(mg.entry_seq()[p] == s1[p]);
                        } else if p == s1.len() {
                            assert(mg.entry_seq()[p] == sep);
                            assert(sep.0 > o.entries@[a - 1].0);
                        } else {
                            assert(mg.entry_seq()[p] == cr.entry_seq()[p - s1.len() - 1]);
                            assert(cr.entry_seq()[p - s1.len() - 1].0 > sep.0);
                            assert(sep.0 > o.entries@[a - 1].0);
                        }
                    }
                }
            }
            if a == j + 1 {
                assert(n.children@[a] == o.children@[a + 1]);
                assert(n.entries@[a - 1] == o.entries@[a]);
                assert(all_keys_gt(o.children@[a + 1].entry_seq(), o.entries@[a].0 as int));
            }
            if j == 0 {
                assert(n.children@[0] == mg);
                assert(mg.height() == cj.height());
            } else {
                assert(n.children@[0] == o.children@[0]);
            }
        }
        if j == 0 {
            assert(n.children@[0].height() == o.children@[0].height());
        } else {
            assert(n.children@[0] == o.children@[0]);
        }
        assert(n.height() == o.height());
    }
}

} // verus!

verus! {

impl<V> Node<V> {
    /// Move the right sibling's first entry up into the separator slot and
    /// the old separator (plus, for internal children, the right sibling's
    /// first subtree) down into child `i`.
    fn borrow_from_right(&mut self, i: usize)
        requires
            old(self).wf_core(i as int),
            old(self).children@.len() == old(self).entries@.len() + 1,
            i + 1 < old(self).children@.len(),
            old(self).children@[i as int].entries@.len() >= 1,
            old(self).children@[i as int].entries@.len() < MIN_KEYS,
            old(self).children@[i as int + 1].entries@.len() > MIN_KEYS,
        ensures
            final(self).wf_core(-1),
            final(self).entry_seq() == old(self).entry_seq(),
            final(self).height() == old(self).height(),
            final(self).entries@.len() == old(self).entries@.len(),
    {
        let ghost o = *self;
        let cnum = self.children.len();
        let first = self.children[i + 1].entries.remove(0);
        let sep = self.entries.remove(i);
        self.entries.insert(i, first);
        self.children[i].entries.push(sep);
        if self.children[i + 1].children.len() > 0 {
            let c = self.children[i + 1].children.remove(0);
            self.children[i].children.push(c);
        }
        proof {
            assert(self.entries@ =~= o.entries@.update(i as int, o.children@[i as int + 1].entries@[0]));
            assert(self.children@[i as int].entries@
                =~= o.children@[i as int].entries@.push(o.entries@[i as int]));
            assert(self.children@[i as int + 1].entries@
                =~= o.children@[i as int + 1].entries@.skip(1));
            if o.children@[i as int + 1].children@.len() > 0 {
                assert(self.children@[i as int].children@
                    =~= o.children@[i as int].children@.push(o.children@[i as int + 1].children@[0]));
                assert(self.children@[i as int + 1].children@
                    =~= o.children@[i as int + 1].children@.skip(1));
            }
            assert(self.children@ =~= o.children@.update(i as int, self.children@[i as int])
                .update(i as int + 1, self.children@[i as int + 1]));
            Self::lemma_borrow_right(o, *self, i as int);
        }
    }

    /// Move the left sibling's last entry up into the separator slot and
    /// the old separator (plus, for internal children, the left sibling's
    /// last subtree) down to the front of child `i`.
    fn borrow_from_left(&mut self, i: usize)
        requires
            old(self).wf_core(i as int),
            old(self).children@.len() == old(self).entries@.len() + 1,
            1 <= i < old(self).children@.len(),
            old(self).children@[i as int].entries@.len() >= 1,
            old(self).children@[i as int].entries@.len() < MIN_KEYS,
            old(self).children@[i as int - 1].entries@.len() > MIN_KEYS,
        ensures
            final(self).wf_core(-1),
            final(self).entry_seq() == old(self).entry_seq(),
            final(self).height() == old(self).height(),
            final(self).entries@.len() == old(self).entries@.len(),
    {
        let ghost o = *self;
        let last = self.children[i - 1].entries.pop().unwrap();
        let sep = self.entries.remove(i - 1);
        self.entries.insert(i - 1, last);
        self.children[i].entries.insert(0, sep);
        if self.children[i - 1].children.len() > 0 {
            let c = self.children[i - 1].children.pop().unwrap();
            self.children[i].children.insert(0, c);
        }
        proof {
            assert(self.entries@ =~= o.entries@.update(
                i as int - 1,
                o.children@[i as int - 1].entries@.last(),
            ));
            assert(self.children@[i as int - 1].entries@
                =~= o.children@[i as int - 1].entries@.drop_last());
            assert(self.children@[i as int].entries@
                =~= o.children@[i as int].entries@.insert(0, o.entries@[i as int - 1]));
            if o.children@[i as int - 1].children@.len() > 0 {
                assert(self.children@[i as int - 1].children@
                    =~= o.children@[i as int - 1].children@.drop_last());
                assert(self.children@[i as int].children@
                    =~= o.children@[i as int].children@.insert(
                        0,
                        o.children@[i as int - 1].children@.last(),
                    ));
            }
            assert(self.children@ =~= o.children@.update(i as int - 1, self.children@[i as int - 1])
                .update(i as int, self.children@[i as int]));
            Self::lemma_borrow_left(o, *self, i as int);
        }
    }

    /// Fold child `j + 1`, together with the separating entry, into child
    /// `j`, and drop the right child from this node.
    fn merge_children(&mut self, j: usize, Ghost(x): Ghost<int>)
        requires
            old(self).wf_core(x),
            x == j as int || x == j as int + 1,
            old(self).children@.len() == old(self).entries@.len() + 1,
            j + 1 < old(self).children@.len(),
            old(self).children@[j as int].entries@.len() >= 1,
            old(self).children@[j as int + 1].entries@.len() >= 1,
            old(self).children@[j as int].entries@.len()
                + old(self).children@[j as int + 1].entries@.len() + 1 >= MIN_KEYS,
            old(self).children@[j as int].entries@.len()
                + old(self).children@[j as int + 1].entries@.len() + 1 <= MAX_KEYS,
        ensures
            final(self).wf_core(-1),
            final(self).entry_seq() == old(self).entry_seq(),
            final(self).height() == old(self).height(),
            final(self).entries@.len() == old(self).entries@.len() - 1,
    {
        let ghost o = *self;
        let cnum = self.children.len();
        let sep = self.entries.remove(j);
        let mut right = self.children.remove(j + 1);
        self.children[j].entries.push(sep);
        self.children[j].entries.append(&mut right.entries);
        if right.children.len() > 0 {
            self.children[j].children.append(&mut right.children);
        }
        proof {
            assert(self.entries@ =~= o.entries@.remove(j as int));
            assert(self.children@[j as int].entries@
                =~= o.children@[j as int].entries@ + seq![o.entries@[j as int]]
                    + o.children@[j as int + 1].entries@);
            assert(self.children@[j as int].children@
                =~= o.children@[j as int].children@ + o.children@[j as int + 1].children@);
            assert(self.children@ =~= o.children@.update(j as int, self.children@[j as int])
                .remove(j as int + 1));
            Self::lemma_merge(o, *self, j as int, x);
        }
    }

    /// Restore the minimum fill of child `i` after a removal below it: take
    /// from a sibling with entries to spare, preferring the right one, and
    /// merge with a sibling otherwise.  The in-order sequence never changes.
    fn fix_child(&mut self, i: usize)
        requires
            old(self).wf_core(i as int),
            old(self).children@.len() == old(self).entries@.len() + 1,
            old(self).entries@.len() >= 1,
            i < old(self).children@.len(),
            old(self).children@[i as int].entries@.len() >= 1,
        ensures
            final(self).wf_core(-1),
            final(self).entry_seq() == old(self).entry_seq(),
            final(self).height() == old(self).height(),
            final(self).entries@.len() >= old(self).entries@.len() - 1,
            final(self).entries@.len() <= old(self).entries@.len(),
    {
        if self.children[i].entries.len() >= MIN_KEYS {
            proof {
                let s = *self;
                assert forall|a: int| 0 <= a < s.children@.len() implies {
                    let c = #[trigger] s.children@[a];
                    &&& c.wf_core(-1)
                    &&& c.entries@.len() <= MAX_KEYS
                    &&& c.entries@.len() >= MIN_KEYS
                    &&& c.height() == s.children@[0].height()
                    &&& (a < s.entries@.len() ==> all_keys_lt(c.entry_seq(), s.entries@[a].0 as int))
                    &&& (a >= 1 ==> all_keys_gt(c.entry_seq(), s.entries@[a - 1].0 as int))
                } by {}
            }
            return;
        }
        let cnum = self.children.len();
        if i + 1 < cnum && self.children[i + 1].entries.len() > MIN_KEYS {
            self.borrow_from_right(i);
        } else if i >= 1 && self.children[i - 1].entries.len() > MIN_KEYS {
            self.borrow_from_left(i);
        } else if i + 1 < cnum {
            self.merge_children(i, Ghost(i as int));
        } else {
            self.merge_children(i - 1, Ghost(i as int));
        }
    }

    /// Delete and return the smallest entry of this subtree.
    pub(crate) fn remove_min(&mut self) -> (r: (i32, V))
        requires
            old(self).wf_core(-1),
            old(self).entries@.len() <= MAX_KEYS,
            old(self).entries@.len() >= 1,
        ensures
            final(self).wf_core(-1),
            final(self).entries@.len() <= MAX_KEYS,
            final(self).entries@.len() >= old(self).entries@.len() - 1,
            final(self).entries@.len() <= old(self).entries@.len(),
            final(self).height() == old(self).height(),
            old(self).entry_seq().len() >= 1,
            r == old(self).entry_seq()[0],
            final(self).entry_seq() == old(self).entry_seq().skip(1),
        decreases *old(self),
    {
        let ghost o = *self;
        proof {
            o.lemma_suffix_len(0);
        }
        if self.children.len() == 0 {
            let e = self.entries.remove(0);
            proof {
                let n = *self;
                o.lemma_leaf_seq(0);
                n.lemma_leaf_seq(0);
                assert(o.entry_seq() =~= o.entries@);
                assert(n.entry_seq() =~= n.entries@);
                assert(n.entries@ =~= o.entries@.skip(1));
                assert forall|p: int, q: int| 0 <= p < q < n.entries@.len() implies
                    (#[trigger] n.entries@[p]).0 < (#[trigger] n.entries@[q]).0 by {
                    assert(n.entries@[p] == o.entries@[p + 1]);
                    assert(n.entries@[q] == o.entries@[q + 1]);
                }
            }
            e
        } else {
            proof {
                assert(o.children@[0].wf_core(-1));
                o.children@[0].lemma_suffix_len(0);
            }
            let r = self.children[0].remove_min();
            proof {
                let n = *self;
                let oc = o.children@[0];
                let k = oc.entry_seq()[0].0;
                assert(n.children@ =~= o.children@.update(0, n.children@[0]));
                o.lemma_decompose(0);
                o.lemma_suffix_unfold(0);
                assert(o.seq_prefix(0) =~= Seq::<(i32, V)>::empty());
                assert(o.entry_seq()
                    =~= oc.entry_seq() + seq![o.entries@[0]] + o.seq_suffix(1));
                assert(o.entry_seq()[0] == oc.entry_seq()[0]);
                assert(all_keys_lt(oc.entry_seq(), o.entries@[0].0 as int));
                assert(o.entries@[0].0 > k);
                assert(oc.entry_seq().skip(1) =~= remove_sorted(oc.entry_seq(), k));
                Self::lemma_remove_descend(o, n, 0, k);
                assert(n.entry_seq() == remove_sorted(o.entry_seq(), k));
                assert(remove_sorted(o.entry_seq(), k) == o.entry_seq().skip(1)) by {
                    assert(o.entry_seq()[0].0 == k);
                }
            }
            self.fix_child(0);
            r
        }
    }

    /// Delete `key` from this subtree, returning the removed entry if the
    /// key was present.  Physical removal always happens at a leaf: an
    /// internal hit swaps in the in-order successor first.  On the way back
    /// up every underfull child is repaired, so only this node itself may
    /// end up one entry short.
    pub(crate) fn remove_in(&mut self, key: i32) -> (r: Option<(i32, V)>)
        requires
            old(self).wf_core(-1),
            old(self).entries@.len() <= MAX_KEYS,
            old(self).children@.len() != 0 ==> old(self).entries@.len() >= 1,
        ensures
            final(self).wf_core(-1),
            final(self).entries@.len() <= MAX_KEYS,
            final(self).height() == old(self).height(),
            final(self).entries@.len() >= old(self).entries@.len() - 1,
            final(self).entries@.len() <= old(self).entries@.len(),
            old(self).is_leaf() ==> final(self).is_leaf(),
            final(self).entry_seq() == remove_sorted(old(self).entry_seq(), key),
            match r {
                Some(e) => e.0 == key && has_key(old(self).entry_seq(), key)
                    && e.1 == lookup(old(self).entry_seq(), key),
                None => !has_key(old(self).entry_seq(), key),
            },
        decreases *old(self),
    {
        let ghost o = *self;
        let idx = self.find_slot(key);
        proof {
            self.lemma_search_frame(-1, idx as int, key);
            o.lemma_suffix_sorted(-1, 0);
            lemma_remove_sorted_props(o.entry_seq(), key);
        }
        if idx < self.entries.len() && self.entries[idx].0 == key {
            if self.children.len() == 0 {
                // physical removal at a leaf
                let e = self.entries.remove(idx);
                proof {
                    Self::lemma_remove_hit_leaf(o, *self, idx as int, key);
                }
                Some(e)
            } else {
                // successor substitution: the smallest entry of the subtree
                // right of the hit replaces the hit entry
                proof {
                    assert(o.children@[idx as int + 1].wf_core(-1));
                    o.children@[idx as int + 1].lemma_suffix_len(0);
                }
                let succ = self.children[idx + 1].remove_min();
                let e = self.entries.remove(idx);
                self.entries.insert(idx, succ);
                proof {
                    assert(self.entries@ =~= o.entries@.update(idx as int, succ));
                    assert(self.children@
                        =~= o.children@.update(idx as int + 1, self.children@[idx as int + 1]));
                    Self::lemma_remove_subst(o, *self, idx as int, key, succ);
                }
                self.fix_child(idx + 1);
                Some(e)
            }
        } else if self.children.len() == 0 {
            None
        } else {
            // the key can only live in the child at the scan slot
            proof {
                assert(o.children@[idx as int].wf_core(-1));
            }
            let r = self.children[idx].remove_in(key);
            proof {
                assert(self.children@
                    =~= o.children@.update(idx as int, self.children@[idx as int]));
                Self::lemma_remove_descend(o, *self, idx as int, key);
            }
            self.fix_child(idx);
            r
        }
    }
}

} // verus!

verus! {

impl<V> Node<V> {
    /// Borrow the value stored under `key` in this subtree mutably.  The
    /// caller may overwrite the value (never the key), and the subtree's
    /// sequence ends up upserted with whatever value the caller leaves
    /// behind.
    pub(crate) fn get_mut_in(&mut self, key: i32) -> (r: Option<&mut V>)
        requires
            old(self).wf(),
        ensures
            r is None ==> {
                &&& !has_key(old(self).entry_seq(), key)
                &&& final(self).wf()
                &&& final(self).entry_seq() == old(self).entry_seq()
                &&& final(self).height() == old(self).height()
                &&& final(self).entries@.len() == old(self).entries@.len()
                &&& final(self).is_leaf() == old(self).is_leaf()
            },
            r matches Some(v) ==> {
                &&& has_key(old(self).entry_seq(), key)
                &&& *v == lookup(old(self).entry_seq(), key)
                &&& final(self).wf()
                &&& final(self).entry_seq()
                    == insert_sorted(old(self).entry_seq(), key, *final(v))
                &&& final(self).height() == old(self).height()
                &&& final(self).entries@.len() == old(self).entries@.len()
                &&& final(self).is_leaf() == old(self).is_leaf()
            },
        decreases *old(self),
    {
        let ghost o = *self;
        let idx = self.find_slot(key);
        proof {
            self.lemma_search_frame(-1, idx as int, key);
        }
        if idx < self.entries.len() && self.entries[idx].0 == key {
            let e = &mut self.entries[idx];
            let v = &mut e.1;
            proof {
                assert(after_borrow(*self).entries@ =~= o.entries@.update(idx as int, (key, *final(v))));
                assert(after_borrow(*self).children@ == o.children@);
                Self::lemma_insert_hit(o, after_borrow(*self), idx as int, key, *final(v));
            }
            Some(v)
        } else if self.children.len() == 0 {
            None
        } else {
            proof {
                assert(o.children@[idx as int].wf_core(-1));
            }
            let r = self.children[idx].get_mut_in(key);
            match r {
                Some(v) => {
                    proof {
                        assert(after_borrow(*self).children@
                            =~= o.children@.update(idx as int, after_borrow(*self).children@[idx as int]));
                        Self::lemma_insert_descend(
                            o,
                            after_borrow(*self),
                            idx as int,
                            key,
                            *final(v),
                        );
                    }
                    Some(v)
                },
                None => {
                    proof {
                        assert(after_borrow(*self).children@
                            =~= o.children@.update(idx as int, after_borrow(*self).children@[idx as int]));
                        Self::lemma_child_model_same(o, after_borrow(*self), idx as int);
                    }
                    None
                },
            }
        }
    }
}

} // verus!

verus! {

impl<V> Node<V> {
    /// Replacing child `i` by a subtree with the same in-order sequence,
    /// height and entry count leaves the node's model and invariant intact.
    proof fn lemma_child_model_same(o: Node<V>, n: Node<V>, i: int)
        requires
            o.wf_core(-1),
            o.children@.len() == o.entries@.len() + 1,
            0 <= i < o.children@.len(),
            n.entries@ == o.entries@,
            n.children@ == o.children@.update(i, n.children@[i]),
            n.children@[i].wf_core(-1),
            n.children@[i].entries@.len() == o.children@[i].entries@.len(),
            n.children@[i].height() == o.children@[i].height(),
            n.children@[i].entry_seq() == o.children@[i].entry_seq(),
        ensures
            n.wf_core(-1),
            n.entry_seq() == o.entry_seq(),
            n.height() == o.height(),
    {
        let oc = o.children@[i];
        let nc = n.children@[i];
        o.lemma_decompose(i);
        o.lemma_suffix_unfold(i);
        n.lemma_decompose(i);
        n.lemma_suffix_unfold(i);
        lemma_prefix_align(n, o, i);
        if i < o.entries@.len() {
            lemma_suffix_align(n, o, i + 1, i + 1);
        }
        assert(n.childpart(i) == o.childpart(i));
        assert forall|a: int| 0 <= a < n.children@.len() implies {
            let c = #[trigger] n.children@[a];
            &&& c.wf_core(-1)
            &&& c.entries@.len() <= MAX_KEYS
            &&& c.entries@.len() >= MIN_KEYS
            &&& c.height() == n.children@[0].height()
            &&& (a < n.entries@.len() ==> all_keys_lt(c.entry_seq(), n.entries@[a].0 as int))
            &&& (a >= 1 ==> all_keys_gt(c.entry_seq(), n.entries@[a - 1].0 as int))
        } by {
            if a != i {
                assert(n.children@[a] == o.children@[a]);
            }
            if a == 0 && i != 0 {
                assert(n.children@[0] == o.children@[0]);
            }
            if a == i {
                assert(nc.height() == oc.height());
                assert(nc.entry_seq() == oc.entry_seq());
            }
            if i == 0 {
                assert(n.children@[0].height() == o.children@[0].height());
            }
        }
        if i == 0 {
            assert(n.children@[0].height() == o.children@[0].height());
        } else {
            assert(n.children@[0] == o.children@[0]);
        }
        assert(n.height() == o.height());
    }
}

} // verus!

verus! {

impl<V> Node<V> {
    /// Position of the first entry whose key is strictly greater than `key`.
    fn find_slot_gt(&self, key: i32) -> (idx: usize)
        ensures
            0 <= idx <= self.entries@.len(),
            forall|j: int| 0 <= j < idx ==> (#[trigger] self.entries@[j]).0 <= key,
            idx < self.entries@.len() ==> self.entries@[idx as int].0 > key,
    {
        let mut idx: usize = 0;
        while idx < self.entries.len()
            invariant
                0 <= idx <= self.entries@.len(),
                forall|j: int| 0 <= j < idx ==> (#[trigger] self.entries@[j]).0 <= key,
            decreases self.entries@.len() - idx,
        {
            if self.entries[idx].0 > key {
                return idx;
            }
            idx = idx + 1;
        }
        idx
    }

    /// Borrow the first (smallest-keyed) entry of this subtree, if any.
    pub(crate) fn first_entry(&self) -> (r: Option<&(i32, V)>)
        requires
            self.wf_core(-1),
        ensures
            self.entry_seq().len() == 0 ==> r is None,
            self.entry_seq().len() > 0 ==> (r matches Some(e) && *e == self.entry_seq()[0]),
        decreases *self,
    {
        if self.children.len() == 0 {
            proof {
                self.lemma_leaf_seq(0);
                assert(self.entry_seq() =~= self.entries@);
            }
            if self.entries.len() == 0 {
                None
            } else {
                Some(&self.entries[0])
            }
        } else {
            proof {
                assert(self.children@[0].wf_core(-1));
                self.children@[0].lemma_suffix_len(0);
                self.lemma_decompose(0);
                self.lemma_suffix_unfold(0);
                assert(self.seq_prefix(0) =~= Seq::<(i32, V)>::empty());
                if self.entries@.len() > 0 {
                    assert(self.entry_seq()
                        =~= self.children@[0].entry_seq() + seq![self.entries@[0]]
                            + self.seq_suffix(1));
                } else {
                    assert(self.entry_seq() =~= self.children@[0].entry_seq());
                }
                assert(self.children@[0].entry_seq().len() >= MIN_KEYS);
                assert(self.entry_seq()[0] == self.children@[0].entry_seq()[0]);
            }
            self.children[0].first_entry()
        }
    }

    /// Borrow the whole entry stored under `key` in this subtree, if any.
    pub(crate) fn get_entry(&self, key: i32) -> (r: Option<&(i32, V)>)
        requires
            self.wf_core(-1),
        ensures
            match r {
                Some(e) => has_key(self.entry_seq(), key) && e.0 == key
                    && e.1 == lookup(self.entry_seq(), key),
                None => !has_key(self.entry_seq(), key),
            },
        decreases *self,
    {
        let idx = self.find_slot(key);
        proof {
            self.lemma_search_frame(-1, idx as int, key);
        }
        if idx < self.entries.len() && self.entries[idx].0 == key {
            Some(&self.entries[idx])
        } else if self.children.len() == 0 {
            None
        } else {
            self.children[idx].get_entry(key)
        }
    }

    /// Borrow the entry with the smallest key strictly greater than `key`,
    /// or `None` if every key of the subtree is at or below `key`.
    pub(crate) fn succ_entry(&self, key: i32) -> (r: Option<&(i32, V)>)
        requires
            self.wf_core(-1),
        ensures
            match r {
                Some(e) => exists|p: int| {
                    &&& 0 <= p < self.entry_seq().len()
                    &&& #[trigger] self.entry_seq()[p] == *e
                    &&& e.0 > key
                    &&& forall|q: int| 0 <= q < p ==> (#[trigger] self.entry_seq()[q]).0 <= key
                },
                None => forall|q: int| 0 <= q < self.entry_seq().len()
                    ==> (#[trigger] self.entry_seq()[q]).0 <= key,
            },
        decreases *self,
    {
        let idx = self.find_slot_gt(key);
        proof {
            self.lemma_decompose(idx as int);
            self.lemma_suffix_unfold(idx as int);
            self.lemma_prefix_lt(-1, idx as int, key as int + 1);
        }
        if self.children.len() == 0 {
            proof {
                self.lemma_leaf_seq(0);
                assert(self.entry_seq() =~= self.entries@);
            }
            if idx < self.entries.len() {
                Some(&self.entries[idx])
            } else {
                None
            }
        } else {
            proof {
                assert(self.children@[idx as int].wf_core(-1));
            }
            let sub = self.children[idx].succ_entry(key);
            proof {
                let i = idx as int;
                let pre = self.seq_prefix(i);
                let cp = self.childpart(i);
                assert(self.children@[i].entry_seq() == cp);
                if i < self.entries@.len() {
                    assert(self.entry_seq()
                        == pre + (cp + seq![self.entries@[i]] + self.seq_suffix(i + 1)));
                } else {
                    assert(self.entry_seq() == pre + cp);
                }
                assert forall|q: int| 0 <= q < pre.len() implies
                    (#[trigger] self.entry_seq()[q]).0 <= key by {
                    assert(self.entry_seq()[q] == pre[q]);
                    assert(pre[q].0 < key + 1);
                }
            }
            match sub {
                Some(e) => {
                    proof {
                        let i = idx as int;
                        let pre = self.seq_prefix(i);
                        let cp = self.childpart(i);
                        let p = choose|p: int| {
                            &&& 0 <= p < cp.len()
                            &&& #[trigger] cp[p] == *e
                            &&& e.0 > key
                            &&& forall|q: int| 0 <= q < p ==> (#[trigger] cp[q]).0 <= key
                        };
                        assert(self.entry_seq()[pre.len() + p] == cp[p]);
                        assert forall|q: int| 0 <= q < pre.len() + p implies
                            (#[trigger] self.entry_seq()[q]).0 <= key by {
                            if q >= pre.len() {
                                assert(self.entry_seq()[q] == cp[q - pre.len()]);
                            }
                        }
                    }
                    Some(e)
                },
                None => {
                    if idx < self.entries.len() {
                        proof {
                            let i = idx as int;
                            let pre = self.seq_prefix(i);
                            let cp = self.childpart(i);
                            assert(self.entry_seq()[pre.len() + cp.len() as int] == self.entries@[i]);
                            assert forall|q: int| 0 <= q < pre.len() + cp.len() implies
                                (#[trigger] self.entry_seq()[q]).0 <= key by {
                                if q >= pre.len() {
                                    assert(self.entry_seq()[q] == cp[q - pre.len()]);
                                }
                            }
                        }
                        Some(&self.entries[idx])
                    } else {
                        proof {
                            let i = idx as int;
                            let pre = self.seq_prefix(i);
                            let cp = self.childpart(i);
                            assert forall|q: int| 0 <= q < self.entry_seq().len() implies
                                (#[trigger] self.entry_seq()[q]).0 <= key by {
                                if q >= pre.len() {
                                    assert(self.entry_seq()[q] == cp[q - pre.len()]);
                                }
                            }
                        }
                        None
                    }
                },
            }
        }
    }
}

} // verus!

verus! {

impl<V> Node<V> {
    /// Depth of the leftmost leaf below this node, or `None` on (physically
    /// impossible) counter overflow.  Runtime companion of `height`.
    fn depth_checked(&self) -> Option<u64>
        decreases *self,
    {
        if self.children.len() == 0 {
            Some(0)
        } else {
            match self.children[0].depth_checked() {
                None => None,
                Some(d) => {
                    if d < u64::MAX {
                        Some(d + 1)
                    } else {
                        None
                    }
                },
            }
        }
    }

    /// The invariant the runtime validator decides for one subtree: the
    /// structural invariant, the fill bounds (the root exempt from the
    /// minimum), and every key inside the open window `(lo, hi)`.
    pub(crate) open spec fn ok_node(self, lo: Option<i32>, hi: Option<i32>, is_root: bool) -> bool {
        &&& self.wf_core(-1)
        &&& self.entries@.len() <= MAX_KEYS
        &&& (!is_root ==> self.entries@.len() >= MIN_KEYS)
        &&& (lo matches Some(b) ==> all_keys_gt(self.entry_seq(), b as int))
        &&& (hi matches Some(b) ==> all_keys_lt(self.entry_seq(), b as int))
    }

    /// Lower end of the window child `q` must fit in.
    pub(crate) open spec fn wlo(self, q: int, lo: Option<i32>) -> Option<i32> {
        if q == 0 {
            lo
        } else {
            Some(self.entries@[q - 1].0)
        }
    }

    /// Upper end of the window child `q` must fit in.
    pub(crate) open spec fn whi(self, q: int, hi: Option<i32>) -> Option<i32> {
        if q < self.entries@.len() {
            Some(self.entries@[q].0)
        } else {
            hi
        }
    }

    /// Runtime re-check of the structural invariant on the concrete tree,
    /// proved to accept exactly the subtrees satisfying it: entries strictly
    /// ascending and inside the window, entry counts within the fan-out
    /// bounds, children interleaving the entries, and every child subtree of
    /// equal depth.
    #[verifier::loop_isolation(false)]
    #[verifier::rlimit(100)]
    #[verifier::spinoff_prover]
    pub(crate) fn check_node(&self, lo: Option<i32>, hi: Option<i32>, is_root: bool) -> (r: bool)
        ensures
            r == self.ok_node(lo, hi, is_root),
        decreases *self,
    {
        if self.entries.len() > MAX_KEYS {
            return false;
        }
        if !is_root && self.entries.len() < MIN_KEYS {
            return false;
        }
        let cnum = self.children.len();
        let enum_ = self.entries.len();
        let mut j: usize = 0;
        while j < enum_
            invariant
                j <= enum_,
                forall|q: int| 0 <= q < j && q + 1 < enum_ ==>
                    (#[trigger] self.entries@[q]).0 < self.entries@[q + 1].0,
                forall|q: int| 0 <= q < j ==> ((lo matches Some(b) ==>
                    (#[trigger] self.entries@[q]).0 > b) && (hi matches Some(b) ==>
                    self.entries@[q].0 < b)),
            decreases enum_ - j,
        {
            if j + 1 < enum_ && self.entries[j].0 >= self.entries[j + 1].0 {
                proof {
                    assert(!entries_sorted(self.entries@));
                }
                return false;
            }
            match lo {
                Some(b) => {
                    if self.entries[j].0 <= b {
                        proof {
                            if self.children@.len() == 0
                                || self.children@.len() == self.entries@.len() + 1 {
                                self.lemma_entry_at(j as int);
                            }
                        }
                        return false;
                    }
                },
                None => {},
            }
            match hi {
                Some(b) => {
                    if self.entries[j].0 >= b {
                        proof {
                            if self.children@.len() == 0
                                || self.children@.len() == self.entries@.len() + 1 {
                                self.lemma_entry_at(j as int);
                            }
                        }
                        return false;
                    }
                },
                None => {},
            }
            j = j + 1;
        }
        proof {
            Self::lemma_adjacent_sorted(self.entries@);
        }
        if cnum == 0 {
            proof {
                self.lemma_leaf_seq(0);
                assert(self.entry_seq() =~= self.entries@);
            }
            return true;
        }
        if cnum != enum_ + 1 {
            return false;
        }
        let mut j: usize = 0;
        while j < cnum
            invariant
                j <= cnum,
                forall|q: int| 0 <= q < j ==> (#[trigger] self.children@[q]).ok_node(
                    self.wlo(q, lo),
                    self.whi(q, hi),
                    false,
                ),
                forall|q: int| 0 <= q < j ==>
                    (#[trigger] self.children@[q]).height() == self.children@[0].height(),
            decreases cnum - j,
        {
            let lo2 = if j == 0 {
                lo
            } else {
                Some(self.entries[j - 1].0)
            };
            let hi2 = if j < enum_ {
                Some(self.entries[j].0)
            } else {
                hi
            };
            if !self.children[j].check_node(lo2, hi2, false) {
                proof {
                    let q = j as int;
                    let c = self.children@[q];
                    self.lemma_embed(q);
                    assert(!self.ok_node(lo, hi, is_root)) by {
                        if self.ok_node(lo, hi, is_root) {
                            assert(c.wf_core(-1) && c.entries@.len() <= MAX_KEYS
                                && c.entries@.len() >= MIN_KEYS);
                            assert(q >= 1 ==>
                                all_keys_gt(c.entry_seq(), self.entries@[q - 1].0 as int));
                            assert(q < self.entries@.len() ==>
                                all_keys_lt(c.entry_seq(), self.entries@[q].0 as int));
                            if q == 0 {
                                match lo {
                                    Some(b) => {
                                        assert(all_keys_gt(self.entry_seq(), b as int));
                                        assert forall|p: int| 0 <= p < c.entry_seq().len()
                                            implies (#[trigger] c.entry_seq()[p]).0 > b by {
                                            assert(c.entry_seq()[p] == self.entry_seq()[
                                                self.seq_prefix(0).len() + p]);
                                        }
                                    },
                                    None => {},
                                }
                            }
                            if q == self.entries@.len() {
                                match hi {
                                    Some(b) => {
                                        assert(all_keys_lt(self.entry_seq(), b as int));
                                        assert forall|p: int| 0 <= p < c.entry_seq().len()
                                            implies (#[trigger] c.entry_seq()[p]).0 < b by {
                                            assert(c.entry_seq()[p] == self.entry_seq()[
                                                self.seq_prefix(q).len() + p]);
                                        }
                                    },
                                    None => {},
                                }
                            }
                            assert(c.ok_node(self.wlo(q, lo), self.whi(q, hi), false));
                        }
                    }
                }
                return false;
            }
            if j > 0 && !self.children[0].same_depth(&self.children[j]) {
                return false;
            }
            j = j + 1;
        }
        proof {
            assert forall|i: int| 0 <= i < self.children@.len() implies {
                let c = #[trigger] self.children@[i];
                &&& c.wf_core(-1)
                &&& c.entries@.len() <= MAX_KEYS
                &&& c.entries@.len() >= MIN_KEYS
                &&& c.height() == self.children@[0].height()
                &&& (i < self.entries@.len() ==> all_keys_lt(c.entry_seq(), self.entries@[i].0 as int))
                &&& (i >= 1 ==> all_keys_gt(c.entry_seq(), self.entries@[i - 1].0 as int))
            } by {
                assert(self.children@[i].ok_node(self.wlo(i, lo), self.whi(i, hi), false));
            }
            assert(self.wf_core(-1));
            match lo {
                Some(b) => {
                    assert forall|q: int| 0 <= q < self.children@.len() implies
                        all_keys_gt(#[trigger] self.childpart(q), b as int) by {
                        let c = self.children@[q];
                        assert(c.ok_node(self.wlo(q, lo), self.whi(q, hi), false));
                        if q == 0 {
                            assert(all_keys_gt(c.entry_seq(), b as int));
                        } else {
                            assert(all_keys_gt(c.entry_seq(), self.entries@[q - 1].0 as int));
                            assert(self.entries@[q - 1].0 > b);
                            assert forall|p: int| 0 <= p < c.entry_seq().len() implies
                                (#[trigger] c.entry_seq()[p]).0 > b as int by {
                                assert(c.entry_seq()[p].0 > self.entries@[q - 1].0);
                            }
                        }
                    }
                    self.lemma_assemble_gt(0, b as int);
                },
                None => {},
            }
            match hi {
                Some(b) => {
                    assert forall|q: int| 0 <= q < self.children@.len() implies
                        all_keys_lt(#[trigger] self.childpart(q), b as int) by {
                        let c = self.children@[q];
                        assert(c.ok_node(self.wlo(q, lo), self.whi(q, hi), false));
                        if q == self.entries@.len() {
                            assert(all_keys_lt(c.entry_seq(), b as int));
                        } else {
                            assert(all_keys_lt(c.entry_seq(), self.entries@[q].0 as int));
                            assert(self.entries@[q].0 < b);
                            assert forall|p: int| 0 <= p < c.entry_seq().len() implies
                                (#[trigger] c.entry_seq()[p]).0 < b as int by {
                                assert(c.entry_seq()[p].0 < self.entries@[q].0);
                            }
                        }
                    }
                    self.lemma_assemble_lt(0, b as int);
                },
                None => {},
            }
        }
        true
    }
}

} // verus!

verus! {

impl<V> Node<V> {
    /// Pairwise-adjacent ascending entries are sorted altogether.
    proof fn lemma_adjacent_sorted(s: Seq<(i32, V)>)
        requires
            forall|j: int| 0 <= j < s.len() - 1 ==> (#[trigger] s[j]).0 < s[j + 1].0,
        ensures
            entries_sorted(s),
    {
        assert forall|i: int, j: int| 0 <= i < j < s.len() implies
            (#[trigger] s[i]).0 < (#[trigger] s[j]).0 by {
            Self::lemma_chain_lt(s, i, j);
        }
    }

    /// Transitivity chain for `lemma_adjacent_sorted`.
    proof fn lemma_chain_lt(s: Seq<(i32, V)>, i: int, j: int)
        requires
            forall|q: int| 0 <= q < s.len() - 1 ==> (#[trigger] s[q]).0 < s[q + 1].0,
            0 <= i < j < s.len(),
        ensures
            s[i].0 < s[j].0,
        decreases j - i,
    {
        if j > i + 1 {
            Self::lemma_chain_lt(s, i, j - 1);
            assert(s[j - 1].0 < s[j].0);
        }
    }

    /// If every entry and every child subtree from slot `i` onward lies
    /// above the bound, so does the whole in-order suffix.
    proof fn lemma_assemble_gt(self, i: int, b: int)
        requires
            0 <= i <= self.entries@.len(),
            self.children@.len() == 0 || self.children@.len() == self.entries@.len() + 1,
            forall|j: int| i <= j < self.entries@.len() ==> (#[trigger] self.entries@[j]).0 > b,
            forall|j: int| i <= j < self.children@.len() ==>
                all_keys_gt(#[trigger] self.childpart(j), b),
        ensures
            all_keys_gt(self.seq_suffix(i), b),
        decreases self.entries@.len() - i,
    {
        self.lemma_suffix_unfold(i);
        let cp = self.childpart(i);
        if i == self.entries@.len() {
            assert(all_keys_gt(cp, b));
        } else {
            self.lemma_assemble_gt(i + 1, b);
            let s = self.seq_suffix(i);
            let rest = self.seq_suffix(i + 1);
            assert(all_keys_gt(cp, b));
            assert forall|q: int| 0 <= q < s.len() implies (#[trigger] s[q]).0 > b by {
                if q < cp.len() {
                    assert(s[q] == cp[q]);
                } else if q == cp.len() {
                    assert(s[q] == self.entries@[i]);
                } else {
                    assert(s[q] == rest[q - cp.len() - 1]);
                }
            }
        }
    }

    /// If every entry and every child subtree from slot `i` onward lies
    /// below the bound, so does the whole in-order suffix.
    proof fn lemma_assemble_lt(self, i: int, b: int)
        requires
            0 <= i <= self.entries@.len(),
            self.children@.len() == 0 || self.children@.len() == self.entries@.len() + 1,
            forall|j: int| i <= j < self.entries@.len() ==> (#[trigger] self.entries@[j]).0 < b,
            forall|j: int| i <= j < self.children@.len() ==>
                all_keys_lt(#[trigger] self.childpart(j), b),
        ensures
            all_keys_lt(self.seq_suffix(i), b),
        decreases self.entries@.len() - i,
    {
        self.lemma_suffix_unfold(i);
        let cp = self.childpart(i);
        if i == self.entries@.len() {
            assert(all_keys_lt(cp, b));
        } else {
            self.lemma_assemble_lt(i + 1, b);
            let s = self.seq_suffix(i);
            let rest = self.seq_suffix(i + 1);
            assert(all_keys_lt(cp, b));
            assert forall|q: int| 0 <= q < s.len() implies (#[trigger] s[q]).0 < b by {
                if q < cp.len() {
                    assert(s[q] == cp[q]);
                } else if q == cp.len() {
                    assert(s[q] == self.entries@[i]);
                } else {
                    assert(s[q] == rest[q - cp.len() - 1]);
                }
            }
        }
    }

    /// A child subtree's keys sit contiguously inside the node's in-order
    /// sequence, right after the prefix before their slot.
    proof fn lemma_embed(self, j: int)
        requires
            0 <= j < self.children@.len(),
            self.children@.len() == self.entries@.len() + 1,
        ensures
            forall|p: int| 0 <= p < self.childpart(j).len() ==>
                #[trigger] self.childpart(j)[p]
                    == self.entry_seq()[self.seq_prefix(j).len() + p],
            self.seq_prefix(j).len() + self.childpart(j).len() <= self.entry_seq().len(),
    {
        self.lemma_decompose(j);
        self.lemma_suffix_unfold(j);
    }

    /// Whether this subtree and `other` reach their leaves at the same
    /// depth, decided by walking the leftmost spines together.
    fn same_depth(&self, other: &Node<V>) -> (r: bool)
        ensures
            r == (self.height() == other.height()),
        decreases *self,
    {
        if self.children.len() == 0 {
            other.children.len() == 0
        } else if other.children.len() == 0 {
            false
        } else {
            self.children[0].same_depth(&other.children[0])
        }
    }
}

} // verus!
