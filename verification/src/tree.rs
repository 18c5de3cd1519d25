//! The tree type and its public operations.
//!
//! A `Btree<V>` maps `i32` keys to values of type `V`.  Its abstract view
//! (`self@`) is a `Map<i32, V>`, and `self.as_seq()` is the ascending
//! in-order sequence of its entries; every operation's contract is stated
//! against those two models.

use vstd::prelude::*;
use crate::node::{Node, MIN_KEYS};
use crate::sorted::{entries_sorted, has_key, lookup, insert_sorted, remove_sorted, seq_to_map,
    lemma_seq_to_map_props, lemma_insert_sorted_props};

verus! {

/// An in-memory ordered key-value map backed by a balanced multiway search
/// tree of order 5.  The root may hold fewer entries than inner nodes; every
/// other node carries between 2 and 4 entries, and all leaves sit at the
/// same depth.
pub struct Btree<V> {
    pub(crate) root: Node<V>,
}

impl<V> View for Btree<V> {
    type V = Map<i32, V>;

    /// The abstract contents: the finite map of all stored entries.
    closed spec fn view(&self) -> Map<i32, V> {
        seq_to_map(self.root.entry_seq())
    }
}

impl<V> Btree<V> {
    /// The entries of the tree in ascending key order.
    pub closed spec fn as_seq(self) -> Seq<(i32, V)> {
        self.root.entry_seq()
    }

    /// The number of edges from the root down to any leaf.
    pub closed spec fn height_spec(self) -> nat {
        self.root.height()
    }

    /// Structural invariant: the root subtree is well formed and the root is
    /// an empty leaf rather than a childless internal node.
    pub closed spec fn wf(self) -> bool {
        self.root.wf() && (self.root.is_leaf() || self.root.entries@.len() >= 1)
    }

    /// The two models agree: the in-order sequence is strictly sorted by key
    /// and carries exactly the entries of the abstract map.
    pub proof fn lemma_view(self)
        requires
            self.wf(),
        ensures
            entries_sorted(self.as_seq()),
            seq_to_map(self.as_seq()) == self@,
            self@.dom().finite(),
            self@.dom().len() == self.as_seq().len(),
            forall|k: i32| #[trigger] self@.contains_key(k) <==> has_key(self.as_seq(), k),
            forall|k: i32| has_key(self.as_seq(), k) ==>
                #[trigger] self@[k] == lookup(self.as_seq(), k),
    {
        self.root.lemma_suffix_sorted(-1, 0);
        lemma_seq_to_map_props(self.as_seq());
    }

    /// Bridge for the sibling modules: the root subtree carries the tree's
    /// invariant and model.
    pub(crate) proof fn lemma_root(self)
        requires
            self.wf(),
        ensures
            self.root.wf_core(-1),
            self.root.wf(),
            self.root.entry_seq() == self.as_seq(),
    {
    }

    /// Bridge for the sibling modules: the root's height is the tree's, and
    /// an internal root holds at least one entry.
    pub(crate) proof fn lemma_root_shape(self)
        requires
            self.wf(),
        ensures
            self.root.height() == self.height_spec(),
            self.root.is_leaf() || self.root.entries@.len() >= 1,
    {
    }

    /// The empty map: a single empty leaf as root.
    pub fn new() -> (t: Self)
        ensures
            t.wf(),
            t@ == Map::<i32, V>::empty(),
            t.as_seq() == Seq::<(i32, V)>::empty(),
            t.height_spec() == 0,
    {
        let t = Btree { root: Node { entries: Vec::new(), children: Vec::new() } };
        proof {
            assert(t.root.entry_seq() =~= Seq::<(i32, V)>::empty());
            assert(seq_to_map(t.root.entry_seq()) =~= Map::<i32, V>::empty());
        }
        t
    }

    /// Borrow the value stored under `key`, or `None` if the key is absent.
    /// No side effects.
    pub fn get(&self, key: &i32) -> (r: Option<&V>)
        requires
            self.wf(),
        ensures
            match r {
                Some(v) => self@.contains_key(*key) && *v == self@[*key],
                None => !self@.contains_key(*key),
            },
    {
        proof {
            self.lemma_view();
        }
        self.root.get_in(*key)
    }

    /// Store `value` under `key`.  Returns the value previously stored there
    /// (which this call replaced), or `None` if the key is new, in which case
    /// the map grows by exactly one entry.
    pub fn insert(&mut self, key: i32, value: V) -> (prev: Option<V>)
        requires
            old(self).wf(),
        ensures
            final(self).wf(),
            final(self)@ == old(self)@.insert(key, value),
            final(self).as_seq() == insert_sorted(old(self).as_seq(), key, value),
            match prev {
                Some(v) => old(self)@.contains_key(key) && v == old(self)@[key],
                None => !old(self)@.contains_key(key),
            },
    {
        let ghost o = *self;
        proof {
            o.lemma_view();
            lemma_insert_sorted_props(o.as_seq(), key, value);
        }
        let (prev, split) = self.root.insert_in(key, value);
        if let Some((med, right)) = split {
            // the old root overflowed: a fresh root adopts both halves
            let mut left = Node { entries: Vec::new(), children: Vec::new() };
            core::mem::swap(&mut left, &mut self.root);
            self.root.entries.push(med);
            self.root.children.push(Box::new(left));
            self.root.children.push(right);
            proof {
                let nr = self.root;
                let l = nr.children@[0];
                let rt = nr.children@[1];
                assert(nr.entries@ =~= seq![med]);
                assert(nr.children@.len() == 2);
                nr.lemma_suffix_unfold(0);
                nr.lemma_suffix_unfold(1);
                assert(nr.childpart(0) == l.entry_seq());
                assert(nr.childpart(1) == rt.entry_seq());
                assert(nr.seq_suffix(1) == rt.entry_seq());
                assert(nr.entry_seq() == l.entry_seq() + seq![med] + rt.entry_seq());
                assert forall|i: int| 0 <= i < nr.children@.len() implies {
                    let c = #[trigger] nr.children@[i];
                    &&& c.wf_core(-1)
                    &&& c.entries@.len() <= crate::node::MAX_KEYS
                    &&& c.entries@.len() >= MIN_KEYS
                    &&& c.height() == nr.children@[0].height()
                    &&& (i < nr.entries@.len() ==>
                        crate::sorted::all_keys_lt(c.entry_seq(), nr.entries@[i].0 as int))
                    &&& (i >= 1 ==>
                        crate::sorted::all_keys_gt(c.entry_seq(), nr.entries@[i - 1].0 as int))
                } by {
                    if i == 0 {
                        assert(nr.children@[0] == l);
                    } else {
                        assert(nr.children@[1] == rt);
                    }
                }
            }
        }
        prev
    }

    /// Borrow the value stored under `key` mutably, enabling an in-place
    /// value update without changing the key, or `None` (and no change) if
    /// the key is absent.  Whatever value the caller leaves behind, the map
    /// ends up with exactly that value under `key`.
    pub fn get_mut(&mut self, key: &i32) -> (r: Option<&mut V>)
        requires
            old(self).wf(),
        ensures
            r is None ==> {
                &&& !old(self)@.contains_key(*key)
                &&& final(self).wf()
                &&& final(self)@ == old(self)@
                &&& final(self).as_seq() == old(self).as_seq()
            },
            r matches Some(v) ==> {
                &&& old(self)@.contains_key(*key)
                &&& *v == old(self)@[*key]
                &&& final(self).wf()
                &&& final(self)@ == old(self)@.insert(*key, *final(v))
                &&& final(self).as_seq()
                    == insert_sorted(old(self).as_seq(), *key, *final(v))
            },
    {
        let ghost o = *self;
        proof {
            o.lemma_view();
        }
        let r = self.root.get_mut_in(*key);
        match r {
            Some(v) => {
                proof {
                    lemma_insert_sorted_props(o.as_seq(), *key, *final(v));
                }
                Some(v)
            },
            None => None,
        }
    }

    /// Remove the entry stored under `key`, returning the `(key, value)`
    /// pair that was removed, or `None` (and no change) if the key is
    /// absent.  If the rebalancing leaves the root without entries, the
    /// root's sole remaining child takes its place and the tree shrinks by
    /// one level.
    pub fn remove(&mut self, key: &i32) -> (r: Option<(i32, V)>)
        requires
            old(self).wf(),
        ensures
            final(self).wf(),
            final(self)@ == old(self)@.remove(*key),
            final(self).as_seq() == remove_sorted(old(self).as_seq(), *key),
            match r {
                Some(e) => e.0 == *key && old(self)@.contains_key(*key)
                    && e.1 == old(self)@[*key],
                None => !old(self)@.contains_key(*key),
            },
    {
        let ghost o = *self;
        proof {
            o.lemma_view();
            crate::sorted::lemma_remove_sorted_props(o.as_seq(), *key);
        }
        let r = self.root.remove_in(*key);
        if self.root.entries.len() == 0 && self.root.children.len() > 0 {
            // root collapse: the last two children merged into one, which
            // becomes the new root
            let ghost mid = self.root;
            let b = self.root.children.pop().unwrap();
            self.root = *b;
            proof {
                assert(mid.children@.len() == mid.entries@.len() + 1);
                mid.lemma_suffix_unfold(0);
                assert(mid.entry_seq() == mid.childpart(0));
                assert(mid.childpart(0) == mid.children@[0].entry_seq());
                assert(mid.children@[0].wf_core(-1));
                assert(self.root == mid.children@[0]);
            }
        }
        r
    }

    /// Whether the map holds no entries.
    pub fn is_empty(&self) -> (r: bool)
        requires
            self.wf(),
        ensures
            r == (self.as_seq().len() == 0),
            r == (self@.dom().len() == 0),
    {
        proof {
            self.lemma_view();
            if self.root.children@.len() > 0 {
                self.root.lemma_suffix_len(0);
            } else {
                self.root.lemma_leaf_seq(0);
                assert(self.root.entry_seq() =~= self.root.entries@);
            }
        }
        self.root.entries.len() == 0
    }

    /// The keys held by the root node itself, in ascending order.
    pub closed spec fn root_key_seq(self) -> Seq<i32> {
        Seq::new(self.root.entries@.len(), |i: int| self.root.entries@[i].0)
    }

    /// How many children the root node has (zero when it is a leaf).
    pub closed spec fn root_child_count(self) -> nat {
        self.root.children@.len()
    }

    /// The keys held by child `i` of the root, in ascending order.
    pub closed spec fn child_key_seq(self, i: int) -> Seq<i32> {
        if 0 <= i < self.root.children@.len() {
            Seq::new(
                self.root.children@[i].entries@.len(),
                |j: int| self.root.children@[i].entries@[j].0,
            )
        } else {
            Seq::empty()
        }
    }

    /// Structural probe: the keys of the root node, in ascending order.
    /// Every one of them is a key of the map.
    pub fn root_keys(&self) -> (r: Vec<i32>)
        requires
            self.wf(),
        ensures
            r@ == self.root_key_seq(),
            forall|j: int| 0 <= j < r@.len() ==> self@.contains_key(#[trigger] r@[j]),
            forall|j: int, l: int| 0 <= j < l < r@.len() ==> r@[j] < r@[l],
    {
        proof {
            self.lemma_view();
        }
        let mut r: Vec<i32> = Vec::new();
        let mut j: usize = 0;
        while j < self.root.entries.len()
            invariant
                self.wf(),
                0 <= j <= self.root.entries@.len(),
                r@.len() == j,
                forall|q: int| 0 <= q < j ==> #[trigger] r@[q] == self.root.entries@[q].0,
            decreases self.root.entries@.len() - j,
        {
            r.push(self.root.entries[j].0);
            j = j + 1;
        }
        proof {
            assert(r@ =~= self.root_key_seq());
            assert forall|q: int| 0 <= q < r@.len() implies
                self@.contains_key(#[trigger] r@[q]) by {
                self.root.lemma_entry_at(q);
                let p = choose|p: int| 0 <= p < self.root.entry_seq().len()
                    && #[trigger] self.root.entry_seq()[p] == self.root.entries@[q];
                crate::sorted::lemma_lookup_index(self.as_seq(), p);
            }
        }
        r
    }

    /// Structural probe: the keys of child `i` of the root, in ascending
    /// order, or `None` if the root is a leaf or has no child `i`.  Every
    /// one of them is a key of the map, below the root key separating child
    /// `i` from its right neighbours and above the one separating it from
    /// its left neighbours.
    pub fn child_keys(&self, i: usize) -> (r: Option<Vec<i32>>)
        requires
            self.wf(),
        ensures
            (r is Some) == (i < self.root_child_count()),
            r matches Some(ks) ==> {
                &&& ks@ == self.child_key_seq(i as int)
                &&& forall|j: int| 0 <= j < ks@.len() ==> self@.contains_key(#[trigger] ks@[j])
                &&& forall|j: int, l: int| 0 <= j < l < ks@.len() ==> ks@[j] < ks@[l]
                &&& (i < self.root_key_seq().len() ==> forall|j: int| 0 <= j < ks@.len()
                    ==> #[trigger] ks@[j] < self.root_key_seq()[i as int])
                &&& (i >= 1 ==> forall|j: int| 0 <= j < ks@.len()
                    ==> #[trigger] ks@[j] > self.root_key_seq()[i as int - 1])
            },
    {
        proof {
            self.lemma_view();
        }
        if i >= self.root.children.len() {
            return None;
        }
        let c = &self.root.children[i];
        let mut ks: Vec<i32> = Vec::new();
        let mut j: usize = 0;
        while j < c.entries.len()
            invariant
                0 <= j <= c.entries@.len(),
                ks@.len() == j,
                forall|q: int| 0 <= q < j ==> #[trigger] ks@[q] == c.entries@[q].0,
            decreases c.entries@.len() - j,
        {
            ks.push(c.entries[j].0);
            j = j + 1;
        }
        proof {
            let ii = i as int;
            let cn = self.root.children@[ii];
            assert(ks@ =~= self.child_key_seq(ii));
            assert(cn.wf_core(-1));
            assert forall|q: int| 0 <= q < ks@.len() implies {
                &&& self@.contains_key(#[trigger] ks@[q])
                &&& (ii < self.root.entries@.len() ==> ks@[q] < self.root.entries@[ii].0)
                &&& (ii >= 1 ==> ks@[q] > self.root.entries@[ii - 1].0)
            } by {
                cn.lemma_entry_at(q);
                let p = choose|p: int| 0 <= p < cn.entry_seq().len()
                    && #[trigger] cn.entry_seq()[p] == cn.entries@[q];
                self.root.lemma_decompose(ii);
                self.root.lemma_suffix_unfold(ii);
                assert(self.root.childpart(ii) == cn.entry_seq());
                assert(self.as_seq()[self.root.seq_prefix(ii).len() + p] == cn.entry_seq()[p]);
                crate::sorted::lemma_lookup_index(
                    self.as_seq(),
                    self.root.seq_prefix(ii).len() + p,
                );
            }
        }
        Some(ks)
    }
}

} // verus!

verus! {

impl<V> Btree<V> {
    /// Runtime validator, proved to decide the structural invariant: it
    /// accepts exactly the trees with strictly sorted entries, entry counts
    /// within the fan-out bounds with the root exempt from the minimum,
    /// children interleaving the entries, key windows nested between the
    /// separators, uniform leaf depth, and no childless-internal root.
    /// Meant to be run after every mutation by a test suite.
    pub fn check_invariants(&self) -> (r: bool)
        ensures
            r == self.wf(),
    {
        if self.root.children.len() > 0 && self.root.entries.len() == 0 {
            return false;
        }
        self.root.check_node(None, None, true)
    }
}

} // verus!
