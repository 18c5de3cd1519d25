//! Lazy ascending iteration.
//!
//! Both cursors walk the tree by key: each step looks up the smallest key
//! strictly above the current one, so a cursor is never invalidated by its
//! own progress, is not restartable, and touches only a root-to-leaf path
//! per step.  `Iter` borrows the tree for its whole life; `IterMut` holds
//! only the cursor state and borrows the tree afresh at every step, handing
//! out the value mutably.

use vstd::prelude::*;
use crate::tree::Btree;
use crate::sorted::{has_key, insert_sorted, tail_from, lemma_tail_from_at, lemma_lookup_index,
    lemma_has_key_exists, lemma_insert_sorted_prepend};

verus! {

/// A read-only cursor over the tree's entries in ascending key order.
pub struct Iter<'a, V> {
    tree: &'a Btree<V>,
    cur: Option<i32>,
}

impl<'a, V> Iter<'a, V> {
    /// The entries this cursor has yet to produce, in ascending key order.
    pub closed spec fn remaining(self) -> Seq<(i32, V)> {
        match self.cur {
            None => Seq::empty(),
            Some(k) => tail_from(self.tree.as_seq(), k),
        }
    }

    /// The cursor either is exhausted or stands on an existing key.
    pub closed spec fn wf(self) -> bool {
        &&& self.tree.wf()
        &&& match self.cur {
            None => true,
            Some(k) => has_key(self.tree.as_seq(), k),
        }
    }

    /// Produce the entry the cursor stands on and advance to its in-order
    /// successor; `None` once the entries are exhausted.
    pub fn next(&mut self) -> (r: Option<&'a (i32, V)>)
        requires
            old(self).wf(),
        ensures
            final(self).wf(),
            old(self).remaining().len() == 0 ==> r is None
                && final(self).remaining() == Seq::<(i32, V)>::empty(),
            old(self).remaining().len() > 0 ==> (r matches Some(e)
                && *e == old(self).remaining()[0]
                && final(self).remaining() == old(self).remaining().skip(1)),
    {
        let t = self.tree;
        proof {
            t.lemma_view();
            t.lemma_root();
        }
        match self.cur {
            None => None,
            Some(k) => {
                let ghost s = t.as_seq();
                let ghost p = choose|p: int| 0 <= p < s.len() && (#[trigger] s[p]).0 == k;
                proof {
                    lemma_has_key_exists(s, k);
                    assert(s[p].0 == k);
                    assert forall|q: int| 0 <= q < p implies (#[trigger] s[q]).0 < k by {
                        assert(s[q].0 < s[p].0);
                    }
                    lemma_tail_from_at(s, k, p);
                    lemma_lookup_index(s, p);
                }
                let e = t.root.get_entry(k);
                let nxt = t.root.succ_entry(k);
                match nxt {
                    Some(e2) => {
                        proof {
                            let p2 = choose|p2: int| {
                                &&& 0 <= p2 < s.len()
                                &&& #[trigger] s[p2] == *e2
                                &&& e2.0 > k
                                &&& forall|q: int| 0 <= q < p2 ==> (#[trigger] s[q]).0 <= k
                            };
                            assert(p2 == p + 1) by {
                                assert(s[p2].0 > s[p].0);
                                if p2 > p + 1 {
                                    assert(s[p + 1].0 <= k);
                                    assert(s[p].0 < s[p + 1].0);
                                }
                            }
                            assert forall|q: int| 0 <= q < p + 1 implies
                                (#[trigger] s[q]).0 < e2.0 by {
                                if q < p {
                                    assert(s[q].0 < s[p].0);
                                }
                            }
                            lemma_tail_from_at(s, e2.0, p + 1);
                            assert(s.skip(p).skip(1) =~= s.skip(p + 1));
                            lemma_lookup_index(s, p + 1);
                        }
                        self.cur = Some(e2.0);
                    },
                    None => {
                        proof {
                            if p + 1 < s.len() {
                                assert(s[p + 1].0 <= k);
                                assert(s[p].0 < s[p + 1].0);
                            }
                            assert(s.skip(p).skip(1) =~= s.skip(p + 1));
                            assert(s.skip(p + 1) =~= Seq::<(i32, V)>::empty());
                        }
                        self.cur = None;
                    },
                }
                match e {
                    Some(er) => {
                        proof {
                            assert(s.skip(p)[0] == s[p]);
                            assert(er.0 == s[p].0 && er.1 == s[p].1);
                        }
                        Some(er)
                    },
                    None => {
                        proof {
                            assert(false);
                        }
                        None
                    },
                }
            },
        }
    }
}

/// A mutable cursor over the tree's entries in ascending key order.  It
/// holds no borrow itself: each step takes the tree mutably, yields the
/// current key together with a mutable borrow of its value, and advances.
pub struct IterMut {
    cur: Option<i32>,
}

impl IterMut {
    /// The entries this cursor has yet to produce out of `t`.
    pub closed spec fn remaining_in<V>(self, t: Btree<V>) -> Seq<(i32, V)> {
        match self.cur {
            None => Seq::empty(),
            Some(k) => tail_from(t.as_seq(), k),
        }
    }

    /// The cursor either is exhausted or stands on an existing key of `t`.
    pub closed spec fn valid_for<V>(self, t: Btree<V>) -> bool {
        &&& t.wf()
        &&& match self.cur {
            None => true,
            Some(k) => has_key(t.as_seq(), k),
        }
    }

    /// Produce the key the cursor stands on together with a mutable borrow
    /// of its value, and advance; `None` once the entries are exhausted.
    /// The tree ends up with whatever value the caller leaves behind, under
    /// an unchanged key set.
    pub fn next<'t, V>(&mut self, tree: &'t mut Btree<V>) -> (r: Option<(i32, &'t mut V)>)
        requires
            old(self).valid_for(*old(tree)),
        ensures
            r is None ==> {
                &&& old(self).remaining_in(*old(tree)).len() == 0
                &&& final(tree).wf()
                &&& final(tree)@ == old(tree)@
                &&& final(tree).as_seq() == old(tree).as_seq()
                &&& final(self).valid_for(*final(tree))
                &&& final(self).remaining_in(*final(tree)) == Seq::<(i32, V)>::empty()
            },
            r matches Some((k, v)) ==> {
                &&& old(self).remaining_in(*old(tree)).len() > 0
                &&& k == old(self).remaining_in(*old(tree))[0].0
                &&& *v == old(self).remaining_in(*old(tree))[0].1
                &&& final(tree).wf()
                &&& final(tree).as_seq() == insert_sorted(old(tree).as_seq(), k, *final(v))
                &&& final(tree)@ == old(tree)@.insert(k, *final(v))
                &&& final(self).valid_for(*final(tree))
                &&& final(self).remaining_in(*final(tree))
                    == old(self).remaining_in(*old(tree)).skip(1)
            },
    {
        proof {
            old(tree).lemma_view();
            old(tree).lemma_root();
        }
        match self.cur {
            None => None,
            Some(k) => {
                let ghost s = tree.as_seq();
                let ghost p = choose|p: int| 0 <= p < s.len() && (#[trigger] s[p]).0 == k;
                proof {
                    lemma_has_key_exists(s, k);
                    assert(s[p].0 == k);
                    assert forall|q: int| 0 <= q < p implies (#[trigger] s[q]).0 < k by {
                        assert(s[q].0 < s[p].0);
                    }
                    lemma_tail_from_at(s, k, p);
                    lemma_lookup_index(s, p);
                }
                let nxt: Option<i32> = match tree.root.succ_entry(k) {
                    Some(e2) => {
                        proof {
                            let p2 = choose|p2: int| {
                                &&& 0 <= p2 < s.len()
                                &&& #[trigger] s[p2] == *e2
                                &&& e2.0 > k
                                &&& forall|q: int| 0 <= q < p2 ==> (#[trigger] s[q]).0 <= k
                            };
                            assert(p2 == p + 1) by {
                                assert(s[p2].0 > s[p].0);
                                if p2 > p + 1 {
                                    assert(s[p + 1].0 <= k);
                                    assert(s[p].0 < s[p + 1].0);
                                }
                            }
                            assert(p + 1 < s.len() && s[p + 1].0 == e2.0 && e2.0 > k);
                        }
                        Some(e2.0)
                    },
                    None => {
                        proof {
                            if p + 1 < s.len() {
                                assert(s[p + 1].0 <= k);
                                assert(s[p].0 < s[p + 1].0);
                            }
                            assert(p + 1 >= s.len());
                        }
                        None
                    },
                };
                let ghost nk = nxt;
                self.cur = nxt;
                let vo = tree.get_mut(&k);
                match vo {
                    Some(v) => {
                        proof {
                            let ns = after_borrow(*tree).as_seq();
                            // the upsert only rewrites the value at the
                            // cursor's position
                            let a = s.subrange(0, p);
                            let b = s.skip(p);
                            assert(s =~= a + b);
                            assert forall|q: int| 0 <= q < a.len() implies
                                (#[trigger] a[q]).0 < k by {
                                assert(a[q] == s[q]);
                                assert(s[q].0 < s[p].0);
                            }
                            lemma_insert_sorted_prepend(a, b, k, *final(v));
                            assert(b[0] == s[p]);
                            assert(insert_sorted(b, k, *final(v))
                                == seq![(k, *final(v))] + b.skip(1));
                            assert(ns =~= a + (seq![(k, *final(v))] + b.skip(1)));
                            // so every later entry is untouched
                            assert forall|q: int| 0 <= q < p + 1 implies
                                (#[trigger] ns[q]).0 >= s[q].0 && ns[q].0 <= s[q].0 by {
                                if q < p {
                                    assert(ns[q] == a[q]);
                                    assert(a[q] == s[q]);
                                } else {
                                    assert(ns[q] == (k, *final(v)));
                                }
                            }
                            assert forall|q: int| p + 1 <= q < ns.len() implies
                                #[trigger] ns[q] == s[q] by {
                                assert(ns[q] == b.skip(1)[q - p - 1]);
                                assert(b.skip(1)[q - p - 1] == s[q]);
                            }
                            match nk {
                                Some(k2) => {
                                    assert(ns.len() == s.len());
                                    assert forall|q: int| 0 <= q < p + 1 implies
                                        (#[trigger] ns[q]).0 < k2 by {
                                        if q < p {
                                            assert(ns[q].0 == s[q].0);
                                            assert(s[q].0 < s[p].0);
                                        } else {
                                            assert(ns[q].0 == k);
                                        }
                                    }
                                    assert(p + 1 < ns.len() ==> ns[p + 1].0 >= k2);
                                    lemma_tail_from_at(ns, k2, p + 1);
                                    assert(ns.skip(p + 1) =~= s.skip(p + 1));
                                    assert(s.skip(p).skip(1) =~= s.skip(p + 1));
                                    assert(has_key(after_borrow(*tree).as_seq(), k2)) by {
                                        after_borrow(*tree).lemma_view();
                                        lemma_lookup_index(ns, p + 1);
                                    }
                                },
                                None => {
                                    if p + 1 < s.len() {
                                        assert(s[p + 1].0 <= k);
                                        assert(s[p].0 < s[p + 1].0);
                                    }
                                    assert(s.skip(p).skip(1) =~= s.skip(p + 1));
                                    assert(s.skip(p + 1) =~= Seq::<(i32, V)>::empty());
                                },
                            }
                        }
                        Some((k, v))
                    },
                    None => {
                        proof {
                            assert(false);
                        }
                        None
                    },
                }
            },
        }
    }
}

impl<V> Btree<V> {
    /// A lazy cursor over all entries in ascending key order.  It borrows
    /// the tree, so no mutation can happen while it is alive; construct a
    /// new one to traverse again.
    pub fn iter<'a>(&'a self) -> (it: Iter<'a, V>)
        requires
            self.wf(),
        ensures
            it.wf(),
            it.remaining() == self.as_seq(),
    {
        proof {
            self.lemma_view();
            self.lemma_root();
        }
        let first = self.root.first_entry();
        match first {
            Some(e) => {
                proof {
                    let s = self.as_seq();
                    assert(s[0].0 >= e.0);
                    lemma_tail_from_at(s, e.0, 0);
                    assert(s.skip(0) =~= s);
                    lemma_lookup_index(s, 0);
                }
                Iter { tree: self, cur: Some(e.0) }
            },
            None => Iter { tree: self, cur: None },
        }
    }

    /// A lazy mutable cursor over all entries in ascending key order.  Each
    /// step borrows the tree afresh and allows the value (never the key) to
    /// be updated in place.
    pub fn iter_mut(&mut self) -> (it: IterMut)
        requires
            old(self).wf(),
        ensures
            *final(self) == *old(self),
            it.valid_for(*old(self)),
            it.remaining_in(*old(self)) == old(self).as_seq(),
    {
        proof {
            self.lemma_view();
            self.lemma_root();
        }
        let first = self.root.first_entry();
        match first {
            Some(e) => {
                proof {
                    let s = self.as_seq();
                    assert(s[0].0 >= e.0);
                    lemma_tail_from_at(s, e.0, 0);
                    assert(s.skip(0) =~= s);
                    lemma_lookup_index(s, 0);
                }
                IterMut { cur: Some(e.0) }
            },
            None => IterMut { cur: None },
        }
    }
}

} // verus!
