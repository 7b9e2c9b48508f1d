use vstd::prelude::*;

use vstd::std_specs::cmp::PartialEqSpec;

use crate::key::OrderedKey;
use crate::node::{
    black_height, clone_in, collect_in, collect_mut_in, delete_in, first_in, first_mut_in, floor_in, get_in,
    get_mut_in, inorder, insert_in, last_in, last_mut_in, lemma_black_height, lemma_inorder,
    lemma_ordered_from_inorder, lemma_same_shape, lemma_with_value, lookup,
    ordered, paint_black, rb, red_root, with_value, Link,
};

verus! {

/// An ordered map from keys to values, kept as a balanced search tree.
#[derive(Debug)]
pub struct RBTree<K, V> {
    root: Link<K, V>,
    len: usize,
}

impl<K: OrderedKey, V> View for RBTree<K, V> {
    type V = Map<K, V>;

    /// The map that the tree holds.
    closed spec fn view(&self) -> Map<K, V> {
        Map::new(|k: K| lookup(self.root, k) is Some, |k: K| lookup(self.root, k).unwrap())
    }
}

impl<K: OrderedKey, V> RBTree<K, V> {
    /// The entries in ascending key order.
    pub closed spec fn entries(self) -> Seq<(K, V)> {
        inorder(self.root)
    }

    /// The search order holds, the root is black or absent, the red-black
    /// rules hold, and the stored count is the number of entries.
    pub closed spec fn wf(self) -> bool {
        &&& ordered(self.root, None, None)
        &&& !red_root(self.root)
        &&& self.len == inorder(self.root).len()
        &&& self.balanced()
    }

    /// The red-black rules hold: no red node has a red child, and every path
    /// from the root down to an absent link meets the same number of black
    /// nodes.
    pub closed spec fn balanced(self) -> bool {
        rb(self.root, black_height(self.root))
    }

    /// The root is present and red.
    pub closed spec fn root_is_red(self) -> bool {
        red_root(self.root)
    }

    /// A well-formed tree keeps the red-black rules and has a black root, if
    /// any.
    pub proof fn lemma_wf_colors(self)
        requires
            self.wf(),
        ensures
            self.balanced(),
            !self.root_is_red(),
    {
    }

    /// The entries of a well-formed tree ascend strictly, and they are
    /// exactly the pairs of its map.
    #[verifier::rlimit(50)]
    pub proof fn lemma_entries(self)
        requires
            self.wf(),
        ensures
            forall|i: int, j: int| 0 <= i < j < self.entries().len() ==> #[trigger] self.entries()[i].0.rank() < #[trigger] self.entries()[j].0.rank(),
            forall|i: int| 0 <= i < self.entries().len() ==> #[trigger] self@.contains_key(self.entries()[i].0) && self@[self.entries()[i].0] == self.entries()[i].1,
            forall|k: K| #[trigger] self@.contains_key(k) ==> exists|i: int| 0 <= i < self.entries().len() && #[trigger] self.entries()[i].0 == k,
            forall|p: (K, V)| #[trigger] self.entries().contains(p) == (self@.contains_key(p.0) && self@[p.0] == p.1),
    {
        lemma_inorder(self.root, None, None);
        assert forall|i: int| 0 <= i < self.entries().len() implies #[trigger] self@.contains_key(self.entries()[i].0) && self@[self.entries()[i].0] == self.entries()[i].1 by {
            assert(lookup(self.root, inorder(self.root)[i].0) == Some(inorder(self.root)[i].1));
        }
        assert forall|k: K| #[trigger] self@.contains_key(k) implies exists|i: int| 0 <= i < self.entries().len() && #[trigger] self.entries()[i].0 == k by {
            assert(lookup(self.root, k) is Some);
            let i = choose|i: int| 0 <= i < inorder(self.root).len() && #[trigger] inorder(self.root)[i].0 == k;
            assert(self.entries()[i].0 == k);
        }
        assert forall|p: (K, V)| #[trigger] self.entries().contains(p) == (self@.contains_key(p.0) && self@[p.0] == p.1) by {
            if self.entries().contains(p) {
                let i = choose|i: int| 0 <= i < self.entries().len() && self.entries()[i] == p;
                assert(self@.contains_key(self.entries()[i].0));
            }
            if self@.contains_key(p.0) && self@[p.0] == p.1 {
                let i = choose|i: int| 0 <= i < self.entries().len() && #[trigger] self.entries()[i].0 == p.0;
                assert(self@.contains_key(self.entries()[i].0));
                assert(self.entries()[i] == p);
            }
        }
    }

    /// The root link, for walks over the whole tree.
    pub(crate) fn root(&self) -> (r: &Link<K, V>)
        ensures
            inorder(*r) == self.entries(),
    {
        &self.root
    }

    /// Gives up the tree's nodes.
    pub(crate) fn into_root(self) -> (r: Link<K, V>)
        ensures
            inorder(r) == self.entries(),
    {
        self.root
    }

    /// An empty tree.
    pub fn new() -> (r: Self)
        ensures
            r.wf(),
            r@ == Map::<K, V>::empty(),
            r.entries().len() == 0,
    {
        let r = RBTree { root: None, len: 0 };
        assert(r@ =~= Map::<K, V>::empty());
        r
    }

    /// The number of entries.
    pub fn len(&self) -> (r: usize)
        requires
            self.wf(),
        ensures
            r == self.entries().len(),
    {
        self.len
    }

    /// Whether the tree holds no entry.
    pub fn is_empty(&self) -> (r: bool)
        requires
            self.wf(),
        ensures
            r == (self.entries().len() == 0),
            r == (self@ == Map::<K, V>::empty()),
    {
        proof {
            self.lemma_entries();
            if self.entries().len() > 0 {
                assert(self@.contains_key(self.entries()[0].0));
            } else {
                assert(self@ =~= Map::<K, V>::empty());
            }
        }
        self.root.is_none()
    }

    /// Stores `v` under `k`, returning the value that `k` had before.
    #[verifier::rlimit(50)]
    pub fn insert(&mut self, k: K, v: V) -> (r: Option<V>)
        requires
            old(self).wf(),
            old(self).entries().len() < usize::MAX,
        ensures
            final(self).wf(),
            final(self)@ == old(self)@.insert(k, v),
            r == (if old(self)@.contains_key(k) { Some(old(self)@[k]) } else { None }),
            final(self).entries().len() == old(self).entries().len() + if old(self)@.contains_key(k) { 0int } else { 1int },
    {
        let ghost before = *self;
        let ghost h = black_height(self.root);
        let root = self.root.take();
        let (n, prev) = insert_in(root, k, v, Ghost(None), Ghost(None), Ghost(h));
        self.root = Some(n);
        paint_black(&mut self.root);
        proof {
            if red_root(Some(n)) {
                lemma_black_height(self.root, h + 1);
            } else {
                lemma_black_height(self.root, h);
            }
        }
        if prev.is_none() {
            self.len = self.len + 1;
        }
        proof {
            assert forall|j: K| #[trigger] self@.contains_key(j) == before@.insert(k, v).contains_key(j) && (self@.contains_key(j) ==> self@[j] == before@.insert(k, v)[j]) by {
                if j.rank() == k.rank() {
                    K::rank_injective(j, k);
                }
            }
            assert(self@ =~= before@.insert(k, v));
        }
        prev
    }

    /// The value stored under `k`.
    pub fn get(&self, k: &K) -> (r: Option<&V>)
        requires
            self.wf(),
        ensures
            (match r {
                Some(v) => self@.contains_key(*k) && self@[*k] == *v,
                None => !self@.contains_key(*k),
            }),
    {
        get_in(&self.root, k)
    }

    /// The entry stored under `k`, key and value.
    pub fn find_node(&self, k: &K) -> (r: Option<(&K, &V)>)
        requires
            self.wf(),
        ensures
            (match r {
                Some(e) => *e.0 == *k && self@.contains_key(*k) && self@[*k] == *e.1,
                None => !self@.contains_key(*k),
            }),
    {
        let (e, exact) = floor_in(&self.root, k, Ghost(None), Ghost(None));
        if exact {
            e
        } else {
            None
        }
    }

    /// Whether some value is stored under `k`.
    pub fn contains_key(&self, k: &K) -> (r: bool)
        requires
            self.wf(),
        ensures
            r == self@.contains_key(*k),
    {
        let node = get_in(&self.root, k);
        if node.is_none() {
            return false;
        }
        true
    }

    /// The tree with the value under `k` replaced by `v`.
    closed spec fn replaced(self, k: K, v: V) -> Self {
        RBTree { root: with_value(self.root, k, v), len: self.len }
    }

    /// Replacing the value under a present key gives a well-formed tree whose
    /// map holds the new value there.
    #[verifier::rlimit(50)]
    proof fn lemma_replace_value(self, k: K, v: V)
        requires
            self.wf(),
            self@.contains_key(k),
        ensures
            self.replaced(k, v).wf(),
            self.replaced(k, v)@ == self@.insert(k, v),
            self.replaced(k, v).entries().len() == self.entries().len(),
    {
        lemma_with_value(self.root, k, v, None, None);
        let t = self.replaced(k, v);
        assert forall|j: K| #[trigger] t@.contains_key(j) == self@.insert(k, v).contains_key(j) && (t@.contains_key(j) ==> t@[j] == self@.insert(k, v)[j]) by {
            if j.rank() == k.rank() {
                K::rank_injective(j, k);
            }
        }
        assert(t@ =~= self@.insert(k, v));
    }

    /// A mutable reference to the value stored under `k`.
    #[verifier::rlimit(50)]
    pub fn get_mut(&mut self, k: &K) -> (r: Option<&mut V>)
        requires
            old(self).wf(),
        ensures
            (match r {
                Some(v) => old(self)@.contains_key(*k) && *v == old(self)@[*k]
                    && final(self).wf()
                    && final(self)@ == old(self)@.insert(*k, *final(v))
                    && final(self).entries().len() == old(self).entries().len(),
                None => !old(self)@.contains_key(*k) && *final(self) == *old(self),
            }),
    {
        let ghost before = *self;
        proof {
            assert forall|v: V| before@.contains_key(*k) implies #[trigger] before.replaced(*k, v).wf()
                && before.replaced(*k, v)@ == before@.insert(*k, v)
                && before.replaced(*k, v).entries().len() == before.entries().len() by {
                before.lemma_replace_value(*k, v);
            }
        }
        let r = get_mut_in(&mut self.root, k);
        proof {
            if r is Some {
                assert(after_borrow(*self) == before.replaced(*k, *final(r.unwrap())));
            }
        }
        r
    }

    /// The entry with the least key, with its value open to change.
    #[verifier::rlimit(50)]
    pub fn get_first_mut(&mut self) -> (r: Option<(&K, &mut V)>)
        requires
            old(self).wf(),
        ensures
            (r is None) == (old(self).entries().len() == 0),
            (match r {
                Some(e) => (*e.0, *e.1) == old(self).entries()[0]
                    && old(self)@.contains_key(*e.0)
                    && final(self).wf()
                    && final(self)@ == old(self)@.insert(*e.0, *final(e.1))
                    && final(self).entries().len() == old(self).entries().len(),
                None => *final(self) == *old(self),
            }),
    {
        let ghost before = *self;
        proof {
            assert forall|k: K, v: V| before@.contains_key(k) implies #[trigger] before.replaced(k, v).wf()
                && before.replaced(k, v)@ == before@.insert(k, v)
                && before.replaced(k, v).entries().len() == before.entries().len() by {
                before.lemma_replace_value(k, v);
            }
        }
        match &mut self.root {
            None => None,
            Some(n) => {
                let r = first_mut_in(n, Ghost(None), Ghost(None));
                proof {
                    assert(after_borrow(*self) == before.replaced(*r.0, *final(r.1)));
                }
                Some(r)
            },
        }
    }

    /// The entry with the greatest key, with its value open to change.
    #[verifier::rlimit(50)]
    pub fn get_last_mut(&mut self) -> (r: Option<(&K, &mut V)>)
        requires
            old(self).wf(),
        ensures
            (r is None) == (old(self).entries().len() == 0),
            (match r {
                Some(e) => (*e.0, *e.1) == old(self).entries().last()
                    && old(self)@.contains_key(*e.0)
                    && final(self).wf()
                    && final(self)@ == old(self)@.insert(*e.0, *final(e.1))
                    && final(self).entries().len() == old(self).entries().len(),
                None => *final(self) == *old(self),
            }),
    {
        let ghost before = *self;
        proof {
            assert forall|k: K, v: V| before@.contains_key(k) implies #[trigger] before.replaced(k, v).wf()
                && before.replaced(k, v)@ == before@.insert(k, v)
                && before.replaced(k, v).entries().len() == before.entries().len() by {
                before.lemma_replace_value(k, v);
            }
        }
        match &mut self.root {
            None => None,
            Some(n) => {
                let r = last_mut_in(n, Ghost(None), Ghost(None));
                proof {
                    assert(after_borrow(*self) == before.replaced(*r.0, *final(r.1)));
                }
                Some(r)
            },
        }
    }

    /// Appends the entries in key order onto an empty `out`, each value open
    /// to change; whatever is written through them is what the tree holds.
    #[verifier::rlimit(50)]
    pub(crate) fn entries_mut<'a>(&'a mut self, out: &mut Vec<(&'a K, &'a mut V)>)
        requires
            old(self).wf(),
            old(out)@.len() == 0,
        ensures
            final(out)@.len() == old(self).entries().len(),
            forall|i: int| 0 <= i < final(out)@.len() ==> (*final(out)@[i].0, *final(out)@[i].1) == #[trigger] old(self).entries()[i],
            final(self).wf(),
            final(self).entries().len() == old(self).entries().len(),
            forall|i: int| 0 <= i < final(out)@.len() ==> #[trigger] final(self).entries()[i] == (*final(out)@[i].0, *final(final(out)@[i].1)),
    {
        let ghost before = *self;
        proof {
            before.lemma_entries();
        }
        collect_mut_in(&mut self.root, out);
        proof {
            let fin = after_borrow(*self);
            let s = inorder(fin.root);
            let e = inorder(before.root);
            assert forall|i: int| 0 <= i < s.len() implies #[trigger] s[i].0 == e[i].0 by {
                assert(s[i] == (*out@[0 + i].0, *final(out@[0 + i].1)));
            }
            assert forall|i: int, j: int| 0 <= i < j < s.len() implies #[trigger] s[i].0.rank() < #[trigger] s[j].0.rank() by {
                assert(s[i].0 == e[i].0);
                assert(s[j].0 == e[j].0);
                assert(before.entries()[i].0.rank() < before.entries()[j].0.rank());
            }
            lemma_ordered_from_inorder(fin.root, None, None);
            lemma_same_shape(fin.root, before.root);
        }
    }

    /// Removes `k`, returning the value it had.
    #[verifier::rlimit(50)]
    pub fn remove(&mut self, k: &K) -> (r: Option<V>)
        requires
            old(self).wf(),
        ensures
            final(self).wf(),
            final(self)@ == old(self)@.remove(*k),
            r == (if old(self)@.contains_key(*k) { Some(old(self)@[*k]) } else { None }),
            final(self).entries().len() == old(self).entries().len() - if old(self)@.contains_key(*k) { 1int } else { 0int },
    {
        let ghost before = *self;
        let ghost h = black_height(self.root);
        let root = self.root.take();
        let (n, prev) = delete_in(root, k, Ghost(None), Ghost(None), Ghost(h));
        self.root = n;
        paint_black(&mut self.root);
        proof {
            if before.root is None {
                lemma_black_height(self.root, h);
            } else if red_root(n) {
                lemma_black_height(self.root, h);
            } else {
                lemma_black_height(self.root, h - 1);
            }
        }
        if prev.is_some() {
            self.len = self.len - 1;
        }
        proof {
            assert forall|j: K| #[trigger] self@.contains_key(j) == before@.remove(*k).contains_key(j) && (self@.contains_key(j) ==> self@[j] == before@.remove(*k)[j]) by {
                if j.rank() == k.rank() {
                    K::rank_injective(j, *k);
                }
            }
            assert(self@ =~= before@.remove(*k));
        }
        prev
    }

    /// Removes every entry.
    pub fn clear(&mut self)
        ensures
            final(self).wf(),
            final(self)@ == Map::<K, V>::empty(),
            final(self).entries().len() == 0,
    {
        self.root = None;
        self.len = 0;
        assert(self@ =~= Map::<K, V>::empty());
    }
    /// The entry with the least key.
    #[verifier::rlimit(50)]
    pub fn get_first(&self) -> (r: Option<(&K, &V)>)
        requires
            self.wf(),
        ensures
            (r is None) == (self.entries().len() == 0),
            (match r {
                Some(e) => (*e.0, *e.1) == self.entries()[0]
                    && self@.contains_key(*e.0) && self@[*e.0] == *e.1
                    && forall|j: K| #[trigger] self@.contains_key(j) ==> e.0.rank() <= j.rank(),
                None => true,
            }),
    {
        match &self.root {
            None => None,
            Some(n) => {
                let r = first_in(n);
                proof {
                    self.lemma_entries();
                    assert forall|j: K| #[trigger] self@.contains_key(j) implies r.0.rank() <= j.rank() by {
                        let i = choose|i: int| 0 <= i < self.entries().len() && #[trigger] self.entries()[i].0 == j;
                        if i > 0 {
                            assert(self.entries()[0].0.rank() < self.entries()[i].0.rank());
                        }
                    }
                }
                Some(r)
            },
        }
    }

    /// The entry with the greatest key.
    #[verifier::rlimit(50)]
    pub fn get_last(&self) -> (r: Option<(&K, &V)>)
        requires
            self.wf(),
        ensures
            (r is None) == (self.entries().len() == 0),
            (match r {
                Some(e) => (*e.0, *e.1) == self.entries().last()
                    && self@.contains_key(*e.0) && self@[*e.0] == *e.1
                    && forall|j: K| #[trigger] self@.contains_key(j) ==> j.rank() <= e.0.rank(),
                None => true,
            }),
    {
        match &self.root {
            None => None,
            Some(n) => {
                let r = last_in(n);
                proof {
                    assert(self.entries() == inorder(Some(*n)));
                    self.lemma_entries();
                    let last = self.entries().len() - 1;
                    assert(self.entries()[last] == self.entries().last());
                    assert(self@.contains_key(self.entries()[last].0));
                    assert forall|j: K| #[trigger] self@.contains_key(j) implies j.rank() <= r.0.rank() by {
                        let i = choose|i: int| 0 <= i < self.entries().len() && #[trigger] self.entries()[i].0 == j;
                        if i < last {
                            assert(self.entries()[i].0.rank() < self.entries()[last].0.rank());
                        }
                    }
                }
                Some(r)
            },
        }
    }

    /// Removes and returns the entry with the least key.
    #[verifier::rlimit(50)]
    pub fn pop_first(&mut self) -> (r: Option<(K, V)>)
        requires
            old(self).wf(),
        ensures
            final(self).wf(),
            (r is None) == (old(self).entries().len() == 0),
            r is None ==> *final(self) == *old(self),
            (match r {
                Some(e) => e == old(self).entries()[0]
                    && final(self).entries() == old(self).entries().drop_first()
                    && old(self)@.contains_key(e.0) && old(self)@[e.0] == e.1
                    && final(self)@ == old(self)@.remove(e.0)
                    && final(self).entries().len() == old(self).entries().len() - 1
                    && forall|j: K| #[trigger] old(self)@.contains_key(j) ==> e.0.rank() <= j.rank(),
                None => true,
            }),
    {
        let ghost before = *self;
        let first = self.get_first();
        let k = match first {
            None => {
                return None;
            },
            Some(e) => e.0.duplicate(),
        };
        let v = self.remove(&k);
        proof {
            let e0 = before.entries();
            let d = e0.drop_first();
            before.lemma_entries();
            self.lemma_entries();
            assert forall|a: int, b: int| 0 <= a < b < d.len() implies #[trigger] d[a].0.rank() < #[trigger] d[b].0.rank() by {
                assert(d[a] == e0[a + 1] && d[b] == e0[b + 1]);
            }
            assert forall|p: (K, V)| self.entries().contains(p) == d.contains(p) by {
                if d.contains(p) {
                    let a = choose|a: int| 0 <= a < d.len() && d[a] == p;
                    assert(e0[a + 1] == p);
                    assert(e0.contains(p));
                    assert(e0[0].0.rank() < e0[a + 1].0.rank());
                }
                if self.entries().contains(p) {
                    assert(e0.contains(p));
                    let a = choose|a: int| 0 <= a < e0.len() && e0[a] == p;
                    assert(a != 0);
                    assert(d[a - 1] == p);
                }
            }
            lemma_sorted_unique(self.entries(), d);
        }
        Some((k, v.unwrap()))
    }

    /// Removes and returns the entry with the greatest key.
    #[verifier::rlimit(50)]
    pub fn pop_last(&mut self) -> (r: Option<(K, V)>)
        requires
            old(self).wf(),
        ensures
            final(self).wf(),
            (r is None) == (old(self).entries().len() == 0),
            r is None ==> *final(self) == *old(self),
            (match r {
                Some(e) => e == old(self).entries().last()
                    && final(self).entries() == old(self).entries().drop_last()
                    && old(self)@.contains_key(e.0) && old(self)@[e.0] == e.1
                    && final(self)@ == old(self)@.remove(e.0)
                    && final(self).entries().len() == old(self).entries().len() - 1
                    && forall|j: K| #[trigger] old(self)@.contains_key(j) ==> j.rank() <= e.0.rank(),
                None => true,
            }),
    {
        let ghost before = *self;
        let last = self.get_last();
        let k = match last {
            None => {
                return None;
            },
            Some(e) => e.0.duplicate(),
        };
        let v = self.remove(&k);
        proof {
            let e0 = before.entries();
            let n = e0.len() - 1;
            let d = e0.drop_last();
            before.lemma_entries();
            self.lemma_entries();
            assert forall|a: int, b: int| 0 <= a < b < d.len() implies #[trigger] d[a].0.rank() < #[trigger] d[b].0.rank() by {
                assert(d[a] == e0[a] && d[b] == e0[b]);
            }
            assert forall|p: (K, V)| self.entries().contains(p) == d.contains(p) by {
                if d.contains(p) {
                    let a = choose|a: int| 0 <= a < d.len() && d[a] == p;
                    assert(e0[a] == p);
                    assert(e0.contains(p));
                    assert(e0[a].0.rank() < e0[n].0.rank());
                }
                if self.entries().contains(p) {
                    assert(e0.contains(p));
                    let a = choose|a: int| 0 <= a < e0.len() && e0[a] == p;
                    assert(a != n);
                    assert(d[a] == p);
                }
            }
            lemma_sorted_unique(self.entries(), d);
        }
        Some((k, v.unwrap()))
    }

    /// The entry with the greatest key at or below `k`, and whether that key
    /// is `k` itself.
    pub fn find_less_equal(&self, k: &K) -> (r: (Option<(&K, &V)>, bool))
        requires
            self.wf(),
        ensures
            r.1 == self@.contains_key(*k),
            r.1 ==> r.0 is Some && *r.0.unwrap().0 == *k && self@[*k] == *r.0.unwrap().1,
            (match r.0 {
                Some(e) => self@.contains_key(*e.0) && self@[*e.0] == *e.1 && e.0.rank() <= k.rank()
                    && forall|j: K| #[trigger] self@.contains_key(j) && j.rank() <= k.rank() ==> j.rank() <= e.0.rank(),
                None => forall|j: K| #[trigger] self@.contains_key(j) ==> j.rank() > k.rank(),
            }),
    {
        floor_in(&self.root, k, Ghost(None), Ghost(None))
    }

    /// The value stored under `k`, which must be present.
    pub fn index(&self, k: &K) -> (r: &V)
        requires
            self.wf(),
            self@.contains_key(*k),
        ensures
            *r == self@[*k],
    {
        get_in(&self.root, k).unwrap()
    }

    /// Inserts each pair in turn; a later pair replaces an earlier value under
    /// the same key.
    #[verifier::rlimit(50)]
    pub fn extend(&mut self, items: Vec<(K, V)>)
        requires
            old(self).wf(),
            old(self).entries().len() + items@.len() < usize::MAX,
        ensures
            final(self).wf(),
            final(self)@ == insert_all(old(self)@, items@),
            final(self).entries().len() <= old(self).entries().len() + items@.len(),
    {
        let mut items = items;
        let ghost all = items@;
        let ghost start = self@;
        let ghost start_len = self.entries().len();
        while items.len() > 0
            invariant
                self.wf(),
                insert_all(self@, items@) == insert_all(start, all),
                self.entries().len() + items@.len() <= start_len + all.len(),
                start_len + all.len() < usize::MAX,
            decreases items.len(),
        {
            let ghost rest = items@;
            let (k, v) = items.remove(0);
            proof {
                assert(rest =~= seq![(k, v)] + items@);
                lemma_insert_all_cons(self@, (k, v), items@);
            }
            self.insert(k, v);
        }
    }

    /// A tree holding the given pairs; a later pair wins over an earlier one
    /// with the same key.
    pub fn from_iter(items: Vec<(K, V)>) -> (r: Self)
        requires
            items@.len() < usize::MAX,
        ensures
            r.wf(),
            r@ == insert_all(Map::<K, V>::empty(), items@),
    {
        let mut tree = RBTree::new();
        tree.extend(items);
        tree
    }
}

/// Two sequences whose keys ascend strictly and that hold the same pairs are
/// equal.
#[verifier::rlimit(50)]
pub proof fn lemma_sorted_unique<K: OrderedKey, V>(s1: Seq<(K, V)>, s2: Seq<(K, V)>)
    requires
        forall|i: int, j: int| 0 <= i < j < s1.len() ==> #[trigger] s1[i].0.rank() < #[trigger] s1[j].0.rank(),
        forall|i: int, j: int| 0 <= i < j < s2.len() ==> #[trigger] s2[i].0.rank() < #[trigger] s2[j].0.rank(),
        forall|p: (K, V)| s1.contains(p) == s2.contains(p),
    ensures
        s1 == s2,
    decreases s1.len(),
{
    if s1.len() == 0 {
        if s2.len() > 0 {
            assert(s2.contains(s2[0]));
        }
        assert(s1 =~= s2);
    } else {
        assert(s1.contains(s1[0]));
        let j = choose|j: int| 0 <= j < s2.len() && s2[j] == s1[0];
        assert(s2.contains(s2[0]));
        let i = choose|i: int| 0 <= i < s1.len() && s1[i] == s2[0];
        if j > 0 {
            assert(s2[0].0.rank() < s2[j].0.rank());
            if i > 0 {
                assert(s1[0].0.rank() < s1[i].0.rank());
            }
        }
        let t1 = s1.drop_first();
        let t2 = s2.drop_first();
        assert forall|a: int, b: int| 0 <= a < b < t1.len() implies #[trigger] t1[a].0.rank() < #[trigger] t1[b].0.rank() by {
            assert(t1[a] == s1[a + 1] && t1[b] == s1[b + 1]);
        }
        assert forall|a: int, b: int| 0 <= a < b < t2.len() implies #[trigger] t2[a].0.rank() < #[trigger] t2[b].0.rank() by {
            assert(t2[a] == s2[a + 1] && t2[b] == s2[b + 1]);
        }
        assert forall|p: (K, V)| t1.contains(p) == t2.contains(p) by {
            if t1.contains(p) {
                let a = choose|a: int| 0 <= a < t1.len() && t1[a] == p;
                assert(s1[a + 1] == p);
                assert(s1.contains(p));
                let b = choose|b: int| 0 <= b < s2.len() && s2[b] == p;
                assert(s1[0].0.rank() < s1[a + 1].0.rank());
                assert(t2[b - 1] == p);
            }
            if t2.contains(p) {
                let b = choose|b: int| 0 <= b < t2.len() && t2[b] == p;
                assert(s2[b + 1] == p);
                assert(s2.contains(p));
                let a = choose|a: int| 0 <= a < s1.len() && s1[a] == p;
                assert(s2[0].0.rank() < s2[b + 1].0.rank());
                assert(t1[a - 1] == p);
            }
        }
        lemma_sorted_unique(t1, t2);
        assert(s1 =~= seq![s1[0]] + t1);
        assert(s2 =~= seq![s2[0]] + t2);
    }
}

/// The map after inserting each pair of `s` in turn.
pub open spec fn insert_all<K, V>(m: Map<K, V>, s: Seq<(K, V)>) -> Map<K, V>
    decreases s.len(),
{
    if s.len() == 0 {
        m
    } else {
        insert_all(m.insert(s[0].0, s[0].1), s.drop_first())
    }
}

/// Inserting a first pair, then the rest.
proof fn lemma_insert_all_cons<K, V>(m: Map<K, V>, p: (K, V), s: Seq<(K, V)>)
    ensures
        insert_all(m, seq![p] + s) == insert_all(m.insert(p.0, p.1), s),
{
    assert((seq![p] + s).drop_first() =~= s);
}

/// Whether two maps have the same keys, with values equal under `V`'s `==`.
pub open spec fn same_entries<K, V: PartialEq>(a: Map<K, V>, b: Map<K, V>) -> bool {
    &&& a.dom() == b.dom()
    &&& forall|k: K| #[trigger] a.contains_key(k) ==> a[k].eq_spec(&b[k])
}

impl<K: OrderedKey, V: PartialEq> RBTree<K, V> {
    /// Whether the trees hold the same keys with equal values.
    #[verifier::rlimit(50)]
    pub fn eq(&self, other: &Self) -> (r: bool)
        requires
            self.wf(),
            other.wf(),
        ensures
            V::obeys_eq_spec() ==> r == same_entries(self@, other@),
    {
        proof {
            self.lemma_entries();
            other.lemma_entries();
        }
        let mut mine: Vec<(&K, &V)> = Vec::new();
        collect_in(&self.root, &mut mine);
        let mut i: usize = 0;
        while i < mine.len()
            invariant
                self.wf(),
                other.wf(),
                0 <= i <= mine@.len(),
                mine@.len() == self.entries().len(),
                forall|j: int| 0 <= j < mine@.len() ==> (*mine@[j].0, *mine@[j].1) == #[trigger] self.entries()[j],
                V::obeys_eq_spec() ==> forall|j: int| 0 <= j < i ==> #[trigger] other@.contains_key(self.entries()[j].0)
                    && self.entries()[j].1.eq_spec(&other@[self.entries()[j].0]),
            decreases mine@.len() - i,
        {
            let (k, v) = mine[i];
            assert((*k, *v) == self.entries()[i as int]);
            proof {
                self.lemma_entries();
                assert(self@.contains_key(self.entries()[i as int].0));
            }
            match other.get(k) {
                None => {
                    assert(!self@.dom().contains(*k) || !other@.dom().contains(*k));
                    return false;
                },
                Some(w) => {
                    let same = *v == *w;
                    if !same {
                        return false;
                    }
                    proof {
                        if V::obeys_eq_spec() {
                            assert(v.eq_spec(w));
                            assert(other@.contains_key(self.entries()[i as int].0));
                            assert(self.entries()[i as int].1.eq_spec(&other@[self.entries()[i as int].0]));
                            assert forall|j: int| 0 <= j < i + 1 implies #[trigger] other@.contains_key(self.entries()[j].0)
                                && self.entries()[j].1.eq_spec(&other@[self.entries()[j].0]) by {
                                if j == i {
                                    assert(other@.contains_key(self.entries()[i as int].0));
                                }
                            }
                        }
                    }
                },
            }
            i = i + 1;
        }
        let mut theirs: Vec<(&K, &V)> = Vec::new();
        collect_in(&other.root, &mut theirs);
        let mut i: usize = 0;
        while i < theirs.len()
            invariant
                self.wf(),
                other.wf(),
                0 <= i <= theirs@.len(),
                theirs@.len() == other.entries().len(),
                forall|j: int| 0 <= j < theirs@.len() ==> (*theirs@[j].0, *theirs@[j].1) == #[trigger] other.entries()[j],
                forall|j: int| 0 <= j < i ==> #[trigger] self@.contains_key(other.entries()[j].0),
            decreases theirs@.len() - i,
        {
            let (k, _) = theirs[i];
            assert(*k == other.entries()[i as int].0);
            proof {
                other.lemma_entries();
                assert(other@.contains_key(other.entries()[i as int].0));
            }
            if !self.contains_key(k) {
                assert(other@.dom().contains(*k));
                return false;
            }
            i = i + 1;
        }
        proof {
            if V::obeys_eq_spec() {
                assert forall|k: K| #[trigger] self@.contains_key(k) implies other@.contains_key(k) && self@[k].eq_spec(&other@[k]) by {
                    let j = choose|j: int| 0 <= j < self.entries().len() && #[trigger] self.entries()[j].0 == k;
                }
                assert forall|k: K| #[trigger] other@.contains_key(k) implies self@.contains_key(k) by {
                    let j = choose|j: int| 0 <= j < other.entries().len() && #[trigger] other.entries()[j].0 == k;
                }
                assert(self@.dom() =~= other@.dom());
            }
        }
        true
    }
}

impl<K: OrderedKey, V: Clone> RBTree<K, V> {
    /// A copy of the tree with the same keys and shape, and each value cloned.
    pub fn clone(&self) -> (r: Self)
        requires
            self.wf(),
        ensures
            r.wf(),
            r@.dom() == self@.dom(),
            forall|k: K| #[trigger] r@.contains_key(k) ==> cloned(self@[k], r@[k]),
            r.entries().len() == self.entries().len(),
    {
        let root = clone_in(&self.root, Ghost(None), Ghost(None));
        let r = RBTree { root, len: self.len };
        assert(r@.dom() =~= self@.dom());
        r
    }
}

impl<K: OrderedKey, V> Default for RBTree<K, V> {
    fn default() -> (r: Self)
        ensures
            r.wf(),
            r@ == Map::<K, V>::empty(),
            r.entries().len() == 0,
    {
        Self::new()
    }
}

} // verus!
