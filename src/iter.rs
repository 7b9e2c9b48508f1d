use vstd::prelude::*;

use crate::key::OrderedKey;
use crate::node::{collect_in, drain_in};
use crate::rbtree::RBTree;

verus! {

/// A double-ended cursor over references to a tree's entries, in ascending
/// key order from the front and descending from the back.
pub struct Iter<'a, K, V> {
    items: Vec<(&'a K, &'a V)>,
    head: usize,
    tail: usize,
}

impl<'a, K, V> Iter<'a, K, V> {
    /// The cursor's bounds lie within its buffer.
    pub closed spec fn wf(self) -> bool {
        self.head <= self.tail <= self.items@.len()
    }

    /// The entries not yet handed out, front first.
    pub closed spec fn remaining(self) -> Seq<(K, V)> {
        Seq::new((self.tail - self.head) as nat, |i: int| (*self.items@[self.head + i].0, *self.items@[self.head + i].1))
    }

    /// Hands out the entry at the front.
    pub fn next(&mut self) -> (r: Option<(&'a K, &'a V)>)
        requires
            old(self).wf(),
        ensures
            final(self).wf(),
            (r is None) == (old(self).remaining().len() == 0),
            r is None ==> final(self).remaining() == old(self).remaining(),
            (match r {
                Some(e) => (*e.0, *e.1) == old(self).remaining()[0]
                    && final(self).remaining() == old(self).remaining().drop_first(),
                None => true,
            }),
    {
        if self.head == self.tail {
            return None;
        }
        let e = self.items[self.head];
        self.head = self.head + 1;
        assert(self.remaining() =~= old(self).remaining().drop_first());
        Some(e)
    }

    /// Hands out the entry at the back.
    pub fn next_back(&mut self) -> (r: Option<(&'a K, &'a V)>)
        requires
            old(self).wf(),
        ensures
            final(self).wf(),
            (r is None) == (old(self).remaining().len() == 0),
            r is None ==> final(self).remaining() == old(self).remaining(),
            (match r {
                Some(e) => (*e.0, *e.1) == old(self).remaining().last()
                    && final(self).remaining() == old(self).remaining().drop_last(),
                None => true,
            }),
    {
        if self.head == self.tail {
            return None;
        }
        self.tail = self.tail - 1;
        let e = self.items[self.tail];
        assert(self.remaining() =~= old(self).remaining().drop_last());
        Some(e)
    }

    /// Lower and upper bound of the number of entries left; both exact.
    pub fn size_hint(&self) -> (r: (usize, Option<usize>))
        requires
            self.wf(),
        ensures
            r.0 == self.remaining().len(),
            r.1 == Some(r.0),
    {
        let n = self.tail - self.head;
        (n, Some(n))
    }

    /// A second cursor at the same position.
    #[verifier::rlimit(50)]
    pub fn clone(&self) -> (r: Self)
        requires
            self.wf(),
        ensures
            r.wf(),
            r.remaining() == self.remaining(),
    {
        let mut items: Vec<(&'a K, &'a V)> = Vec::new();
        let mut i: usize = 0;
        while i < self.items.len()
            invariant
                i <= self.items@.len(),
                items@ == self.items@.subrange(0, i as int),
            decreases self.items@.len() - i,
        {
            items.push(self.items[i]);
            i = i + 1;
            assert(items@ =~= self.items@.subrange(0, i as int));
        }
        assert(items@ =~= self.items@);
        let r = Iter { items, head: self.head, tail: self.tail };
        assert(r.remaining() =~= self.remaining());
        r
    }

    /// The number of entries left, consuming the cursor.
    pub fn count(self) -> (r: usize)
        requires
            self.wf(),
        ensures
            r == self.remaining().len(),
    {
        self.tail - self.head
    }
}

/// A cursor over a tree's keys, in ascending order.
pub struct Keys<'a, K, V> {
    inner: Iter<'a, K, V>,
}

impl<'a, K, V> Keys<'a, K, V> {
    pub closed spec fn wf(self) -> bool {
        self.inner.wf()
    }

    /// The keys not yet handed out.
    pub closed spec fn remaining(self) -> Seq<K> {
        self.inner.remaining().map_values(|e: (K, V)| e.0)
    }

    /// Hands out the next key.
    pub fn next(&mut self) -> (r: Option<&'a K>)
        requires
            old(self).wf(),
        ensures
            final(self).wf(),
            (r is None) == (old(self).remaining().len() == 0),
            (match r {
                Some(k) => *k == old(self).remaining()[0]
                    && final(self).remaining() == old(self).remaining().drop_first(),
                None => final(self).remaining() == old(self).remaining(),
            }),
    {
        match self.inner.next() {
            Some(e) => {
                assert(self.remaining() =~= old(self).remaining().drop_first());
                Some(e.0)
            },
            None => None,
        }
    }

    /// Lower and upper bound of the number of keys left; both exact.
    pub fn size_hint(&self) -> (r: (usize, Option<usize>))
        requires
            self.wf(),
        ensures
            r.0 == self.remaining().len(),
            r.1 == Some(r.0),
    {
        self.inner.size_hint()
    }
}

/// A cursor over a tree's values, in ascending order of their keys.
pub struct Values<'a, K, V> {
    inner: Iter<'a, K, V>,
}

impl<'a, K, V> Values<'a, K, V> {
    pub closed spec fn wf(self) -> bool {
        self.inner.wf()
    }

    /// The values not yet handed out.
    pub closed spec fn remaining(self) -> Seq<V> {
        self.inner.remaining().map_values(|e: (K, V)| e.1)
    }

    /// Hands out the next value.
    pub fn next(&mut self) -> (r: Option<&'a V>)
        requires
            old(self).wf(),
        ensures
            final(self).wf(),
            (r is None) == (old(self).remaining().len() == 0),
            (match r {
                Some(v) => *v == old(self).remaining()[0]
                    && final(self).remaining() == old(self).remaining().drop_first(),
                None => final(self).remaining() == old(self).remaining(),
            }),
    {
        match self.inner.next() {
            Some(e) => {
                assert(self.remaining() =~= old(self).remaining().drop_first());
                Some(e.1)
            },
            None => None,
        }
    }

    /// Lower and upper bound of the number of values left; both exact.
    pub fn size_hint(&self) -> (r: (usize, Option<usize>))
        requires
            self.wf(),
        ensures
            r.0 == self.remaining().len(),
            r.1 == Some(r.0),
    {
        self.inner.size_hint()
    }
}

/// A double-ended cursor that takes a tree's entries by value.
pub struct IntoIter<K, V> {
    /// The entries left, greatest key first.
    items: Vec<(K, V)>,
}

impl<K, V> IntoIter<K, V> {
    /// The entries not yet handed out, front first.
    pub closed spec fn remaining(self) -> Seq<(K, V)> {
        self.items@.reverse()
    }

    /// Hands out the entry at the front.
    pub fn next(&mut self) -> (r: Option<(K, V)>)
        ensures
            (r is None) == (old(self).remaining().len() == 0),
            (match r {
                Some(e) => e == old(self).remaining()[0]
                    && final(self).remaining() == old(self).remaining().drop_first(),
                None => final(self).remaining() == old(self).remaining(),
            }),
    {
        if self.items.len() == 0 {
            return None;
        }
        let r = self.items.pop();
        assert(self.remaining() =~= old(self).remaining().drop_first());
        r
    }

    /// Hands out the entry at the back.
    pub fn next_back(&mut self) -> (r: Option<(K, V)>)
        ensures
            (r is None) == (old(self).remaining().len() == 0),
            (match r {
                Some(e) => e == old(self).remaining().last()
                    && final(self).remaining() == old(self).remaining().drop_last(),
                None => final(self).remaining() == old(self).remaining(),
            }),
    {
        if self.items.len() == 0 {
            return None;
        }
        let e = self.items.remove(0);
        assert(self.remaining() =~= old(self).remaining().drop_last());
        Some(e)
    }

    /// Lower and upper bound of the number of entries left; both exact.
    pub fn size_hint(&self) -> (r: (usize, Option<usize>))
        ensures
            r.0 == self.remaining().len(),
            r.1 == Some(r.0),
    {
        let n = self.items.len();
        (n, Some(n))
    }
}

impl<K: OrderedKey, V> RBTree<K, V> {
    /// A cursor over the entries in key order.
    #[verifier::rlimit(50)]
    pub fn iter(&self) -> (r: Iter<'_, K, V>)
        requires
            self.wf(),
        ensures
            r.wf(),
            r.remaining() == self.entries(),
    {
        let mut items: Vec<(&K, &V)> = Vec::new();
        collect_in(self.root(), &mut items);
        let n = items.len();
        let r = Iter { items, head: 0, tail: n };
        assert(r.remaining() =~= self.entries());
        r
    }

    /// A cursor over the keys in ascending order.
    pub fn keys(&self) -> (r: Keys<'_, K, V>)
        requires
            self.wf(),
        ensures
            r.wf(),
            r.remaining() == self.entries().map_values(|e: (K, V)| e.0),
    {
        Keys { inner: self.iter() }
    }

    /// A cursor over the values in ascending order of their keys.
    pub fn values(&self) -> (r: Values<'_, K, V>)
        requires
            self.wf(),
        ensures
            r.wf(),
            r.remaining() == self.entries().map_values(|e: (K, V)| e.1),
    {
        Values { inner: self.iter() }
    }

    /// Takes the entries by value, in key order.
    pub fn into_iter(self) -> (r: IntoIter<K, V>)
        requires
            self.wf(),
        ensures
            r.remaining() == self.entries(),
    {
        let mut items: Vec<(K, V)> = Vec::new();
        let ghost e = self.entries();
        drain_in(self.into_root(), &mut items);
        let r = IntoIter { items };
        assert(r.remaining() =~= e);
        r
    }
}

/// A double-ended cursor over a tree's entries, each value open to change,
/// in ascending key order from the front.
pub struct IterMut<'a, K, V> {
    items: Vec<(&'a K, &'a mut V)>,
}

impl<'a, K, V> IterMut<'a, K, V> {
    /// The references not yet handed out, front first.
    pub closed spec fn pending(self) -> Seq<(&'a K, &'a mut V)> {
        self.items@
    }

    /// Hands out the entry at the front.
    pub fn next(&mut self) -> (r: Option<(&'a K, &'a mut V)>)
        ensures
            (r is None) == (old(self).pending().len() == 0),
            (match r {
                Some(e) => e == old(self).pending()[0] && final(self).pending() == old(self).pending().drop_first(),
                None => final(self).pending() == old(self).pending(),
            }),
    {
        if self.items.len() == 0 {
            return None;
        }
        let e = self.items.remove(0);
        assert(self.pending() =~= old(self).pending().drop_first());
        Some(e)
    }

    /// Hands out the entry at the back.
    pub fn next_back(&mut self) -> (r: Option<(&'a K, &'a mut V)>)
        ensures
            (r is None) == (old(self).pending().len() == 0),
            (match r {
                Some(e) => e == old(self).pending().last() && final(self).pending() == old(self).pending().drop_last(),
                None => final(self).pending() == old(self).pending(),
            }),
    {
        if self.items.len() == 0 {
            return None;
        }
        let e = self.items.pop().unwrap();
        assert(self.pending() =~= old(self).pending().drop_last());
        Some(e)
    }

    /// Lower and upper bound of the number of entries left; both exact.
    pub fn size_hint(&self) -> (r: (usize, Option<usize>))
        ensures
            r.0 == self.pending().len(),
            r.1 == Some(r.0),
    {
        let n = self.items.len();
        (n, Some(n))
    }

    /// The number of entries left, consuming the cursor.
    pub fn count(self) -> (r: usize)
        ensures
            r == self.pending().len(),
    {
        self.items.len()
    }
}

/// A cursor over a tree's values, open to change, in ascending order of
/// their keys.
pub struct ValuesMut<'a, K, V> {
    inner: IterMut<'a, K, V>,
}

impl<'a, K, V> ValuesMut<'a, K, V> {
    /// The value references not yet handed out.
    pub closed spec fn pending(self) -> Seq<&'a mut V> {
        self.inner.pending().map_values(|e: (&'a K, &'a mut V)| e.1)
    }

    /// Hands out the next value.
    pub fn next(&mut self) -> (r: Option<&'a mut V>)
        ensures
            (r is None) == (old(self).pending().len() == 0),
            (match r {
                Some(v) => *v == *old(self).pending()[0] && *final(v) == *final(old(self).pending()[0])
                    && final(self).pending() == old(self).pending().drop_first(),
                None => final(self).pending() == old(self).pending(),
            }),
    {
        match self.inner.next() {
            Some(e) => {
                assert(old(self).pending()[0] == old(self).inner.pending()[0].1);
                assert(self.pending() =~= old(self).pending().drop_first());
                let (_, v) = e;
                Some(v)
            },
            None => None,
        }
    }

    /// Lower and upper bound of the number of values left; both exact.
    pub fn size_hint(&self) -> (r: (usize, Option<usize>))
        ensures
            r.0 == self.pending().len(),
            r.1 == Some(r.0),
    {
        self.inner.size_hint()
    }
}

impl<K: OrderedKey, V> RBTree<K, V> {
    /// A cursor over the entries in key order, each value open to change;
    /// what is written through the cursor is what the tree holds afterwards.
    pub fn iter_mut(&mut self) -> (r: IterMut<'_, K, V>)
        requires
            old(self).wf(),
        ensures
            r.pending().len() == old(self).entries().len(),
            forall|i: int| 0 <= i < r.pending().len() ==> (*r.pending()[i].0, *r.pending()[i].1) == #[trigger] old(self).entries()[i],
            final(self).wf(),
            final(self).entries().len() == old(self).entries().len(),
            forall|i: int| 0 <= i < r.pending().len() ==> #[trigger] final(self).entries()[i] == (*r.pending()[i].0, *final(r.pending()[i].1)),
    {
        let mut items: Vec<(&K, &mut V)> = Vec::new();
        self.entries_mut(&mut items);
        IterMut { items }
    }

    /// A cursor over the values in key order, each open to change; what is
    /// written through the cursor is what the tree holds afterwards.
    pub fn values_mut(&mut self) -> (r: ValuesMut<'_, K, V>)
        requires
            old(self).wf(),
        ensures
            r.pending().len() == old(self).entries().len(),
            forall|i: int| 0 <= i < r.pending().len() ==> *r.pending()[i] == (#[trigger] old(self).entries()[i]).1,
            final(self).wf(),
            final(self).entries().len() == old(self).entries().len(),
            forall|i: int| 0 <= i < r.pending().len() ==> #[trigger] final(self).entries()[i] == (old(self).entries()[i].0, *final(r.pending()[i])),
    {
        let inner = self.iter_mut();
        ValuesMut { inner }
    }
}

} // verus!
