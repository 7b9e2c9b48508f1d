use vstd::prelude::*;

use vstd::std_specs::cmp::PartialEqSpec;

use crate::key::OrderedKey;
use crate::rbtree::{insert_all, lemma_sorted_unique, same_entries, RBTree};

verus! {

/// No two pairs of `s` share a key.
pub open spec fn unique_keys<K, V>(s: Seq<(K, V)>) -> bool {
    forall|i: int, j: int| 0 <= i < j < s.len() ==> #[trigger] s[i].0 != #[trigger] s[j].0
}

/// Inserting pairs with distinct keys: a key is present afterwards exactly
/// when it was before or one of the pairs has it, and a pair's value is what
/// its key maps to.
#[verifier::rlimit(50)]
pub proof fn lemma_insert_all_unique<K, V>(m: Map<K, V>, s: Seq<(K, V)>)
    requires
        unique_keys(s),
    ensures
        forall|k: K| #[trigger] insert_all(m, s).contains_key(k) == (m.contains_key(k) || exists|i: int| 0 <= i < s.len() && s[i].0 == k),
        forall|i: int| 0 <= i < s.len() ==> #[trigger] insert_all(m, s)[s[i].0] == s[i].1,
        forall|k: K| m.contains_key(k) && !(exists|i: int| 0 <= i < s.len() && s[i].0 == k) ==> #[trigger] insert_all(m, s)[k] == m[k],
    decreases s.len(),
{
    if s.len() > 0 {
        let m2 = m.insert(s[0].0, s[0].1);
        let rest = s.drop_first();
        assert forall|i: int, j: int| 0 <= i < j < rest.len() implies #[trigger] rest[i].0 != #[trigger] rest[j].0 by {
            assert(rest[i] == s[i + 1] && rest[j] == s[j + 1]);
        }
        lemma_insert_all_unique(m2, rest);
        let r = insert_all(m, s);
        assert(r == insert_all(m2, rest));
        assert forall|k: K| #[trigger] r.contains_key(k) == (m.contains_key(k) || exists|i: int| 0 <= i < s.len() && s[i].0 == k) by {
            if exists|i: int| 0 <= i < s.len() && s[i].0 == k {
                let i = choose|i: int| 0 <= i < s.len() && s[i].0 == k;
                if i > 0 {
                    assert(rest[i - 1] == s[i]);
                }
            }
            if exists|i: int| 0 <= i < rest.len() && rest[i].0 == k {
                let i = choose|i: int| 0 <= i < rest.len() && rest[i].0 == k;
                assert(rest[i] == s[i + 1]);
            }
        }
        assert forall|i: int| 0 <= i < s.len() implies #[trigger] r[s[i].0] == s[i].1 by {
            if i > 0 {
                assert(rest[i - 1] == s[i]);
                assert(r[rest[i - 1].0] == rest[i - 1].1);
            } else {
                assert forall|j: int| 0 <= j < rest.len() implies rest[j].0 != s[0].0 by {
                    assert(rest[j] == s[j + 1]);
                }
                assert(m2.contains_key(s[0].0));
            }
        }
        assert forall|k: K| m.contains_key(k) && !(exists|i: int| 0 <= i < s.len() && s[i].0 == k) implies #[trigger] r[k] == m[k] by {
            assert(s[0].0 != k);
            if exists|i: int| 0 <= i < rest.len() && rest[i].0 == k {
                let i = choose|i: int| 0 <= i < rest.len() && rest[i].0 == k;
                assert(rest[i] == s[i + 1]);
            }
        }
    }
}

/// Between operations a tree keeps the red-black rules: no red node has a
/// red child, every path from the root down to an absent link meets the same
/// number of black nodes, the root is black or absent, and the stored length
/// is the number of entries met in order.
#[verifier::rlimit(50)]
pub proof fn law_red_black<K: OrderedKey, V>(t: RBTree<K, V>)
    requires
        t.wf(),
    ensures
        t.balanced(),
        !t.root_is_red(),
        t.entries().len() == t@.dom().len(),
{
    t.lemma_wf_colors();
    t.lemma_entries();
    let e = t.entries();
    assert(e.map_values(|p: (K, V)| p.0).to_set() =~= t@.dom()) by {
        assert forall|k: K| #[trigger] t@.dom().contains(k) implies e.map_values(|p: (K, V)| p.0).contains(k) by {
            let i = choose|i: int| 0 <= i < e.len() && #[trigger] e[i].0 == k;
            assert(e.map_values(|p: (K, V)| p.0)[i] == k);
        }
    }
    let ks = e.map_values(|p: (K, V)| p.0);
    assert(ks.no_duplicates()) by {
        assert forall|i: int, j: int| 0 <= i < ks.len() && 0 <= j < ks.len() && i != j implies ks[i] != ks[j] by {
            if i < j {
                assert(e[i].0.rank() < e[j].0.rank());
            } else {
                assert(e[j].0.rank() < e[i].0.rank());
            }
        }
    }
    ks.unique_seq_to_set();
}

/// Well-formed trees that hold the same map present the same entries in the
/// same order, however they were built.
pub proof fn law_same_map_same_entries<K: OrderedKey, V>(t1: RBTree<K, V>, t2: RBTree<K, V>)
    requires
        t1.wf(),
        t2.wf(),
        t1@ == t2@,
    ensures
        t1.entries() == t2.entries(),
{
    t1.lemma_entries();
    t2.lemma_entries();
    lemma_sorted_unique(t1.entries(), t2.entries());
}

/// After `insert(k, v)`, looking up `k` gives `v`.
pub proof fn law_insert_then_get<K: OrderedKey, V>(before: RBTree<K, V>, after: RBTree<K, V>, k: K, v: V)
    requires
        before.wf(),
        after@ == before@.insert(k, v),
    ensures
        after@.contains_key(k),
        after@[k] == v,
{
}

/// `insert(k, v2)` after `insert(k, v1)` returns `v1`, leaves `v2` under `k`,
/// and does not change the length.
pub proof fn law_insert_overwrite<K: OrderedKey, V>(
    t0: RBTree<K, V>,
    t1: RBTree<K, V>,
    t2: RBTree<K, V>,
    k: K,
    v1: V,
    v2: V,
    r2: Option<V>,
)
    requires
        t0.wf(),
        t1@ == t0@.insert(k, v1),
        t2@ == t1@.insert(k, v2),
        r2 == (if t1@.contains_key(k) { Some(t1@[k]) } else { None }),
        t2.entries().len() == t1.entries().len() + if t1@.contains_key(k) { 0int } else { 1int },
    ensures
        r2 == Some(v1),
        t2@.contains_key(k) && t2@[k] == v2,
        t2.entries().len() == t1.entries().len(),
{
}

/// `insert(k, v)` then `remove(k)` on a tree without `k` returns `v` and
/// gives back the length and the map that the tree had.
pub proof fn law_remove_round_trip<K: OrderedKey, V>(
    t0: RBTree<K, V>,
    t1: RBTree<K, V>,
    t2: RBTree<K, V>,
    k: K,
    v: V,
    r: Option<V>,
)
    requires
        t0.wf(),
        !t0@.contains_key(k),
        t1@ == t0@.insert(k, v),
        t1.entries().len() == t0.entries().len() + if t0@.contains_key(k) { 0int } else { 1int },
        t2@ == t1@.remove(k),
        r == (if t1@.contains_key(k) { Some(t1@[k]) } else { None }),
        t2.entries().len() == t1.entries().len() - if t1@.contains_key(k) { 1int } else { 0int },
    ensures
        r == Some(v),
        t2.entries().len() == t0.entries().len(),
        !t2@.contains_key(k),
        t2@ == t0@,
{
    assert(t2@ =~= t0@);
}

/// A tree holds the same entries as itself, whenever `V`'s `==` is reflexive.
pub proof fn law_eq_reflexive<K: OrderedKey, V: PartialEq>(t: RBTree<K, V>)
    requires
        t.wf(),
        forall|v: V| #[trigger] v.eq_spec(&v),
    ensures
        same_entries(t@, t@),
{
}

/// Two trees built from the same pairs with distinct keys, in any order,
/// hold the same map.
#[verifier::rlimit(50)]
pub proof fn law_same_pairs_same_map<K: OrderedKey, V>(s1: Seq<(K, V)>, s2: Seq<(K, V)>)
    requires
        unique_keys(s1),
        unique_keys(s2),
        forall|p: (K, V)| s1.contains(p) == s2.contains(p),
    ensures
        insert_all(Map::<K, V>::empty(), s1) == insert_all(Map::<K, V>::empty(), s2),
{
    let e = Map::<K, V>::empty();
    lemma_insert_all_unique(e, s1);
    lemma_insert_all_unique(e, s2);
    let m1 = insert_all(e, s1);
    let m2 = insert_all(e, s2);
    assert forall|k: K| #[trigger] m1.contains_key(k) implies m2.contains_key(k) && m1[k] == m2[k] by {
        let i = choose|i: int| 0 <= i < s1.len() && s1[i].0 == k;
        assert(s1.contains(s1[i]));
        let j = choose|j: int| 0 <= j < s2.len() && s2[j] == s1[i];
        assert(m1[s1[i].0] == s1[i].1);
        assert(m2[s2[j].0] == s2[j].1);
    }
    assert forall|k: K| #[trigger] m2.contains_key(k) implies m1.contains_key(k) by {
        let j = choose|j: int| 0 <= j < s2.len() && s2[j].0 == k;
        assert(s2.contains(s2[j]));
        let i = choose|i: int| 0 <= i < s1.len() && s1[i] == s2[j];
        assert(0 <= i < s1.len() && s1[i].0 == k);
    }
    assert(m1 =~= m2);
}

/// The entries of a tree built from pairs with distinct keys are those pairs,
/// each once, in strictly ascending key order.
#[verifier::rlimit(50)]
pub proof fn law_built_entries_sorted<K: OrderedKey, V>(s: Seq<(K, V)>, t: RBTree<K, V>)
    requires
        unique_keys(s),
        t.wf(),
        t@ == insert_all(Map::<K, V>::empty(), s),
    ensures
        forall|i: int, j: int| 0 <= i < j < t.entries().len() ==> #[trigger] t.entries()[i].0.rank() < #[trigger] t.entries()[j].0.rank(),
        forall|p: (K, V)| t.entries().contains(p) == s.contains(p),
        t.entries().len() == s.len(),
{
    let e = t.entries();
    t.lemma_entries();
    lemma_insert_all_unique(Map::<K, V>::empty(), s);
    assert forall|p: (K, V)| e.contains(p) implies s.contains(p) by {
        let i = choose|i: int| 0 <= i < e.len() && e[i] == p;
        assert(t@.contains_key(e[i].0));
        let j = choose|j: int| 0 <= j < s.len() && s[j].0 == p.0;
        assert(t@[s[j].0] == s[j].1);
        assert(s[j] == p);
    }
    assert forall|p: (K, V)| s.contains(p) implies e.contains(p) by {
        let j = choose|j: int| 0 <= j < s.len() && s[j] == p;
        assert(t@.contains_key(s[j].0));
        assert(t@[s[j].0] == s[j].1);
        let i = choose|i: int| 0 <= i < e.len() && #[trigger] e[i].0 == p.0;
        assert(t@.contains_key(e[i].0));
        assert(e[i] == p);
    }
    assert(e.no_duplicates()) by {
        assert forall|i: int, j: int| 0 <= i < e.len() && 0 <= j < e.len() && i != j implies e[i] != e[j] by {
            if i < j {
                assert(e[i].0.rank() < e[j].0.rank());
            } else {
                assert(e[j].0.rank() < e[i].0.rank());
            }
        }
    }
    assert(s.no_duplicates()) by {
        assert forall|i: int, j: int| 0 <= i < s.len() && 0 <= j < s.len() && i != j implies s[i] != s[j] by {
            if i < j {
                assert(s[i].0 != s[j].0);
            } else {
                assert(s[j].0 != s[i].0);
            }
        }
    }
    e.unique_seq_to_set();
    s.unique_seq_to_set();
    assert(e.to_set() =~= s.to_set());
}

} // verus!
