use rbtree::metrics::{MetricServer, MetricsReply};
use rbtree::rbtree::RBTree;
use std::collections::BTreeMap;

fn collect_entries(t: &RBTree<u64, u64>) -> Vec<(u64, u64)> {
    let mut out = Vec::new();
    let mut it = t.iter();
    while let Some((k, v)) = it.next() {
        out.push((*k, *v));
    }
    out
}

fn next_random(state: &mut u64) -> u64 {
    *state = state.wrapping_mul(6364136223846793005).wrapping_add(1442695040888963407);
    *state >> 33
}

#[test]
fn scenario_insert_overwrite_returns_old() {
    let mut m = RBTree::new();
    assert_eq!(m.insert(1, 2), None);
    assert_eq!(m.insert(2, 4), None);
    assert_eq!(m.insert(2, 6), Some(4));
    assert_eq!(m.len(), 2);
    assert_eq!(m.get(&1), Some(&2));
    assert_eq!(m.get(&2), Some(&6));
}

#[test]
fn scenario_ascending_insert_then_remove() {
    let mut m = RBTree::new();
    for i in 1..=100u64 {
        m.insert(i, i);
    }
    assert_eq!(m.len(), 100);
    for i in 1..=100u64 {
        assert_eq!(m.get(&i), Some(&i));
    }
    for i in 1..=100u64 {
        assert_eq!(m.remove(&i), Some(i));
        assert_eq!(m.len(), (100 - i) as usize);
    }
    assert!(m.is_empty());
}

#[test]
fn scenario_find_less_equal_below_minimum() {
    let mut m = RBTree::new();
    m.insert(1, 12);
    m.insert(2, 8);
    m.insert(5, 14);
    let (node, exact) = m.find_less_equal(&3);
    assert_eq!(node, Some((&2, &8)));
    assert!(!exact);
    let (node, exact) = m.find_less_equal(&5);
    assert_eq!(node, Some((&5, &14)));
    assert!(exact);
    let (node, exact) = m.find_less_equal(&0);
    assert_eq!(node, None);
    assert!(!exact);
    let (node, exact) = m.find_less_equal(&100);
    assert_eq!(node, Some((&5, &14)));
    assert!(!exact);
}

#[test]
fn scenario_sum_and_mask_in_order() {
    let mut m = RBTree::new();
    for k in 0..32u64 {
        m.insert(k, 2 * k);
    }
    let entries = collect_entries(&m);
    let sum: u64 = entries.iter().map(|e| e.1).sum();
    assert_eq!(sum, 992);
    let mut mask: u64 = 0;
    for e in &entries {
        mask |= 1 << e.0;
    }
    assert_eq!(mask, 0xFFFF_FFFF);
    for w in entries.windows(2) {
        assert!(w[0].0 < w[1].0);
    }
}

#[test]
fn scenario_random_against_reference_map() {
    let mut state: u64 = 42;
    let mut tree = RBTree::new();
    let mut reference = BTreeMap::new();
    for _ in 0..1000 {
        let k = next_random(&mut state) % 500;
        let v = next_random(&mut state);
        assert_eq!(tree.insert(k, v), reference.insert(k, v));
    }
    assert_eq!(tree.len(), reference.len());
    let expected: Vec<(u64, u64)> = reference.iter().map(|(k, v)| (*k, *v)).collect();
    assert_eq!(collect_entries(&tree), expected);
    for _ in 0..1000 {
        let k = next_random(&mut state) % 600;
        assert_eq!(tree.remove(&k), reference.remove(&k));
        assert_eq!(tree.len(), reference.len());
    }
    let expected: Vec<(u64, u64)> = reference.iter().map(|(k, v)| (*k, *v)).collect();
    assert_eq!(collect_entries(&tree), expected);
}

#[test]
fn law_insert_then_get_on_values() {
    let mut m = RBTree::new();
    m.insert(7u64, 70u64);
    m.insert(3, 30);
    m.insert(9, 90);
    assert_eq!(m.get(&3), Some(&30));
    assert_eq!(m.get(&7), Some(&70));
    assert_eq!(m.get(&9), Some(&90));
}

#[test]
fn law_remove_round_trip_on_values() {
    let mut m = RBTree::new();
    for k in [5u64, 1, 8, 3] {
        m.insert(k, k + 100);
    }
    let before = collect_entries(&m);
    m.insert(4, 44);
    assert_eq!(m.remove(&4), Some(44));
    assert_eq!(m.len(), 4);
    assert!(!m.contains_key(&4));
    assert_eq!(collect_entries(&m), before);
}

#[test]
fn law_clone_independence() {
    let mut a = RBTree::new();
    a.insert(1u64, 10u64);
    a.insert(2, 20);
    let mut b = a.clone();
    b.insert(3, 30);
    *b.get_mut(&1).unwrap() = 11;
    a.remove(&2);
    assert_eq!(collect_entries(&a), vec![(1, 10)]);
    assert_eq!(collect_entries(&b), vec![(1, 11), (2, 20), (3, 30)]);
}

#[test]
fn law_equality_from_any_order() {
    let a: RBTree<u64, u64> = RBTree::from_iter(vec![(3, 1), (1, 2), (2, 3)]);
    let b: RBTree<u64, u64> = RBTree::from_iter(vec![(2, 3), (3, 1), (1, 2)]);
    assert!(a.eq(&a));
    assert!(a.eq(&b));
    assert!(b.eq(&a));
    let c: RBTree<u64, u64> = RBTree::from_iter(vec![(2, 3), (3, 1), (1, 5)]);
    assert!(!a.eq(&c));
    let d: RBTree<u64, u64> = RBTree::from_iter(vec![(2, 3), (3, 1)]);
    assert!(!a.eq(&d));
    assert!(!d.eq(&a));
}

#[test]
fn law_from_iter_yields_sorted_pairs() {
    let t: RBTree<u64, u64> = RBTree::from_iter(vec![(9, 1), (4, 2), (7, 3), (1, 4)]);
    assert_eq!(collect_entries(&t), vec![(1, 4), (4, 2), (7, 3), (9, 1)]);
}

#[test]
fn from_iter_later_pair_wins() {
    let t: RBTree<u64, u64> = RBTree::from_iter(vec![(1, 1), (2, 2), (1, 3)]);
    assert_eq!(t.len(), 2);
    assert_eq!(t.get(&1), Some(&3));
}

#[test]
fn empty_tree_operations() {
    let mut m: RBTree<u64, u64> = RBTree::new();
    assert_eq!(m.remove(&1), None);
    assert_eq!(m.get(&1), None);
    assert_eq!(m.pop_first(), None);
    assert_eq!(m.pop_last(), None);
    assert_eq!(m.get_first(), None);
    assert_eq!(m.get_last(), None);
    assert_eq!(m.get_first_mut(), None);
    assert_eq!(m.get_last_mut(), None);
    assert_eq!(m.find_less_equal(&1), (None, false));
    assert_eq!(m.len(), 0);
    assert!(m.is_empty());
    assert_eq!(m.iter().next_back(), None);
    assert_eq!(m.keys().next(), None);
    assert_eq!(m.values().next(), None);
    assert_eq!(m.values_mut().next(), None);
    assert_eq!(m.iter().size_hint(), (0, Some(0)));
}

#[test]
fn single_node_insert_and_remove() {
    let mut m = RBTree::new();
    m.insert(5u64, 50u64);
    assert_eq!(m.len(), 1);
    assert_eq!(m.get_first(), Some((&5, &50)));
    assert_eq!(m.get_last(), Some((&5, &50)));
    assert_eq!(m.remove(&5), Some(50));
    assert!(m.is_empty());
    assert_eq!(m.len(), 0);
}

#[test]
fn both_ends_of_cursors() {
    let t: RBTree<u64, u64> = RBTree::from_iter(vec![(1, 10), (2, 20), (3, 30), (4, 40)]);
    let mut it = t.iter();
    assert_eq!(it.next(), Some((&1, &10)));
    assert_eq!(it.next_back(), Some((&4, &40)));
    assert_eq!(it.next_back(), Some((&3, &30)));
    assert_eq!(it.size_hint(), (1, Some(1)));
    assert_eq!(it.next(), Some((&2, &20)));
    assert_eq!(it.next(), None);
    assert_eq!(it.next_back(), None);

    let mut keys = t.keys();
    assert_eq!(keys.size_hint(), (4, Some(4)));
    assert_eq!(keys.next(), Some(&1));
    let mut values = t.values();
    assert_eq!(values.next(), Some(&10));
    assert_eq!(values.size_hint(), (3, Some(3)));

    let mut owned = t.clone().into_iter();
    assert_eq!(owned.size_hint(), (4, Some(4)));
    assert_eq!(owned.next_back(), Some((4, 40)));
    assert_eq!(owned.next(), Some((1, 10)));
    assert_eq!(owned.next_back(), Some((3, 30)));
    assert_eq!(owned.next(), Some((2, 20)));
    assert_eq!(owned.next(), None);
}

#[test]
fn mutable_cursors_write_through() {
    let mut t: RBTree<u64, u64> = RBTree::from_iter(vec![(1, 10), (2, 20), (3, 30)]);
    {
        let mut it = t.iter_mut();
        let (k, v) = it.next_back().unwrap();
        assert_eq!(*k, 3);
        *v = 33;
        let (k, v) = it.next().unwrap();
        assert_eq!(*k, 1);
        *v = 11;
        assert_eq!(it.size_hint(), (1, Some(1)));
    }
    {
        let (k, v) = t.get_first_mut().unwrap();
        assert_eq!(*k, 1);
        *v += 100;
    }
    {
        let (k, v) = t.get_last_mut().unwrap();
        assert_eq!(*k, 3);
        *v += 100;
    }
    assert_eq!(collect_entries(&t), vec![(1, 111), (2, 20), (3, 133)]);
}

#[test]
fn pops_drain_in_order() {
    let mut t: RBTree<u64, u64> = RBTree::from_iter(vec![(5, 0), (3, 1), (8, 2), (1, 3), (4, 4)]);
    assert_eq!(t.pop_first(), Some((1, 3)));
    assert_eq!(t.pop_last(), Some((8, 2)));
    assert_eq!(t.pop_first(), Some((3, 1)));
    assert_eq!(t.pop_first(), Some((4, 4)));
    assert_eq!(t.pop_last(), Some((5, 0)));
    assert_eq!(t.pop_last(), None);
    assert!(t.is_empty());
}

#[test]
fn other_key_types() {
    let mut a: RBTree<i64, u8> = RBTree::new();
    a.insert(-5, 1);
    a.insert(3, 2);
    assert_eq!(a.get_first(), Some((&-5, &1)));
    let mut b: RBTree<usize, u8> = RBTree::new();
    b.insert(usize::MAX, 1);
    b.insert(0, 2);
    assert_eq!(b.get_last(), Some((&usize::MAX, &1)));
    let mut c: RBTree<u32, u8> = RBTree::new();
    c.insert(7, 1);
    assert!(c.contains_key(&7));
    let mut d: RBTree<isize, u8> = RBTree::new();
    d.insert(-1, 1);
    assert_eq!(d.find_less_equal(&0), (Some((&-1, &1)), false));
}

#[test]
fn metrics_routing() {
    let s = MetricServer::new("/metrics".to_string(), "/json".to_string());
    assert_eq!(s.route(true, &"/metrics".to_string()), MetricsReply::Prometheus);
    assert_eq!(s.route(true, &"/json".to_string()), MetricsReply::Json);
    assert_eq!(s.route(true, &"/other".to_string()), MetricsReply::NotFound);
    assert_eq!(s.route(false, &"/metrics".to_string()), MetricsReply::NotFound);
}

#[test]
fn find_node_gives_key_and_value() {
    let mut m = RBTree::new();
    m.insert(4u64, 40u64);
    m.insert(2, 20);
    assert_eq!(m.find_node(&2), Some((&2, &20)));
    assert_eq!(m.find_node(&3), None);
}
