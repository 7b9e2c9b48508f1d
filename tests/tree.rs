use rbtree::rbtree::RBTree;

#[test]
fn test_insert() {
    let mut m = RBTree::new();
    assert_eq!(m.len(), 0);
    m.insert(1, 2);
    assert_eq!(m.len(), 1);
    m.insert(2, 4);
    assert_eq!(m.len(), 2);
    m.insert(2, 6);
    assert_eq!(m.len(), 2);
    assert_eq!(*m.get(&1).unwrap(), 2);
    assert_eq!(*m.get(&2).unwrap(), 6);
}

#[test]
fn test_clone() {
    let mut m = RBTree::new();
    assert_eq!(m.len(), 0);
    m.insert(1, 2);
    assert_eq!(m.len(), 1);
    m.insert(2, 4);
    assert_eq!(m.len(), 2);
    let m2 = m.clone();
    m.clear();
    assert_eq!(*m2.get(&1).unwrap(), 2);
    assert_eq!(*m2.get(&2).unwrap(), 4);
    assert_eq!(m2.len(), 2);
}

#[test]
fn test_empty_remove() {
    let mut m: RBTree<isize, bool> = RBTree::new();
    assert_eq!(m.remove(&0), None);
}

#[test]
fn test_empty_iter() {
    let mut m: RBTree<isize, bool> = RBTree::new();
    assert_eq!(m.iter().next(), None);
    assert_eq!(m.iter_mut().next(), None);
    assert_eq!(m.len(), 0);
    assert!(m.is_empty());
    assert_eq!(m.into_iter().next(), None);
}

#[test]
fn test_lots_of_insertions() {
    let mut m = RBTree::new();

    for _ in 0..10 {
        assert!(m.is_empty());

        for i in 1..101 {
            m.insert(i, i);

            for j in 1..i + 1 {
                let r = m.get(&j);
                assert_eq!(r, Some(&j));
            }

            for j in i + 1..101 {
                let r = m.get(&j);
                assert_eq!(r, None);
            }
        }

        for i in 101..201 {
            assert!(!m.contains_key(&i));
        }

        // remove forwards
        for i in 1..101 {
            assert!(m.remove(&i).is_some());

            for j in 1..i + 1 {
                assert!(!m.contains_key(&j));
            }

            for j in i + 1..101 {
                assert!(m.contains_key(&j));
            }
        }

        for i in 1..101 {
            assert!(!m.contains_key(&i));
        }

        for i in 1..101 {
            m.insert(i, i);
        }

        // remove backwards
        for i in (1..101).rev() {
            assert!(m.remove(&i).is_some());

            for j in i..101 {
                assert!(!m.contains_key(&j));
            }

            for j in 1..i {
                assert!(m.contains_key(&j));
            }
        }
    }
}

#[test]
fn test_find_mut() {
    let mut m = RBTree::new();
    assert_eq!(m.get_mut(&5), None);
    m.insert(1, 12);
    m.insert(2, 8);
    m.insert(5, 14);
    let new = 100;
    match m.get_mut(&5) {
        None => panic!(),
        Some(x) => *x = new,
    }
    assert_eq!(m.get(&5), Some(&new));
}

#[test]
fn test_find_less_eqaul() {
    let mut m = RBTree::new();
    let (node, found) = m.find_less_equal(&5);
    assert!(node.is_none());
    assert_eq!(found, false);
    m.insert(1, 12);
    m.insert(2, 8);
    m.insert(5, 14);
    let (node, found) = m.find_less_equal(&3);
    assert_eq!(*node.unwrap().0, 2);
    assert_eq!(found, false);

    let (node, found) = m.find_less_equal(&5);
    assert_eq!(*node.unwrap().0, 5);
    assert_eq!(found, true);
}

#[test]
fn test_remove() {
    let mut m = RBTree::new();
    m.insert(1, 2);
    assert_eq!(*m.get(&1).unwrap(), 2);
    m.insert(5, 3);
    assert_eq!(*m.get(&5).unwrap(), 3);
    m.insert(9, 4);
    assert_eq!(*m.get(&1).unwrap(), 2);
    assert_eq!(*m.get(&5).unwrap(), 3);
    assert_eq!(*m.get(&9).unwrap(), 4);
    assert_eq!(m.remove(&1).unwrap(), 2);
    assert_eq!(m.remove(&5).unwrap(), 3);
    assert_eq!(m.remove(&9).unwrap(), 4);
    assert_eq!(m.remove(&3), None);
    assert_eq!(m.remove(&9), None);
    assert_eq!(m.len(), 0);
}

#[test]
fn test_is_empty() {
    let mut m = RBTree::new();
    m.insert(1, 2);
    assert!(!m.is_empty());
    assert!(m.remove(&1).is_some());
    assert!(m.is_empty());
}

#[test]
fn test_pop() {
    let mut m = RBTree::new();
    m.insert(2, 4);
    m.insert(1, 2);
    m.insert(3, 6);
    assert_eq!(m.len(), 3);
    assert_eq!(m.pop_first(), Some((1, 2)));
    assert_eq!(m.len(), 2);
    assert_eq!(m.pop_last(), Some((3, 6)));
    assert_eq!(m.len(), 1);
    assert_eq!(m.get_first(), Some((&2, &4)));
    assert_eq!(m.get_last(), Some((&2, &4)));
}

#[test]
fn test_iterate() {
    let mut m = RBTree::new();
    for i in 0..32 {
        m.insert(i, i * 2);
    }
    assert_eq!(m.len(), 32);

    let mut observed: u32 = 0;

    let mut it = m.iter();
    while let Some((k, v)) = it.next() {
        assert_eq!(*v, *k * 2);
        observed |= 1 << *k;
    }
    assert_eq!(observed, 0xFFFF_FFFF);
}

#[test]
fn test_keys() {
    let vec = vec![(1, 'a'), (2, 'b'), (3, 'c')];
    let map: RBTree<_, _> = RBTree::from_iter(vec);
    let mut keys: Vec<i32> = Vec::new();
    let mut it = map.keys();
    while let Some(k) = it.next() {
        keys.push(*k);
    }
    assert_eq!(keys.len(), 3);
    assert!(keys.contains(&1));
    assert!(keys.contains(&2));
    assert!(keys.contains(&3));
}

#[test]
fn test_values() {
    let vec = vec![(1, 'a'), (2, 'b'), (3, 'c')];
    let map: RBTree<_, _> = RBTree::from_iter(vec);
    let mut values: Vec<char> = Vec::new();
    let mut it = map.values();
    while let Some(v) = it.next() {
        values.push(*v);
    }
    assert_eq!(values.len(), 3);
    assert!(values.contains(&'a'));
    assert!(values.contains(&'b'));
    assert!(values.contains(&'c'));
}

#[test]
fn test_values_mut() {
    let vec = vec![(1, 1), (2, 2), (3, 3)];
    let mut map: RBTree<_, _> = RBTree::from_iter(vec);
    let mut it = map.values_mut();
    while let Some(value) = it.next() {
        *value = (*value) * 2
    }
    let mut values: Vec<i32> = Vec::new();
    let mut it = map.values();
    while let Some(v) = it.next() {
        values.push(*v);
    }
    assert_eq!(values.len(), 3);
    assert!(values.contains(&2));
    assert!(values.contains(&4));
    assert!(values.contains(&6));
}

#[test]
fn test_find() {
    let mut m = RBTree::new();
    assert!(m.get(&1).is_none());
    m.insert(1, 2);
    match m.get(&1) {
        None => panic!(),
        Some(v) => assert_eq!(*v, 2),
    }
}

#[test]
fn test_eq() {
    let mut m1 = RBTree::new();
    m1.insert(1, 2);
    m1.insert(2, 3);
    m1.insert(3, 4);

    let mut m2 = RBTree::new();
    m2.insert(1, 2);
    m2.insert(2, 3);

    assert!(!m1.eq(&m2));

    m2.insert(3, 4);

    assert!(m1.eq(&m2));
}

#[test]
fn test_from_iter() {
    let xs = [(1, 1), (2, 2), (3, 3), (4, 4), (5, 5), (6, 6)];

    let map: RBTree<_, _> = RBTree::from_iter(xs.to_vec());

    for &(k, v) in &xs {
        assert_eq!(map.get(&k), Some(&v));
    }
}

#[test]
fn test_size_hint() {
    let xs = [(1, 1), (2, 2), (3, 3), (4, 4), (5, 5), (6, 6)];

    let map: RBTree<_, _> = RBTree::from_iter(xs.to_vec());

    let mut iter = map.iter();

    for _ in 0..3 {
        iter.next();
    }

    assert_eq!(iter.size_hint(), (3, Some(3)));
}

#[test]
fn test_iter_len() {
    let xs = [(1, 1), (2, 2), (3, 3), (4, 4), (5, 5), (6, 6)];

    let map: RBTree<_, _> = RBTree::from_iter(xs.to_vec());

    let mut iter = map.iter();

    for _ in 0..3 {
        iter.next();
    }

    assert_eq!(iter.count(), 3);
}

#[test]
fn test_mut_size_hint() {
    let xs = [(1, 1), (2, 2), (3, 3), (4, 4), (5, 5), (6, 6)];

    let mut map: RBTree<_, _> = RBTree::from_iter(xs.to_vec());

    let mut iter = map.iter_mut();

    for _ in 0..3 {
        iter.next();
    }

    assert_eq!(iter.size_hint(), (3, Some(3)));
}

#[test]
fn test_iter_mut_len() {
    let xs = [(1, 1), (2, 2), (3, 3), (4, 4), (5, 5), (6, 6)];

    let mut map: RBTree<_, _> = RBTree::from_iter(xs.to_vec());

    let mut iter = map.iter_mut();

    for _ in 0..3 {
        iter.next();
    }

    assert_eq!(iter.count(), 3);
}

#[test]
fn test_index() {
    let mut map = RBTree::new();

    map.insert(1, 2);
    map.insert(2, 1);
    map.insert(3, 4);

    assert_eq!(*map.index(&2), 1);
}

#[test]
#[should_panic]
fn test_index_nonexistent() {
    let mut map = RBTree::new();

    map.insert(1, 2);
    map.insert(2, 1);
    map.insert(3, 4);

    map.index(&4);
}

#[test]
fn test_extend_iter() {
    let mut a = RBTree::new();
    a.insert(1, "one");
    let mut b = RBTree::new();
    b.insert(2, "two");
    b.insert(3, "three");

    let mut rest = Vec::new();
    let mut it = b.into_iter();
    while let Some(p) = it.next() {
        rest.push(p);
    }
    a.extend(rest);

    assert_eq!(a.len(), 3);
    assert_eq!(*a.index(&1), "one");
    assert_eq!(*a.index(&2), "two");
    assert_eq!(*a.index(&3), "three");
}
