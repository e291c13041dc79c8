use rbtree::{Entry, RBTree, RBTreeNode, RBTreeNodeReservation};

fn collect(tree: &RBTree<u32>) -> Vec<(u64, u32)> {
    let mut out = Vec::new();
    let mut it = tree.iter();
    while let Some((k, v)) = it.next() {
        out.push((*k, *v));
    }
    out
}

fn tree_of(pairs: &[(u64, u32)]) -> RBTree<u32> {
    let mut tree = RBTree::new();
    for &(k, v) in pairs {
        tree.try_create_and_insert(k, v).unwrap();
    }
    tree
}

#[test]
fn three_inserts_then_overwrite_lookup_and_remove() {
    let mut tree = tree_of(&[(20, 200), (10, 100), (30, 300)]);
    assert_eq!(collect(&tree), vec![(10, 100), (20, 200), (30, 300)]);

    let displaced = tree.try_create_and_insert(10, 1000).unwrap();
    assert_eq!(displaced.unwrap().to_key_value(), (10, 100));
    assert_eq!(tree.get(10), Some(&1000));

    {
        let cursor = tree.cursor_lower_bound(25).unwrap();
        assert_eq!(cursor.current(), (&30, &300));
    }
    assert!(tree.cursor_lower_bound(35).is_none());

    assert_eq!(tree.remove(10), Some(1000));
    assert_eq!(collect(&tree), vec![(20, 200), (30, 300)]);
}

#[test]
fn remove_current_on_single_entry_empties_tree() {
    let mut tree = tree_of(&[(5, 50)]);
    let (cursor, node) = tree.cursor_front().unwrap().remove_current();
    assert!(cursor.is_none());
    assert_eq!(node.to_key_value(), (5, 50));
    assert!(tree.is_empty());
    assert_eq!(tree.get(5), None);
}

#[test]
fn insert_then_get_round_trip() {
    let mut tree = RBTree::new();
    assert!(tree.insert(RBTreeNode::new(7, 70).unwrap()).is_none());
    assert_eq!(tree.get(7), Some(&70));
    let old = tree.insert(RBTreeNode::new(7, 71).unwrap());
    assert_eq!(old.unwrap().to_key_value(), (7, 70));
    assert_eq!(tree.get(7), Some(&71));
    assert_eq!(collect(&tree), vec![(7, 71)]);
}

#[test]
fn remove_present_and_absent_keys() {
    let mut tree = tree_of(&[(1, 10), (2, 20), (3, 30)]);
    assert_eq!(tree.remove(2), Some(20));
    assert_eq!(tree.get(2), None);
    assert_eq!(tree.remove(2), None);
    assert_eq!(tree.remove(99), None);
    assert_eq!(collect(&tree), vec![(1, 10), (3, 30)]);
    assert!(tree.remove_node(4).is_none());
    let node = tree.remove_node(3).unwrap();
    assert_eq!(node.to_key_value(), (3, 30));
}

#[test]
fn reservation_is_refilled_and_reinserted() {
    let mut tree = RBTree::new();
    let reservation = RBTreeNodeReservation::new().unwrap();
    let node = reservation.into_node(4, 40);
    assert!(tree.insert(node).is_none());
    let node = tree.remove_node(4).unwrap();
    assert!(tree.is_empty());
    let reservation = node.into_reservation();
    let node = reservation.into_node(8, 80);
    assert!(tree.insert(node).is_none());
    assert_eq!(tree.get(8), Some(&80));
    assert_eq!(tree.get(4), None);
}

#[test]
fn cursor_walk_matches_iteration() {
    let keys: Vec<u64> = vec![50, 20, 80, 10, 30, 70, 90, 60, 40];
    let mut tree = RBTree::new();
    for &k in &keys {
        tree.try_create_and_insert(k, (k * 3) as u32).unwrap();
    }
    let expected = collect(&tree);
    let mut walked = Vec::new();
    let mut cursor = tree.cursor_front();
    while let Some(c) = cursor {
        let (k, v) = c.current();
        walked.push((*k, *v));
        cursor = c.move_next();
    }
    assert_eq!(walked, expected);
    assert_eq!(walked.len(), keys.len());
}

#[test]
fn backward_walk_is_reverse_order() {
    let mut tree = tree_of(&[(3, 1), (1, 2), (2, 3)]);
    let mut walked = Vec::new();
    let mut cursor = tree.cursor_back();
    while let Some(c) = cursor {
        walked.push(*c.current().0);
        cursor = c.move_prev();
    }
    assert_eq!(walked, vec![3, 2, 1]);
}

#[test]
fn many_inserts_stay_sorted() {
    let mut tree = RBTree::new();
    let mut x: u64 = 12345;
    let mut expected = std::collections::BTreeMap::new();
    for i in 0..500u32 {
        x = x.wrapping_mul(6364136223846793005).wrapping_add(1442695040888963407);
        let k = (x >> 33) % 1000;
        tree.try_create_and_insert(k, i).unwrap();
        expected.insert(k, i);
    }
    let got = collect(&tree);
    let want: Vec<(u64, u32)> = expected.into_iter().collect();
    assert_eq!(got, want);
    for w in got.windows(2) {
        assert!(w[0].0 < w[1].0);
    }
}

#[test]
fn many_removes_keep_remaining_entries() {
    let mut tree = RBTree::new();
    for k in 0..300u64 {
        tree.try_create_and_insert(k, k as u32).unwrap();
    }
    for k in (0..300u64).filter(|k| k % 3 != 0) {
        assert_eq!(tree.remove(k), Some(k as u32));
    }
    let got = collect(&tree);
    let want: Vec<(u64, u32)> = (0..300u64).filter(|k| k % 3 == 0).map(|k| (k, k as u32)).collect();
    assert_eq!(got, want);
    for k in (0..300u64).filter(|k| k % 3 == 0) {
        assert_eq!(tree.remove(k), Some(k as u32));
    }
    assert!(tree.is_empty());
}

#[test]
fn empty_tree_has_no_cursor_and_no_entries() {
    let mut tree: RBTree<u32> = RBTree::new();
    assert!(tree.is_empty());
    assert!(tree.cursor_front().is_none());
    assert!(tree.cursor_back().is_none());
    assert!(tree.cursor_lower_bound(0).is_none());
    assert!(tree.iter().next().is_none());
    assert_eq!(tree.get(0), None);
    assert!(tree.get_mut(0).is_none());
    let default_tree: RBTree<u32> = Default::default();
    assert!(default_tree.is_empty());
}

#[test]
fn largest_key_is_handled() {
    let mut tree = tree_of(&[(u64::MAX, 1), (0, 2)]);
    assert_eq!(tree.get(u64::MAX), Some(&1));
    {
        let c = tree.cursor_back().unwrap();
        assert_eq!(c.current(), (&u64::MAX, &1));
        assert!(c.peek_next().is_none());
        assert!(c.move_next().is_none());
    }
    let c = tree.cursor_lower_bound(1).unwrap();
    assert_eq!(*c.current().0, u64::MAX);
}

#[test]
fn lower_bound_prefers_exact_then_next_larger() {
    let mut tree = tree_of(&[(10, 1), (20, 2), (30, 3)]);
    assert_eq!(*tree.cursor_lower_bound(20).unwrap().current().0, 20);
    assert_eq!(*tree.cursor_lower_bound(11).unwrap().current().0, 20);
    assert_eq!(*tree.cursor_lower_bound(0).unwrap().current().0, 10);
    assert!(tree.cursor_lower_bound(31).is_none());
}

#[test]
fn get_mut_changes_value_in_place() {
    let mut tree = tree_of(&[(1, 10), (2, 20)]);
    *tree.get_mut(2).unwrap() = 22;
    assert_eq!(tree.get(2), Some(&22));
    assert_eq!(collect(&tree), vec![(1, 10), (2, 22)]);
}

#[test]
fn cursor_peeks_and_mutation() {
    let mut tree = tree_of(&[(1, 10), (2, 20), (3, 30)]);
    {
        let mut c = tree.cursor_lower_bound(2).unwrap();
        assert_eq!(c.peek_prev(), Some((&1, &10)));
        assert_eq!(c.peek_next(), Some((&3, &30)));
        *c.current_mut().1 = 21;
        *c.peek_prev_mut().unwrap().1 = 11;
        *c.peek_next_mut().unwrap().1 = 31;
        assert_eq!(c.current(), (&2, &21));
    }
    assert_eq!(collect(&tree), vec![(1, 11), (2, 21), (3, 31)]);
    {
        let mut c = tree.cursor_front().unwrap();
        assert!(c.peek_prev().is_none());
        assert!(c.peek_prev_mut().is_none());
        assert!(c.remove_prev().is_none());
    }
}

#[test]
fn cursor_removes_neighbours() {
    let mut tree = tree_of(&[(1, 10), (2, 20), (3, 30), (4, 40)]);
    {
        let mut c = tree.cursor_lower_bound(2).unwrap();
        let prev = c.remove_prev().unwrap();
        assert_eq!(prev.to_key_value(), (1, 10));
        let next = c.remove_next().unwrap();
        assert_eq!(next.to_key_value(), (3, 30));
        assert_eq!(c.current(), (&2, &20));
        assert_eq!(c.peek_next(), Some((&4, &40)));
    }
    assert_eq!(collect(&tree), vec![(2, 20), (4, 40)]);
}

#[test]
fn remove_current_moves_to_successor_or_predecessor() {
    let mut tree = tree_of(&[(1, 10), (2, 20), (3, 30)]);
    {
        let c = tree.cursor_lower_bound(2).unwrap();
        let (c, node) = c.remove_current();
        assert_eq!(node.to_key_value(), (2, 20));
        let c = c.unwrap();
        assert_eq!(c.current(), (&3, &30));
        let (c, node) = c.remove_current();
        assert_eq!(node.to_key_value(), (3, 30));
        assert_eq!(c.unwrap().current(), (&1, &10));
    }
    assert_eq!(collect(&tree), vec![(1, 10)]);
}

#[test]
fn entry_vacant_then_occupied() {
    let mut tree: RBTree<u32> = RBTree::new();
    match tree.entry(5) {
        Entry::Vacant(v) => {
            let r = RBTreeNodeReservation::new().unwrap();
            let value = v.insert(50, r);
            assert_eq!(*value, 50);
            *value = 55;
        }
        Entry::Occupied(_) => panic!("key 5 should be absent"),
    }
    assert_eq!(tree.get(5), Some(&55));
    match tree.entry(5) {
        Entry::Occupied(mut o) => {
            assert_eq!(*o.get(), 55);
            *o.get_mut() = 56;
            assert_eq!(*o.get(), 56);
            let v = o.into_mut();
            *v += 1;
        }
        Entry::Vacant(_) => panic!("key 5 should be present"),
    }
    assert_eq!(tree.get(5), Some(&57));
}

#[test]
fn occupied_entry_removal() {
    let mut tree = tree_of(&[(1, 10), (2, 20)]);
    let o = tree.find_mut(1).unwrap();
    assert_eq!(o.remove(), 10);
    assert!(tree.find_mut(1).is_none());
    let o = tree.find_mut(2).unwrap();
    assert_eq!(o.remove_node().to_key_value(), (2, 20));
    assert!(tree.is_empty());
}

#[test]
fn keys_and_values_in_order() {
    let tree = tree_of(&[(3, 30), (1, 10), (2, 20)]);
    assert_eq!(tree.keys(), vec![1, 2, 3]);
    let values: Vec<u32> = tree.values().into_iter().copied().collect();
    assert_eq!(values, vec![10, 20, 30]);
}

#[test]
fn iterator_restarts_from_the_front() {
    let tree = tree_of(&[(2, 1), (1, 2)]);
    let mut it = tree.iter();
    assert_eq!(it.next(), Some((&1, &2)));
    assert_eq!(it.next(), Some((&2, &1)));
    assert_eq!(it.next(), None);
    assert_eq!(it.next(), None);
    let mut again = tree.iter();
    assert_eq!(again.next(), Some((&1, &2)));
}

#[test]
fn mutable_iteration_changes_every_value() {
    let mut tree = tree_of(&[(2, 20), (1, 10), (3, 30)]);
    let mut seen = Vec::new();
    let mut it = tree.iter_mut();
    while let Some((k, v)) = it.next() {
        seen.push(*k);
        *v += 1;
    }
    assert_eq!(seen, vec![1, 2, 3]);
    assert_eq!(collect(&tree), vec![(1, 11), (2, 21), (3, 31)]);
    for v in tree.values_mut() {
        *v *= 2;
    }
    assert_eq!(collect(&tree), vec![(1, 22), (2, 42), (3, 62)]);
    let mut empty: RBTree<u32> = RBTree::new();
    assert!(empty.iter_mut().next().is_none());
    assert!(empty.values_mut().is_empty());
}

#[test]
fn sequential_keys_insert_and_remove_in_bulk() {
    let mut tree = RBTree::new();
    for k in 0..20000u64 {
        assert!(tree.try_create_and_insert(k, (k % 7) as u32).unwrap().is_none());
    }
    for k in (0..20000u64).rev().step_by(2) {
        assert_eq!(tree.remove(k), Some((k % 7) as u32));
    }
    assert_eq!(tree.keys().len(), 10000);
    assert_eq!(tree.keys()[0], 0);
    assert_eq!(tree.keys()[9999], 19998);
    assert_eq!(tree.get(19999), None);
    assert_eq!(tree.get(19998), Some(&((19998u64 % 7) as u32)));
}
