use softheap::pairing::{Pairing, Pool, SoftHeap};

fn node<const N: usize>(item: u64, count: usize, children: Vec<Pairing<N, u64>>) -> Pairing<N, u64> {
    Pairing { key: Pool { item, count }, children }
}

fn leaf<const N: usize>(item: u64) -> Pairing<N, u64> {
    node(item, 0, vec![])
}

#[test]
fn pool_new_is_empty() {
    let p = Pool::new(7u64);
    assert_eq!(p, Pool { item: 7, count: 0 });
}

#[test]
fn pool_delete_one_on_empty_pool_is_none() {
    assert_eq!(Pool::new(7u64).delete_one(), None);
}

#[test]
fn pool_delete_one_decrements() {
    let p = Pool { item: 7u64, count: 2 };
    assert_eq!(p.delete_one(), Some(Pool { item: 7, count: 1 }));
}

#[test]
fn pool_add_to_pool_adds() {
    let p = Pool { item: 7u64, count: 2 }.add_to_pool(5);
    assert_eq!(p, Pool { item: 7, count: 7 });
}

#[test]
fn pairing_new_is_single_node() {
    let p: Pairing<32, u64> = Pairing::new(4);
    assert_eq!(p, leaf(4));
    assert_eq!(p.count_corrupted(), 0);
    assert_eq!(p.count_uncorrupted(), 1);
}

#[test]
fn pairing_from_pool_has_no_children() {
    let p: Pairing<32, u64> = Pairing::from(Pool { item: 4, count: 3 });
    assert_eq!(p, node(4, 3, vec![]));
}

#[test]
fn meld_puts_smaller_root_on_top() {
    let a: Pairing<32, u64> = leaf(3);
    assert_eq!(a.meld(leaf(5)), node(3, 0, vec![leaf(5)]));
    let b: Pairing<32, u64> = leaf(5);
    assert_eq!(b.meld(leaf(3)), node(3, 0, vec![leaf(5)]));
}

#[test]
fn meld_on_tie_puts_other_on_top() {
    let a: Pairing<32, u64> = node(4, 1, vec![]);
    let b: Pairing<32, u64> = node(4, 2, vec![]);
    assert_eq!(a.meld(b), node(4, 2, vec![node(4, 1, vec![])]));
}

#[test]
fn meld_appends_as_last_child() {
    let a: Pairing<32, u64> = node(1, 0, vec![leaf(2)]);
    let b: Pairing<32, u64> = node(3, 0, vec![leaf(4)]);
    assert_eq!(a.meld(b), node(1, 0, vec![leaf(2), node(3, 0, vec![leaf(4)])]));
}

#[test]
fn insert_links_a_new_node() {
    let p: Pairing<32, u64> = leaf(5);
    let p = p.insert(3).insert(4);
    assert_eq!(p, node(3, 0, vec![leaf(5), leaf(4)]));
}

#[test]
fn corrupt_leaf_is_unchanged() {
    let p: Pairing<32, u64> = node(7, 2, vec![]);
    let mut corrupted = vec![];
    assert_eq!(p.corrupt(&mut corrupted), node(7, 2, vec![]));
    assert!(corrupted.is_empty());
}

#[test]
fn corrupt_hands_out_root_and_moves_pool() {
    let p: Pairing<32, u64> = node(1, 3, vec![node(4, 2, vec![]), leaf(6)]);
    let mut corrupted = vec![9];
    assert_eq!(p.corrupt(&mut corrupted), node(4, 5, vec![leaf(6)]));
    assert_eq!(corrupted, vec![9, 1]);
}

#[test]
fn merge_children_of_nothing_is_none() {
    let mut corrupted = vec![];
    assert_eq!(Pairing::<32, u64>::merge_children(vec![], &mut corrupted), None);
    assert!(corrupted.is_empty());
}

#[test]
fn merge_children_of_one_is_that_one() {
    let mut corrupted = vec![];
    let r = Pairing::<32, u64>::merge_children(vec![node(2, 1, vec![leaf(3)])], &mut corrupted);
    assert_eq!(r, Some(node(2, 1, vec![leaf(3)])));
    assert!(corrupted.is_empty());
}

#[test]
fn merge_children_is_multipass() {
    let mut corrupted = vec![];
    let items: Vec<Pairing<32, u64>> = vec![leaf(5), leaf(3), leaf(8), leaf(1)];
    let r = Pairing::merge_children(items, &mut corrupted);
    assert_eq!(r, Some(node(1, 0, vec![leaf(8), node(3, 0, vec![leaf(5)])])));
    assert!(corrupted.is_empty());
}

#[test]
fn merge_children_corrupts_at_the_level() {
    let mut corrupted = vec![];
    let items: Vec<Pairing<0, u64>> = vec![leaf(5), leaf(3), leaf(8)];
    let r = Pairing::merge_children(items, &mut corrupted);
    assert_eq!(r, Some(node(5, 0, vec![leaf(8)])));
    assert_eq!(corrupted, vec![3]);
}

#[test]
fn delete_min_with_pool_decrements_pool() {
    let p: Pairing<32, u64> = node(2, 1, vec![leaf(5)]);
    let (r, corrupted) = p.delete_min();
    assert_eq!(r, Some(node(2, 0, vec![leaf(5)])));
    assert!(corrupted.is_empty());
}

#[test]
fn delete_min_of_single_node_is_none() {
    let p: Pairing<32, u64> = leaf(2);
    let (r, corrupted) = p.delete_min();
    assert_eq!(r, None);
    assert!(corrupted.is_empty());
}

#[test]
fn delete_min_merges_children() {
    let p: Pairing<32, u64> = node(0, 0, vec![leaf(5), leaf(3), leaf(8), leaf(1)]);
    let (r, corrupted) = p.delete_min();
    assert_eq!(r, Some(node(1, 0, vec![leaf(8), node(3, 0, vec![leaf(5)])])));
    assert!(corrupted.is_empty());
}

#[test]
fn check_heap_property_accepts_heap() {
    let p: Pairing<32, u64> = node(1, 0, vec![leaf(1), node(2, 0, vec![leaf(3)])]);
    assert!(p.check_heap_property());
}

#[test]
fn check_heap_property_rejects_small_child() {
    let p: Pairing<32, u64> = node(2, 0, vec![leaf(3), leaf(1)]);
    assert!(!p.check_heap_property());
}

#[test]
fn check_heap_property_rejects_deep_violation() {
    let p: Pairing<32, u64> = node(1, 0, vec![node(4, 0, vec![leaf(2)])]);
    assert!(!p.check_heap_property());
}

#[test]
fn counts_add_over_the_tree() {
    let p: Pairing<32, u64> =
        node(1, 2, vec![node(3, 4, vec![]), node(5, 0, vec![node(6, 1, vec![])])]);
    assert_eq!(p.count_corrupted(), 7);
    assert_eq!(p.count_uncorrupted(), 4);
}

#[test]
fn vec_from_pairing_is_pre_order() {
    let p: Pairing<32, u64> = node(0, 0, vec![node(1, 0, vec![leaf(3)]), leaf(2)]);
    assert_eq!(Vec::from(p), vec![0, 1, 3, 2]);
    let q: Pairing<1, u64> = node(1, 0, vec![node(2, 0, vec![leaf(3)]), leaf(4)]);
    assert_eq!(Vec::from(q), vec![1, 2, 3, 4]);
}

#[test]
fn merge_children_of_few_trees_needs_no_heap_order() {
    let mut corrupted = vec![];
    let r = Pairing::<32, u64>::merge_children(vec![node(3, 0, vec![leaf(1)])], &mut corrupted);
    assert_eq!(r, Some(node(3, 0, vec![leaf(1)])));
    assert!(corrupted.is_empty());
    let p: Pairing<32, u64> = node(0, 0, vec![node(3, 0, vec![leaf(1)]), leaf(2)]);
    let (r, corrupted) = p.delete_min();
    assert_eq!(r, Some(node(2, 0, vec![node(3, 0, vec![leaf(1)])])));
    assert!(corrupted.is_empty());
}

#[test]
fn law_merge_of_few_trees_corrupts_nothing() {
    let mut corrupted = vec![];
    let items: Vec<Pairing<2, u64>> = vec![leaf(6), leaf(4), leaf(9)];
    let r = Pairing::merge_children(items, &mut corrupted).unwrap();
    assert!(corrupted.is_empty());
    assert_eq!(r.key.item, 4);
    assert_eq!(r, node(4, 0, vec![leaf(6), leaf(9)]));
}

#[test]
fn pairing_clone_is_equal() {
    let p: Pairing<32, u64> = node(0, 2, vec![node(1, 0, vec![leaf(3)]), leaf(2)]);
    assert_eq!(p.clone(), p);
}

fn heap_of<const N: usize>(items: &[u64]) -> SoftHeap<N, u64> {
    let mut h = SoftHeap::default();
    for &x in items {
        h = h.insert(x);
    }
    h
}

#[test]
fn soft_heap_default_is_empty() {
    let h: SoftHeap<32, u64> = SoftHeap::default();
    assert_eq!(h.root, None);
    assert_eq!(h.count_corrupted(), 0);
    assert_eq!(h.count_uncorrupted(), 0);
    assert_eq!(Vec::from(h), Vec::<u64>::new());
}

#[test]
fn soft_heap_delete_min_of_empty() {
    let h: SoftHeap<32, u64> = SoftHeap::default();
    let (h, corrupted) = h.delete_min();
    assert_eq!(h.root, None);
    assert!(corrupted.is_empty());
}

#[test]
fn soft_heap_insert_builds_pairing() {
    let h: SoftHeap<32, u64> = heap_of(&[5, 3, 8, 1, 9, 2, 7, 4, 6, 0]);
    assert_eq!(h.count_uncorrupted(), 10);
    assert_eq!(h.count_corrupted(), 0);
    assert_eq!(Vec::from(h.clone()), vec![0, 1, 3, 5, 8, 9, 2, 7, 4, 6]);
    assert!(h.root.as_ref().unwrap().check_heap_property());
}

#[test]
fn soft_heap_delete_min_sequence_corrupting_every_link() {
    let mut h: SoftHeap<0, u64> = heap_of(&[5, 3, 8, 1, 9, 2, 7, 4, 6, 0]);
    let expected: Vec<(Vec<u64>, Vec<u64>)> = vec![
        (vec![1, 3, 5, 8, 9, 2, 7, 4, 6], vec![]),
        (vec![6, 7, 8, 9], vec![5, 3, 2, 4]),
        (vec![7, 8, 9], vec![]),
        (vec![8, 9], vec![]),
        (vec![9], vec![]),
        (vec![], vec![]),
    ];
    for (items, corrupted_expected) in expected {
        let (next, corrupted) = h.delete_min();
        h = next;
        assert_eq!(Vec::from(h.clone()), items);
        assert_eq!(corrupted, corrupted_expected);
    }
    assert_eq!(h.root, None);
}

#[test]
fn soft_heap_delete_min_sequence_corrupting_second_level() {
    let mut h: SoftHeap<1, u64> = heap_of(&[5, 3, 8, 1, 9, 2, 7, 4, 6, 0]);
    let expected: Vec<(Vec<u64>, Vec<u64>)> = vec![
        (vec![1, 3, 5, 8, 9, 2, 7, 4, 6], vec![]),
        (vec![3, 5, 8, 9, 7, 4, 6], vec![2]),
        (vec![5, 8, 6, 7, 9], vec![4]),
        (vec![7, 9, 8], vec![6]),
        (vec![8, 9], vec![]),
        (vec![9], vec![]),
        (vec![], vec![]),
    ];
    for (items, corrupted_expected) in expected {
        let (next, corrupted) = h.delete_min();
        h = next;
        assert_eq!(Vec::from(h.clone()), items);
        assert_eq!(corrupted, corrupted_expected);
    }
}

#[test]
fn soft_heap_without_corruption_sorts() {
    let mut h: SoftHeap<32, u64> = heap_of(&[5, 3, 8, 1, 9, 2, 7, 4, 6, 0]);
    let mut deleted = vec![];
    while let Some(root) = &h.root {
        deleted.push(root.key.item);
        let (next, corrupted) = h.delete_min();
        assert!(corrupted.is_empty());
        h = next;
    }
    assert_eq!(deleted, vec![0, 1, 2, 3, 4, 5, 6, 7, 8, 9]);
}

#[test]
fn soft_heap_delete_min_with_pool_keeps_items() {
    let h: SoftHeap<32, u64> = SoftHeap { root: Some(node(2, 2, vec![leaf(5)])) };
    assert_eq!(h.count_corrupted(), 2);
    let (h, corrupted) = h.delete_min();
    assert!(corrupted.is_empty());
    assert_eq!(h.count_corrupted(), 1);
    assert_eq!(Vec::from(h), vec![2, 5]);
}

fn check_conservation<const N: usize>() {
    // A permutation of 0..101.
    let input: Vec<u64> = (0..101u64).map(|i| (i * 37) % 101).collect();
    let mut h: SoftHeap<N, u64> = SoftHeap::default();
    for &x in &input {
        h = h.insert(x);
        assert!(h.root.as_ref().unwrap().check_heap_property());
    }
    let mut gone: Vec<u64> = vec![];
    while let Some(root) = &h.root {
        let min = root.key.item;
        let before: Vec<u64> = Vec::from(h.clone());
        assert!(before.iter().all(|&x| min <= x));
        let (next, corrupted) = h.delete_min();
        h = next;
        assert!(corrupted.iter().all(|&x| min <= x));
        if let Some(r) = &h.root {
            assert!(min <= r.key.item);
        }
        assert!(h.count_uncorrupted() < before.len());
        gone.push(min);
        gone.extend(corrupted.iter().copied());
        let mut now: Vec<u64> = Vec::from(h.clone());
        assert_eq!(now.len(), h.count_uncorrupted());
        assert_eq!(h.count_corrupted(), 0);
        if let Some(r) = &h.root {
            assert!(r.check_heap_property());
        }
        let mut expected = before.clone();
        expected.retain(|x| *x != min && !corrupted.contains(x));
        now.sort();
        expected.sort();
        assert_eq!(now, expected);
    }
    gone.sort();
    let mut all = input.clone();
    all.sort();
    assert_eq!(gone, all);
}

#[test]
fn law_every_item_is_kept_deleted_or_corrupted() {
    check_conservation::<0>();
    check_conservation::<1>();
    check_conservation::<2>();
    check_conservation::<3>();
    check_conservation::<32>();
}

#[test]
fn law_built_heap_keeps_pools_empty_and_heap_ordered() {
    let mut h: SoftHeap<1, u64> = SoftHeap::default();
    for i in 0..200u64 {
        h = h.insert((i * 53) % 97);
        if i % 3 == 2 {
            let (next, _corrupted) = h.delete_min();
            h = next;
        }
        assert_eq!(h.count_corrupted(), 0);
        if let Some(r) = &h.root {
            assert!(r.check_heap_property());
        }
    }
}
