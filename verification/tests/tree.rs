use dirty_memtable::rbtree::RBTree;

fn count_entries(tree: &RBTree<u32, u32>) -> usize {
    let mut walk = tree.into_iter();
    let mut n = 0;
    while walk.next().is_some() {
        n += 1;
    }
    n
}

fn assert_rm(val: u32, tree: &mut RBTree<u32, u32>, size: usize) {
    assert!(tree.is_balanced());
    assert!(tree.contains(&val));
    tree.delete(&val);
    assert!(!tree.contains(&val));
    if !tree.is_balanced() {
        println!("Not balanced!");
    }
    assert!(tree.is_balanced());
    assert_eq!(size, tree.len());
}

#[test]
fn test_tree_1() {
    let mut tree = RBTree::new();
    tree.insert(12, 32);
    tree.insert(32, 44);
    tree.insert(123, 321);
    tree.insert(123, 321);
    tree.insert(1, 2);
    tree.insert(14, 32);
    tree.insert(20, 41);
    tree.insert(6, 64);
    tree.insert(41, 22);
    tree.insert(122, 14);
    tree.insert(41, 99);

    assert_eq!(tree.len(), count_entries(&tree));

    let mut k = 0;
    let mut walk = tree.into_iter();
    while let Some((key, value)) = walk.next() {
        println!("{:?} -> {:?}", key, value);
        assert!(*key > k);
        k = *key;
    }

    assert_eq!(99, *tree.get(&41).unwrap());
    assert!(tree.is_balanced());
    assert_eq!(9, tree.len());

    assert_rm(41, &mut tree, 8);
    assert_rm(122, &mut tree, 7);
    assert_rm(6, &mut tree, 6);
    assert_rm(20, &mut tree, 5);
    assert_rm(14, &mut tree, 4);
    assert_rm(1, &mut tree, 3);
    assert_rm(123, &mut tree, 2);
    assert_rm(32, &mut tree, 1);
    assert_rm(12, &mut tree, 0);
    assert!(tree.is_empty());
}

#[test]
fn test_tree_strings() {
    let mut tree = RBTree::new();
    tree.insert(12, "value: V");
    tree.insert(32, "44");
    tree.insert(123, "321");
    tree.insert(123, "321");
    tree.insert(1, "2");
    tree.insert(14, "32");
    tree.insert(20, "41");
    tree.insert(6, "64");
    tree.insert(41, "22");
    tree.insert(122, "14");
    tree.insert(41, "99");

    assert_eq!("99", *tree.get(&41).unwrap());
    assert!(tree.is_balanced());
    assert_eq!(9, tree.len());
}

#[test]
fn test_tree_string_keys() {
    let mut tree = RBTree::new();
    tree.insert("12", "value: V");
    tree.insert("32", "44");
    tree.insert("123", "321");
    tree.insert("123", "321");
    tree.insert("1", "2");
    tree.insert("14", "32");
    tree.insert("20", "41");
    tree.insert("6", "64");
    tree.insert("41", "22");
    tree.insert("122", "14");
    tree.insert("41", "99");

    assert_eq!("99", *tree.get(&"41").unwrap());
    assert!(tree.is_balanced());
    assert_eq!(9, tree.len());
}

fn all_hold(tree: &RBTree<u64, u64>) -> bool {
    tree.is_bst() && tree.is_size_consistent() && tree.is_23() && tree.is_balanced()
}

fn walk_keys(tree: &RBTree<u64, u64>) -> Vec<u64> {
    let mut out = Vec::new();
    let mut walk = tree.into_iter();
    while let Some((key, _)) = walk.next() {
        out.push(*key);
    }
    out
}

#[test]
fn invariants_hold_after_every_insert_and_delete() {
    let mut tree: RBTree<u64, u64> = RBTree::new();
    let mut model: Vec<u64> = Vec::new();
    let mut x: u64 = 12345;
    for step in 0..600u64 {
        x = x.wrapping_mul(6364136223846793005).wrapping_add(1442695040888963407);
        let key = (x >> 33) % 64;
        if step % 3 == 2 {
            tree.delete(&key);
            model.retain(|k| *k != key);
        } else {
            tree.insert(key, step);
            if !model.contains(&key) {
                model.push(key);
            }
        }
        assert!(all_hold(&tree));
        model.sort();
        assert_eq!(walk_keys(&tree), model);
        assert_eq!(tree.len(), model.len());
    }
    for key in model.clone() {
        tree.delete(&key);
        assert!(all_hold(&tree));
        assert!(!tree.contains(&key));
    }
    assert!(tree.is_empty());
    assert_eq!(tree.len(), 0);
}

#[test]
fn walk_is_ascending_and_restartable() {
    let mut tree: RBTree<u64, u64> = RBTree::new();
    for key in [50u64, 20, 80, 10, 30, 70, 90, 25, 35, 5] {
        tree.insert(key, key * 2);
    }
    let first = walk_keys(&tree);
    let second = walk_keys(&tree);
    assert_eq!(first, vec![5, 10, 20, 25, 30, 35, 50, 70, 80, 90]);
    assert_eq!(first, second);
    assert_eq!(first.len(), tree.len());
    tree.delete(&30);
    tree.delete(&5);
    assert_eq!(walk_keys(&tree), vec![10, 20, 25, 35, 50, 70, 80, 90]);
}

#[test]
fn walk_of_an_empty_tree_ends_at_once() {
    let tree: RBTree<u64, u64> = RBTree::new();
    let mut walk = tree.into_iter();
    assert!(walk.next().is_none());
    assert!(walk.next().is_none());
}

#[test]
fn rank_and_select_are_inverse() {
    let mut tree: RBTree<u64, u64> = RBTree::new();
    for key in [40u64, 10, 30, 20, 60, 50] {
        tree.insert(key, 0);
    }
    for i in 0..tree.len() {
        let key = *tree.select(i).unwrap();
        assert_eq!(tree.rank(&key), i);
    }
    for key in [10u64, 20, 30, 40, 50, 60] {
        assert_eq!(*tree.select(tree.rank(&key)).unwrap(), key);
    }
    assert_eq!(tree.rank(&5), 0);
    assert_eq!(tree.rank(&35), 3);
    assert_eq!(tree.rank(&100), 6);
    assert_eq!(*tree.select(0).unwrap(), 10);
    assert_eq!(*tree.select(5).unwrap(), 60);
}

#[test]
fn select_beyond_the_last_place_is_reported() {
    let mut tree: RBTree<u64, u64> = RBTree::new();
    tree.insert(1, 1);
    tree.insert(2, 2);
    let err = tree.select(2).unwrap_err();
    assert_eq!(err.rank, 2);
    assert_eq!(err.len, 2);
    assert!(tree.select(7).is_err());
    let empty: RBTree<u64, u64> = RBTree::new();
    assert!(empty.select(0).is_err());
}

#[test]
fn deleting_a_node_with_two_children_promotes_its_successor() {
    let mut tree: RBTree<u64, u64> = RBTree::new();
    for key in [50u64, 30, 70, 20, 40, 60, 80, 35, 45, 65] {
        tree.insert(key, key + 1);
    }
    tree.delete(&50);
    assert!(!tree.contains(&50));
    assert!(all_hold(&tree));
    let remaining = [20u64, 30, 35, 40, 45, 60, 65, 70, 80];
    assert_eq!(walk_keys(&tree), remaining.to_vec());
    for (i, key) in remaining.iter().enumerate() {
        assert_eq!(tree.rank(key), i);
        assert_eq!(*tree.select(i).unwrap(), *key);
        assert_eq!(*tree.get(key).unwrap(), key + 1);
    }
    tree.delete(&30);
    assert_eq!(walk_keys(&tree), vec![20, 35, 40, 45, 60, 65, 70, 80]);
    assert_eq!(*tree.get(&35).unwrap(), 36);
    assert!(all_hold(&tree));
}

#[test]
fn delete_of_an_absent_key_changes_nothing() {
    let mut tree: RBTree<u64, u64> = RBTree::new();
    tree.delete(&3);
    assert!(tree.is_empty());
    tree.insert(1, 10);
    tree.insert(2, 20);
    tree.delete(&3);
    assert_eq!(tree.len(), 2);
    assert_eq!(*tree.get(&1).unwrap(), 10);
    assert_eq!(*tree.get(&2).unwrap(), 20);
}

#[test]
fn insert_overwrites_the_value_of_a_key() {
    let mut tree: RBTree<u64, &str> = RBTree::new();
    tree.insert(7, "a");
    tree.insert(7, "b");
    assert_eq!(tree.len(), 1);
    assert_eq!(*tree.get(&7).unwrap(), "b");
    assert!(tree.get(&8).is_none());
    assert!(!tree.contains(&8));
}

#[test]
fn keys_holds_each_key_once() {
    let mut tree: RBTree<u64, u64> = RBTree::new();
    for key in [3u64, 1, 2, 5, 4] {
        tree.insert(key, 0);
    }
    tree.delete(&1);
    let mut keys: Vec<u64> = tree.keys().into_iter().map(|k| *k).collect();
    keys.sort();
    assert_eq!(keys, vec![2, 3, 4, 5]);
}

#[test]
fn random_draws_an_entry_of_the_tree() {
    let mut tree: RBTree<u64, u64> = RBTree::new();
    assert!(tree.random().is_none());
    for key in [3u64, 1, 2] {
        tree.insert(key, key * 10);
    }
    for _ in 0..50 {
        let (key, value) = tree.random().unwrap();
        assert!(*key >= 1 && *key <= 3);
        assert_eq!(*value, *key * 10);
    }
}

#[test]
fn string_keys_order_by_code_point() {
    let mut tree: RBTree<String, u64> = RBTree::new();
    for (i, key) in ["b", "a", "ab", "", "B", "é", "z"].iter().enumerate() {
        tree.insert(key.to_string(), i as u64);
    }
    let mut walk = tree.into_iter();
    let mut seen = Vec::new();
    while let Some((key, _)) = walk.next() {
        seen.push(key.clone());
    }
    assert_eq!(seen, vec!["", "B", "a", "ab", "b", "z", "é"]);
    assert_eq!(tree.rank(&"b".to_string()), 4);
}

#[test]
fn to_vec_lists_the_entries_in_order() {
    let mut tree: RBTree<u64, &str> = RBTree::new();
    assert!(tree.to_vec().is_empty());
    tree.insert(2, "two");
    tree.insert(3, "three");
    tree.insert(1, "one");
    let listed: Vec<(u64, &str)> = tree.to_vec().into_iter().map(|(k, v)| (*k, *v)).collect();
    assert_eq!(listed, vec![(1, "one"), (2, "two"), (3, "three")]);
    assert_eq!(listed.len(), tree.len());
}

#[test]
fn the_checks_pass_on_trees_built_by_insert_and_delete() {
    let mut tree: RBTree<i64, i64> = RBTree::default();
    assert!(tree.check());
    assert!(tree.is_rank_consistent());
    for key in 0..200i64 {
        tree.insert((key * 37) % 101 - 50, key);
        assert!(tree.check());
    }
    for key in -50..0i64 {
        tree.delete(&key);
        assert!(tree.check());
    }
    assert!(tree.is_rank_consistent());
    assert!(tree.is_bst());
    assert!(tree.is_size_consistent());
    assert!(tree.is_23());
    assert!(tree.is_balanced());
}

#[test]
fn usize_and_i32_keys_are_ordered_by_value() {
    let mut small: RBTree<i32, ()> = RBTree::new();
    for key in [3, -1, 2, -7] {
        small.insert(key, ());
    }
    assert_eq!(*small.select(0).unwrap(), -7);
    assert_eq!(*small.select(3).unwrap(), 3);
    let mut wide: RBTree<usize, ()> = RBTree::new();
    for key in [usize::MAX, 0, 5] {
        wide.insert(key, ());
    }
    assert_eq!(wide.rank(&usize::MAX), 2);
    let mut narrow: RBTree<u32, ()> = RBTree::new();
    narrow.insert(9, ());
    narrow.insert(4, ());
    assert_eq!(narrow.rank(&9), 1);
}
