use contest_lib::ds::treap::{Node, RandomTreap, Treap};

#[test]
fn test_basic() {
    let mut treap = Treap::<i64, u32, usize>::new();
    treap.insert(2, 1, 1);
    treap.insert(3, 11, 100);
    treap.insert(14, 9, 150);
    treap.insert(77777, 2, 7812);
    treap.insert(7, 8, 124);
    treap.insert(9, 4, 1111);
    treap.insert(833, 2, 12);
    treap.insert(-15, 2, 123);

    assert_eq!(treap.find_greater_or_equal(&2), (Some((&2, &1))));
    assert_eq!(treap.find_greater_or_equal(&3), (Some((&3, &11))));
    assert_eq!(treap.find_greater_or_equal(&14), (Some((&14, &9))));
    assert_eq!(treap.find_greater_or_equal(&77777), (Some((&77777, &2))));
    assert_eq!(treap.find_greater_or_equal(&7), (Some((&7, &8))));
    assert_eq!(treap.find_greater_or_equal(&9), (Some((&9, &4))));
    assert_eq!(treap.find_greater_or_equal(&833), (Some((&833, &2))));
    assert_eq!(treap.find_greater_or_equal(&-15), (Some((&-15, &2))));

    assert_eq!(treap.find_greater_or_equal(&-16), (Some((&-15, &2))));
    assert_eq!(treap.find_greater_or_equal(&-117), (Some((&-15, &2))));
    assert_eq!(treap.find_greater_or_equal(&-18), (Some((&-15, &2))));

    assert_eq!(treap.find_greater_or_equal(&0), (Some((&2, &1))));
    assert_eq!(treap.find_greater_or_equal(&1), (Some((&2, &1))));

    assert_eq!(treap.find_greater_or_equal(&600), (Some((&833, &2))));

    assert_eq!(treap.find_greater_or_equal(&8), (Some((&9, &4))));

    assert_eq!(treap.find_greater_or_equal(&10), (Some((&14, &9))));
    assert_eq!(treap.find_greater_or_equal(&11), (Some((&14, &9))));
    assert_eq!(treap.find_greater_or_equal(&77778), None);
    assert_eq!(treap.find_greater_or_equal(&77779), None);
    assert_eq!(treap.find_greater_or_equal(&999_999_999), None);

    assert!(treap.remove(&-15).is_some());
    assert_eq!(treap.remove(&-14), None);
    assert!(treap.remove(&3).is_some());
    // Set is [2, 7, 9, 14, 833, 77777]
    assert_eq!(treap.count_less(&4), 1);
    assert_eq!(treap.count_less(&9), 2);
    assert_eq!(treap.count_less(&833), 4);
    assert_eq!(treap.count_less(&834), 5);
    assert_eq!(treap.count_less(&1_000_000), 6);
    assert_eq!(treap.count_less(&0), 0);
    assert_eq!(treap.count_less(&2), 0);
}

#[test]
fn insert_overwrites_and_returns_previous_value() {
    let mut treap = Treap::<u8, &str, u8>::new();
    assert_eq!(treap.insert(5, "a", 9), None);
    assert_eq!(treap.insert(5, "b", 1), Some("a"));
    assert_eq!(treap.find_greater_or_equal(&5), Some((&5, &"b")));
    assert_eq!(treap.count_less(&6), 1);
    assert_eq!(treap.remove(&5), Some((5, "b")));
    assert_eq!(treap.find_greater_or_equal(&0), None);
}

#[test]
fn removing_an_absent_key_changes_nothing() {
    let mut treap = Treap::<i32, i32, i32>::new();
    for (k, w) in [(10, 3), (20, 3), (30, 1), (40, 3), (50, 2)] {
        treap.insert(k, k * 2, w);
    }
    assert_eq!(treap.remove(&25), None);
    assert_eq!(treap.remove(&60), None);
    for k in [10, 20, 30, 40, 50] {
        assert_eq!(treap.find_greater_or_equal(&k), Some((&k, &(k * 2))));
    }
    assert_eq!(treap.count_less(&100), 5);
}

#[test]
fn rank_matches_a_sorted_list_after_every_mutation() {
    let mut treap = Treap::<i64, (), u32>::new();
    let mut reference: Vec<i64> = Vec::new();
    let mut weight: u32 = 17;
    for step in 0..200i64 {
        let key = (step * 37) % 101 - 50;
        weight = weight.wrapping_mul(1_103_515_245).wrapping_add(12_345);
        if step % 3 == 2 {
            let removed = treap.remove(&key);
            let at = reference.binary_search(&key);
            assert_eq!(removed.is_some(), at.is_ok());
            if let Ok(i) = at {
                reference.remove(i);
            }
        } else {
            let previous = treap.insert(key, (), weight % 8);
            match reference.binary_search(&key) {
                Ok(_) => assert!(previous.is_some()),
                Err(i) => {
                    assert!(previous.is_none());
                    reference.insert(i, key);
                }
            }
        }
        for probe in -52..53i64 {
            let below = reference.iter().filter(|&&k| k < probe).count();
            assert_eq!(treap.count_less(&probe), below);
            let successor = reference.iter().find(|&&k| k >= probe);
            assert_eq!(treap.find_greater_or_equal(&probe).map(|(k, _)| k), successor);
        }
    }
}

#[test]
fn split_then_merge_keeps_the_keys() {
    let mut tree = None;
    for (k, w) in [(1, 5), (2, 1), (3, 5), (4, 2), (5, 5), (6, 3), (7, 5)] {
        tree = Node::merge(tree, Some(Box::new(Node::new(k, k * 10, w))));
    }
    for pivot in 0..9 {
        let (l, e, r) = Node::split_by(tree, &pivot);
        assert_eq!(Node::size(l.as_deref()), (1..8).filter(|&k| k < pivot).count());
        assert_eq!(Node::size(e.as_deref()), (1..8).filter(|&k| k == pivot).count());
        assert_eq!(Node::size(r.as_deref()), (1..8).filter(|&k| k > pivot).count());
        tree = Node::merge(Node::merge(l, e), r);
        assert_eq!(Node::size(tree.as_deref()), 7);
        for k in 1..8 {
            assert_eq!(Node::count_less(tree.as_deref(), &k), (k - 1) as usize);
            let found = Node::find_greater_or_equal(tree.as_deref(), &k);
            assert_eq!(found.map(Node::binding), Some((&k, &(k * 10))));
        }
        assert!(Node::find_greater_or_equal(tree.as_deref(), &8).is_none());
    }
}

#[test]
fn merge_puts_the_lighter_root_on_top_and_the_right_one_on_a_tie() {
    let left = Some(Box::new(Node::new(1, 'a', 4)));
    let right = Some(Box::new(Node::new(2, 'b', 4)));
    let tree = Node::merge(left, right);
    // On a tie the right root wins, so key 1 hangs below key 2: splitting at
    // 2 leaves a left part of one node.
    let (l, e, r) = Node::split_by(tree, &2);
    assert_eq!(Node::size(l.as_deref()), 1);
    assert_eq!(Node::size(e.as_deref()), 1);
    assert_eq!(Node::size(r.as_deref()), 0);
}

#[test]
fn random_treap_weighs_with_the_congruential_sequence() {
    let mut treap = RandomTreap::<u8, u8>::new();
    assert!(format!("{treap:?}").ends_with("rng_state: 1415811 }"));
    treap.insert(1, 1);
    // 1415811 * 22695477 + 1 modulo 2^32
    assert!(format!("{treap:?}").contains("weight: 1855645472,"));
    assert!(format!("{treap:?}").ends_with("rng_state: 1855645472 }"));
    treap.insert(2, 2);
    assert!(format!("{treap:?}").contains("weight: 2042468769,"));
    assert!(format!("{treap:?}").ends_with("rng_state: 2042468769 }"));
    treap.insert(2, 3);
    assert!(!format!("{treap:?}").contains("weight: 2042468769,"));
    assert!(format!("{treap:?}").ends_with("rng_state: 2628377686 }"));
}

#[test]
fn random_treap_replaces_values() {
    let mut treap = RandomTreap::<u32, u32>::new();
    for k in 0..100 {
        assert_eq!(treap.insert(k, k + 1), None);
    }
    for k in 0..100 {
        assert_eq!(treap.insert(k, k + 2), Some(k + 1));
    }
}

#[test]
fn walking_the_successors_meets_the_keys_in_increasing_order() {
    let mut treap = Treap::<i32, i32, u8>::new();
    assert_eq!(treap.count_less(&0), 0);
    assert_eq!(treap.find_greater_or_equal(&i32::MIN), None);
    let mut expected = std::collections::BTreeMap::new();
    let mut state: u32 = 7;
    for step in 0..300 {
        state = state.wrapping_mul(1_664_525).wrapping_add(1_013_904_223);
        let key = (state >> 20) as i32 % 64 - 32;
        let weight = (state >> 8) as u8 % 4;
        if step % 4 == 3 {
            assert_eq!(treap.remove(&key), expected.remove(&key).map(|v| (key, v)));
        } else {
            assert_eq!(treap.insert(key, step, weight), expected.insert(key, step));
        }
        let mut walked = Vec::new();
        let mut from = i32::MIN;
        while let Some((&key, &value)) = treap.find_greater_or_equal(&from) {
            assert_eq!(treap.count_less(&key), walked.len());
            walked.push((key, value));
            from = key + 1;
        }
        assert_eq!(walked, expected.iter().map(|(&k, &v)| (k, v)).collect::<Vec<_>>());
        assert_eq!(treap.count_less(&i32::MAX), expected.len());
    }
}
