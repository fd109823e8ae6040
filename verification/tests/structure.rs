use skiplist::{
    clamp_height, Bound, CyclicLevels, GeoLevelGenerator, LevelGenerator, Node, OrderedKey, SkipList,
};

#[test]
fn new_list_is_empty() {
    let list: SkipList<u64, u64, GeoLevelGenerator> = SkipList::new(12, GeoLevelGenerator::new(12, 0));
    assert!(list.is_empty());
    assert_eq!(list.num_elements(), 0);
    assert_eq!(list.get_min(), None);
    assert_eq!(list.get_max(), None);
    assert_eq!(list.max_level(), 12);
    assert_eq!(list.current_max_level(), 1);
    assert_eq!(list.max_size(), 0);
    assert_eq!(list.lookup(&1), None);
    assert!(!list.contains_key(&1));
    assert_eq!(list.head(), list.get_last());
    assert_eq!(list.find_key(&1), list.head());
    assert_eq!(list.successor(list.head()), None);
    assert!(list.entry(list.head()).is_none());
    assert_eq!(list.height(list.head()), 12);
}

#[test]
fn zero_levels_count_as_one() {
    let mut list: SkipList<u64, u64, CyclicLevels> = SkipList::new(0, CyclicLevels::new(vec![7]));
    assert_eq!(list.max_level(), 1);
    for k in 0..10u64 {
        list.insert_key(k, k);
    }
    assert_eq!(list.current_max_level(), 1);
    assert_eq!(list.num_elements(), 10);
    assert_eq!(list.link_length(list.head(), None, 0), Ok(10));
}

#[test]
fn default_list_has_sixteen_levels() {
    let list: SkipList<u8, u8, GeoLevelGenerator> = SkipList::default();
    assert_eq!(list.max_level(), 16);
    assert!(list.is_empty());
}

#[test]
fn set_size_records_the_hint_only() {
    let mut list: SkipList<u64, u64, GeoLevelGenerator> = SkipList::default();
    list.insert_key(1, 1);
    list.set_size(4096);
    assert_eq!(list.max_size(), 4096);
    assert_eq!(list.num_elements(), 1);
    assert_eq!(list.lookup(&1), Some(&1));
}

#[test]
fn min_and_max_follow_inserts_and_deletes() {
    let mut list: SkipList<i32, (), GeoLevelGenerator> = SkipList::new(8, GeoLevelGenerator::new(8, 9));
    list.insert_key(5, ());
    assert_eq!((list.get_min(), list.get_max()), (Some(5), Some(5)));
    list.insert_key(-3, ());
    list.insert_key(12, ());
    list.insert_key(7, ());
    assert_eq!((list.get_min(), list.get_max()), (Some(-3), Some(12)));
    list.delete_key(&-3);
    assert_eq!((list.get_min(), list.get_max()), (Some(5), Some(12)));
    list.delete_key(&12);
    assert_eq!((list.get_min(), list.get_max()), (Some(5), Some(7)));
    list.delete_key(&7);
    list.delete_key(&5);
    assert_eq!((list.get_min(), list.get_max()), (None, None));
}

#[test]
fn heights_are_brought_into_range() {
    assert_eq!(clamp_height(0, 4), 1);
    assert_eq!(clamp_height(1, 4), 1);
    assert_eq!(clamp_height(3, 4), 3);
    assert_eq!(clamp_height(4, 4), 4);
    assert_eq!(clamp_height(5, 4), 4);
    let mut list: SkipList<u64, u64, CyclicLevels> = SkipList::new(4, CyclicLevels::new(vec![0, 9, 2]));
    list.insert_key(1, 0);
    list.insert_key(2, 0);
    list.insert_key(3, 0);
    assert_eq!(list.height(list.find_key(&1)), 1);
    assert_eq!(list.height(list.find_key(&2)), 4);
    assert_eq!(list.height(list.find_key(&3)), 2);
}

#[test]
fn insert_with_height_sets_the_nodes_height() {
    let mut list: SkipList<u64, u64, GeoLevelGenerator> = SkipList::new(6, GeoLevelGenerator::new(6, 0));
    list.insert_with_height(10, 1, 3);
    assert_eq!(list.current_max_level(), 3);
    list.insert_with_height(20, 2, 5);
    assert_eq!(list.current_max_level(), 5);
    list.insert_with_height(30, 3, 100);
    assert_eq!(list.current_max_level(), 6);
    list.insert_with_height(5, 4, 0);
    assert_eq!(list.current_max_level(), 6);
    assert_eq!(list.height(list.find_key(&10)), 3);
    assert_eq!(list.height(list.find_key(&20)), 5);
    assert_eq!(list.height(list.find_key(&30)), 6);
    assert_eq!(list.height(list.find_key(&5)), 1);
    list.insert_with_height(10, 9, 6);
    assert_eq!(list.height(list.find_key(&10)), 3);
    assert_eq!(list.lookup(&10), Some(&9));
    assert_eq!(list.num_elements(), 4);
}

#[test]
fn top_level_shrinks_when_the_tallest_node_leaves() {
    let mut list: SkipList<u64, u64, GeoLevelGenerator> = SkipList::new(8, GeoLevelGenerator::new(8, 0));
    list.insert_with_height(1, 0, 2);
    list.insert_with_height(2, 0, 7);
    list.insert_with_height(3, 0, 4);
    assert_eq!(list.current_max_level(), 7);
    list.delete_key(&2);
    assert_eq!(list.current_max_level(), 4);
    list.delete_key(&1);
    assert_eq!(list.current_max_level(), 4);
    list.delete_key(&3);
    assert_eq!(list.current_max_level(), 1);
    assert!(list.is_empty());
}

#[test]
fn spans_split_and_fold_exactly() {
    let mut list: SkipList<u64, u64, GeoLevelGenerator> = SkipList::new(4, GeoLevelGenerator::new(4, 0));
    for k in [10u64, 20, 30, 40, 50] {
        list.insert_with_height(k, 0, 1);
    }
    let head = list.head();
    // One tall node in the middle cuts the head's upper links in two.
    list.insert_with_height(25, 0, 3);
    let mid = list.find_key(&25);
    assert_eq!(list.link_length(head, Some(mid), 2), Ok(3));
    assert_eq!(list.link_length(mid, None, 2), Ok(3));
    assert_eq!(list.link_length(head, None, 2), Ok(6));
    // A short node before it lengthens the link that passes over it.
    list.insert_with_height(15, 0, 1);
    assert_eq!(list.link_length(head, Some(mid), 2), Ok(4));
    assert_eq!(list.link_length(head, Some(mid), 1), Ok(4));
    assert_eq!(list.link_length(head, Some(mid), 0), Ok(4));
    // A short node after it lengthens the tall node's own link.
    list.insert_with_height(45, 0, 2);
    assert_eq!(list.link_length(mid, None, 2), Ok(4));
    let late = list.find_key(&45);
    assert_eq!(list.link_length(mid, Some(late), 1), Ok(3));
    assert_eq!(list.link_length(mid, Some(late), 2), Err(false));
    // Taking a passed-over node out shortens the link again.
    list.delete_key(&20);
    assert_eq!(list.link_length(head, Some(mid), 2), Ok(3));
    // Taking the tall node out folds its link into the head's.
    list.delete_key(&25);
    assert_eq!(list.link_length(head, None, 2), Ok(6));
    assert_eq!(list.link_length(head, Some(late), 1), Ok(5));
    assert_eq!(list.num_elements(), 6);
}

#[test]
fn find_key_gives_the_node_or_its_predecessor() {
    let mut list: SkipList<u64, &str, GeoLevelGenerator> = SkipList::new(8, GeoLevelGenerator::new(8, 2));
    list.insert_key(10, "a");
    list.insert_key(20, "b");
    list.insert_key(30, "c");
    let at = |k: u64| list.entry(list.find_key(&k)).map(|p| (p.key, *p.value));
    assert_eq!(at(5), None);
    assert_eq!(at(10), Some((10, "a")));
    assert_eq!(at(15), Some((10, "a")));
    assert_eq!(at(20), Some((20, "b")));
    assert_eq!(at(30), Some((30, "c")));
    assert_eq!(at(99), Some((30, "c")));
    assert_eq!(list.find_key(&5), list.head());
    assert_eq!(list.find_key(&99), list.get_last());
    assert_eq!(list.successor(list.find_key(&10)), Some(list.find_key(&20)));
    assert_eq!(list.successor(list.get_last()), None);
}

#[test]
fn cursor_gives_each_entry_once() {
    let mut list: SkipList<u64, u64, GeoLevelGenerator> = SkipList::new(8, GeoLevelGenerator::new(8, 2));
    for k in 1..=6u64 {
        list.insert_key(k, k * 100);
    }
    let mut it = list.range(Bound::Excluded(1), Bound::Included(4));
    assert_eq!(it.len(), 3);
    let first = it.next().map(|p| (p.key, *p.value));
    assert_eq!(first, Some((2, 200)));
    assert_eq!(it.len(), 2);
    assert_eq!(it.next().map(|p| p.key), Some(3));
    assert_eq!(it.next().map(|p| p.key), Some(4));
    assert_eq!(it.len(), 0);
    assert!(it.next().is_none());
    assert!(it.next().is_none());
    // Asking again starts again.
    let again = list.range(Bound::Excluded(1), Bound::Included(4)).collect();
    assert_eq!(again.len(), 3);
    assert_eq!(again[0].key, 2);
}

#[test]
fn freed_slots_are_used_again() {
    let mut list: SkipList<u64, u64, CyclicLevels> = SkipList::new(4, CyclicLevels::new(vec![4, 1, 2]));
    for round in 0..20u64 {
        for k in 0..30u64 {
            list.insert_key(k, round);
        }
        for k in 0..30u64 {
            assert_eq!(list.delete_key(&k), Some(round));
        }
        assert!(list.is_empty());
    }
    list.insert_key(7, 7);
    // Two sentinels, and never more than thirty nodes at once.
    assert!(list.get_last() < 32);
}

#[test]
fn sentinel_and_entry_nodes() {
    let head: Node<u64, u64> = Node::head(5);
    assert!(head.is_header());
    assert_eq!(head.height, 5);
    assert_eq!(head.forwards, vec![None; 5]);
    assert_eq!(head.spans, vec![0; 5]);
    assert_eq!(head.back, None);
    let node: Node<u64, u64> = Node::new(3, 30, 2, 5);
    assert!(!node.is_header());
    assert_eq!(node.key, Some(3));
    assert_eq!(node.value, Some(30));
    assert_eq!(node.height, 2);
    assert_eq!(node.forwards.len(), 5);
    assert_eq!(node.spans.len(), 5);
}

#[test]
fn cyclic_levels_repeat_their_pattern() {
    let mut gen = CyclicLevels::new(vec![3, 1, 2]);
    let drawn: Vec<usize> = (0..7).map(|_| gen.random()).collect();
    assert_eq!(drawn, vec![3, 1, 2, 3, 1, 2, 3]);
    assert_eq!(gen.total(), 3);
    let mut empty = CyclicLevels::new(Vec::new());
    assert_eq!(empty.random(), 1);
    assert_eq!(empty.draw(), 1);
    assert_eq!(empty.total(), 1);
}

#[test]
fn geometric_heights_stay_in_range() {
    for total in [0usize, 1, 2, 5, 16] {
        let mut gen = GeoLevelGenerator::new(total, 99);
        let cap = if total == 0 { 1 } else { total };
        assert_eq!(gen.total(), cap);
        for _ in 0..2000 {
            let h = gen.random();
            assert!(1 <= h && h <= cap);
        }
    }
}

#[test]
fn geometric_heights_repeat_for_the_same_seed() {
    let mut a = GeoLevelGenerator::new(16, 1234);
    let mut b = GeoLevelGenerator::new(16, 1234);
    for _ in 0..500 {
        assert_eq!(a.draw(), b.draw());
    }
}

#[test]
fn geometric_heights_halve_level_by_level() {
    let total = 10usize;
    let draws = 200_000usize;
    for seed in [1u64, 2, 3] {
        let mut gen = GeoLevelGenerator::new(total, seed);
        let mut seen = vec![0usize; total + 1];
        for _ in 0..draws {
            seen[gen.random()] += 1;
        }
        // P(h) = 2^-h below the cap; the cap takes what is left.
        for h in 1..=6usize {
            let want = draws as f64 / (1u64 << h) as f64;
            let got = seen[h] as f64;
            assert!((got - want).abs() < want * 0.1, "h={} got={} want={}", h, got, want);
        }
        let tail: usize = seen[7..].iter().sum();
        let want_tail = draws as f64 / 64.0;
        assert!((tail as f64 - want_tail).abs() < want_tail * 0.1);
        assert_eq!(seen[0], 0);
    }
}

#[test]
fn every_key_type_orders_as_its_numbers() {
    assert!(3u8.is_below(&4));
    assert!(!4u8.is_below(&4));
    assert!(3u16.is_below(&400));
    assert!(3u32.is_below(&4));
    assert!(!5u64.is_below(&4));
    assert!(3usize.is_below(&4));
    assert!((-3i32).is_below(&2));
    assert!(!(2i64).is_below(&-3));
}

#[test]
fn stale_and_foreign_handles_name_no_node() {
    let mut list: SkipList<u64, u64, GeoLevelGenerator> = SkipList::new(8, GeoLevelGenerator::new(8, 4));
    for k in [10u64, 20, 30] {
        list.insert_key(k, k);
    }
    let h = list.find_key(&20);
    assert!(list.is_node(h));
    assert!(list.is_node(list.head()));
    assert_eq!(list.link_length(list.head(), Some(h), 0), Ok(2));
    assert_eq!(list.delete_key(&20), Some(20));
    assert!(!list.is_node(h));
    assert_eq!(list.link_length(h, None, 0), Err(false));
    assert_eq!(list.link_length(h, Some(h), 0), Err(false));
    assert_eq!(list.link_length(list.head(), Some(h), 0), Err(false));
    assert!(list.entry(h).is_none());
    assert_eq!(list.successor(h), None);
    assert_eq!(list.height(h), 0);
    // The tail sentinel and slots past the arena are no nodes either.
    assert!(!list.is_node(1));
    assert!(!list.is_node(9999));
    assert_eq!(list.link_length(9999, None, 0), Err(false));
    assert_eq!(list.height(9999), 0);
    // The other nodes have kept their handles.
    let all: Vec<u64> = list.get_all().iter().map(|p| p.key).collect();
    assert_eq!(all, vec![10, 30]);
    assert_eq!(list.link_length(list.find_key(&10), Some(list.find_key(&30)), 0), Ok(1));
}

#[test]
fn nodes_keep_their_handles_across_changes() {
    let mut list: SkipList<u64, u64, GeoLevelGenerator> = SkipList::new(8, GeoLevelGenerator::new(8, 4));
    for k in [10u64, 20, 30, 40] {
        list.insert_key(k, k);
    }
    let handles: Vec<usize> = [10u64, 20, 30, 40].iter().map(|k| list.find_key(k)).collect();
    let heights: Vec<usize> = handles.iter().map(|h| list.height(*h)).collect();
    list.insert_key(25, 0);
    list.insert_key(5, 0);
    list.insert_key(30, 31);
    list.delete_key(&20);
    for (i, k) in [10u64, 20, 30, 40].iter().enumerate() {
        if *k == 20 {
            assert!(!list.is_node(handles[i]));
        } else {
            assert_eq!(list.find_key(k), handles[i]);
            assert_eq!(list.height(handles[i]), heights[i]);
            assert_eq!(list.entry(handles[i]).map(|p| p.key), Some(*k));
        }
    }
}

#[test]
fn geometric_heights_follow_from_the_seed() {
    let cases: [(u64, usize, [usize; 24]); 3] = [
        (1234, 16, [3, 1, 3, 1, 1, 2, 1, 7, 2, 1, 1, 1, 1, 4, 1, 1, 1, 1, 4, 5, 1, 2, 4, 1]),
        (0, 16, [2, 1, 2, 1, 1, 2, 2, 6, 2, 5, 3, 1, 4, 1, 1, 2, 1, 1, 1, 1, 2, 1, 1, 3]),
        (7, 3, [1, 1, 3, 1, 1, 1, 1, 1, 1, 1, 3, 3, 3, 1, 3, 2, 1, 1, 3, 1, 1, 2, 2, 1]),
    ];
    for (seed, total, want) in cases {
        let mut by_draw = GeoLevelGenerator::new(total, seed);
        let mut by_random = GeoLevelGenerator::new(total, seed);
        for h in want {
            assert_eq!(by_draw.draw(), h);
            assert_eq!(by_random.random(), h);
        }
    }
}

#[test]
fn new_nodes_take_the_generators_heights() {
    let mut list: SkipList<u64, u64, GeoLevelGenerator> = SkipList::new(16, GeoLevelGenerator::new(16, 1234));
    let want = [3usize, 1, 3, 1, 1, 2, 1, 7];
    for (i, h) in want.iter().enumerate() {
        let k = (i as u64) * 10;
        list.insert_key(k, 0);
        assert_eq!(list.height(list.find_key(&k)), *h);
    }
    // A key that is there draws nothing: the next new key gets the next
    // height.
    list.insert_key(0, 1);
    list.insert_key(5, 0);
    assert_eq!(list.height(list.find_key(&5)), 2);
    assert_eq!(list.current_max_level(), 7);
}

fn advise<R: skiplist::Run<u64, u64>>(run: &mut R, size: usize) {
    run.set_size(size);
}

#[test]
fn run_records_the_advised_size() {
    let mut list: SkipList<u64, u64, GeoLevelGenerator> = SkipList::default();
    list.insert_key(1, 1);
    advise(&mut list, 77);
    assert_eq!(list.max_size(), 77);
    advise(&mut list, 5);
    assert_eq!(list.max_size(), 5);
    assert_eq!(list.num_elements(), 1);
}
