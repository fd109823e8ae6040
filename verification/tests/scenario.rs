use skiplist::{Bound, CyclicLevels, GeoLevelGenerator, KVpair, SkipList};

fn flat<'a>(out: &[KVpair<u64, &&'a str>]) -> Vec<(u64, &'a str)> {
    out.iter().map(|p| (p.key, *p.value)).collect()
}

fn sample<G: skiplist::LevelGenerator>(gen: G) -> SkipList<u64, &'static str, G> {
    let mut list = SkipList::new(12, gen);
    let keys = [5u64, 1, 9, 3, 7];
    let values = ["e", "a", "i", "c", "g"];
    for i in 0..5 {
        list.insert_key(keys[i], values[i]);
    }
    list
}

#[test]
fn scenario_all_is_sorted() {
    let list = sample(GeoLevelGenerator::new(12, 42));
    assert_eq!(
        flat(&list.get_all()),
        vec![(1, "a"), (3, "c"), (5, "e"), (7, "g"), (9, "i")]
    );
    assert_eq!(list.num_elements(), 5);
}

#[test]
fn scenario_range_included_excluded() {
    let list = sample(GeoLevelGenerator::new(12, 42));
    let got = list.range(Bound::Included(3), Bound::Excluded(9)).collect();
    assert_eq!(flat(&got), vec![(3, "c"), (5, "e"), (7, "g")]);
}

#[test]
fn scenario_delete_then_lookup() {
    let mut list = sample(GeoLevelGenerator::new(12, 42));
    assert_eq!(list.delete_key(&5), Some("e"));
    assert_eq!(list.lookup(&5), None);
    assert_eq!(list.num_elements(), 4);
    assert_eq!(
        flat(&list.get_all()),
        vec![(1, "a"), (3, "c"), (7, "g"), (9, "i")]
    );
}

#[test]
fn scenario_holds_for_every_height_pattern() {
    for pattern in [
        vec![1usize],
        vec![12],
        vec![1, 2, 3, 4, 5],
        vec![5, 4, 3, 2, 1],
        vec![3, 1, 4, 1, 5],
        vec![0, 99, 2],
    ] {
        let mut list = sample(CyclicLevels::new(pattern));
        assert_eq!(
            flat(&list.get_all()),
            vec![(1, "a"), (3, "c"), (5, "e"), (7, "g"), (9, "i")]
        );
        let got = list.range(Bound::Included(3), Bound::Excluded(9)).collect();
        assert_eq!(flat(&got), vec![(3, "c"), (5, "e"), (7, "g")]);
        assert_eq!(list.delete_key(&5), Some("e"));
        assert_eq!(list.lookup(&5), None);
        assert_eq!(list.num_elements(), 4);
    }
}
