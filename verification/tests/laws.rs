use skiplist::{Bound, CyclicLevels, GeoLevelGenerator, KVpair, LevelGenerator, Run, SkipList};
use std::collections::BTreeMap;

struct Lcg(u64);

impl Lcg {
    fn next(&mut self) -> u64 {
        self.0 = self
            .0
            .wrapping_mul(6364136223846793005)
            .wrapping_add(1442695040888963407);
        self.0 >> 33
    }
}

fn keys_of<V>(out: &[KVpair<u64, &V>]) -> Vec<u64> {
    out.iter().map(|p| p.key).collect()
}

fn entries_of(list: &SkipList<u64, u64, GeoLevelGenerator>) -> Vec<(u64, u64)> {
    list.get_all().iter().map(|p| (p.key, *p.value)).collect()
}

fn churn(seed: u64, steps: usize) -> (SkipList<u64, u64, GeoLevelGenerator>, BTreeMap<u64, u64>) {
    let mut rng = Lcg(seed);
    let mut list = SkipList::new(8, GeoLevelGenerator::new(8, seed));
    let mut model = BTreeMap::new();
    for _ in 0..steps {
        let k = rng.next() % 64;
        let v = rng.next();
        if rng.next() % 3 == 0 {
            assert_eq!(list.delete_key(&k), model.remove(&k));
        } else {
            list.insert_key(k, v);
            model.insert(k, v);
        }
        assert_eq!(list.num_elements(), model.len());
    }
    (list, model)
}

#[test]
fn base_level_keys_strictly_increase() {
    for seed in 0..20u64 {
        let (list, _) = churn(seed, 400);
        let keys = keys_of(&list.get_all());
        for w in keys.windows(2) {
            assert!(w[0] < w[1]);
        }
        assert_eq!(keys.len(), list.num_elements());
    }
}

#[test]
fn contents_match_a_sorted_map() {
    for seed in 0..20u64 {
        let (list, model) = churn(seed + 100, 400);
        let want: Vec<(u64, u64)> = model.iter().map(|(k, v)| (*k, *v)).collect();
        assert_eq!(entries_of(&list), want);
        for k in 0..64u64 {
            assert_eq!(list.lookup(&k), model.get(&k));
            assert_eq!(list.contains_key(&k), model.contains_key(&k));
            assert_eq!(list.elt_in(k), model.contains_key(&k));
        }
        assert_eq!(list.get_min(), model.keys().next().copied());
        assert_eq!(list.get_max(), model.keys().next_back().copied());
    }
}

#[test]
fn inserted_and_not_deleted_is_found() {
    let mut list: SkipList<u32, String, GeoLevelGenerator> = SkipList::new(6, GeoLevelGenerator::new(6, 3));
    for k in 0..200u32 {
        list.insert_key(k * 7 % 211, format!("v{}", k));
    }
    for k in (0..200u32).filter(|k| k % 2 == 0) {
        assert_eq!(list.delete_key(&(k * 7 % 211)), Some(format!("v{}", k)));
    }
    for k in 0..200u32 {
        let got = list.lookup(&(k * 7 % 211));
        if k % 2 == 0 {
            assert_eq!(got, None);
        } else {
            assert_eq!(got, Some(&format!("v{}", k)));
        }
    }
}

#[test]
fn inserting_an_existing_key_replaces_the_value() {
    let mut list: SkipList<i64, &str, CyclicLevels> = SkipList::new(4, CyclicLevels::new(vec![2, 1, 3]));
    list.insert_key(-4, "old");
    list.insert_key(10, "ten");
    assert_eq!(list.num_elements(), 2);
    list.insert_key(-4, "new");
    assert_eq!(list.num_elements(), 2);
    assert_eq!(list.lookup(&-4), Some(&"new"));
    assert_eq!(list.lookup(&10), Some(&"ten"));
    let all: Vec<(i64, &str)> = list.get_all().iter().map(|p| (p.key, *p.value)).collect();
    assert_eq!(all, vec![(-4, "new"), (10, "ten")]);
}

#[test]
fn delete_lowers_cardinality_by_one() {
    let mut list: SkipList<u64, u64, GeoLevelGenerator> = SkipList::new(8, GeoLevelGenerator::new(8, 11));
    for k in 0..50u64 {
        list.insert_key(k, k * k);
    }
    for k in 0..50u64 {
        let before = list.num_elements();
        assert_eq!(list.delete_key(&k), Some(k * k));
        assert_eq!(list.num_elements(), before - 1);
        assert_eq!(list.lookup(&k), None);
    }
    assert!(list.is_empty());
}

#[test]
fn deleting_an_absent_key_changes_nothing() {
    let mut list: SkipList<u64, u64, GeoLevelGenerator> = SkipList::new(8, GeoLevelGenerator::new(8, 5));
    assert_eq!(list.delete_key(&3), None);
    list.insert_key(1, 10);
    list.insert_key(5, 50);
    let before = entries_of(&list);
    assert_eq!(list.delete_key(&3), None);
    assert_eq!(list.delete_key(&0), None);
    assert_eq!(list.delete_key(&9), None);
    assert_eq!(entries_of(&list), before);
    assert_eq!(list.num_elements(), 2);
}

fn walk_count<G: LevelGenerator>(list: &SkipList<u64, u64, G>, from: usize, to: Option<usize>) -> Option<usize> {
    let mut node = from;
    let mut count = 0usize;
    loop {
        if Some(node) == to {
            return Some(count);
        }
        match list.successor(node) {
            Some(t) => {
                node = t;
                count += 1;
            }
            None => return if to.is_none() { Some(count) } else { None },
        }
    }
}

#[test]
fn rank_query_agrees_with_linear_scan() {
    for seed in 0..10u64 {
        let (list, model) = churn(seed + 500, 300);
        let keys: Vec<u64> = model.keys().copied().collect();
        let mut handles = vec![list.head()];
        for k in &keys {
            handles.push(list.find_key(k));
        }
        for (i, &a) in handles.iter().enumerate() {
            for (j, &b) in handles.iter().enumerate() {
                let ha = list.height(a);
                let hb = list.height(b);
                for lvl in 0..list.max_level() {
                    let got = list.link_length(a, Some(b), lvl);
                    if lvl < ha && lvl < hb && i <= j {
                        assert_eq!(got, Ok(j - i));
                        assert_eq!(walk_count(&list, a, Some(b)), Some(j - i));
                    } else {
                        assert_eq!(got, Err(false));
                    }
                }
            }
            for lvl in 0..list.height(a) {
                assert_eq!(list.link_length(a, None, lvl), Ok(keys.len() - i));
            }
            assert_eq!(walk_count(&list, a, None), Some(keys.len() - i));
        }
    }
}

#[test]
fn link_length_fails_above_the_start_nodes_height() {
    let mut list: SkipList<u64, u64, CyclicLevels> = SkipList::new(4, CyclicLevels::new(vec![1, 3]));
    list.insert_key(10, 0);
    list.insert_key(20, 0);
    let low = list.find_key(&10);
    let high = list.find_key(&20);
    assert_eq!(list.height(low), 1);
    assert_eq!(list.height(high), 3);
    assert_eq!(list.link_length(low, Some(high), 0), Ok(1));
    assert_eq!(list.link_length(low, Some(high), 1), Err(false));
    assert_eq!(list.link_length(high, Some(low), 0), Err(false));
    assert_eq!(list.link_length(list.head(), Some(high), 2), Ok(2));
    assert_eq!(list.link_length(list.head(), Some(low), 2), Err(false));
    assert_eq!(list.link_length(list.head(), Some(high), 3), Err(false));
    assert_eq!(list.link_length(list.head(), None, 3), Ok(2));
    assert_eq!(list.link_length(list.head(), Some(high), 4), Err(false));
    assert_eq!(list.link_length(high, Some(high), 2), Ok(0));
    assert_eq!(list.link_length(high, Some(12345), 0), Err(false));
}

fn select(model: &BTreeMap<u64, u64>, lo: &Bound<u64>, hi: &Bound<u64>) -> Vec<(u64, u64)> {
    model
        .iter()
        .filter(|(k, _)| match lo {
            Bound::Included(a) => *k >= a,
            Bound::Excluded(a) => *k > a,
            Bound::Unbounded => true,
        })
        .filter(|(k, _)| match hi {
            Bound::Included(b) => *k <= b,
            Bound::Excluded(b) => *k < b,
            Bound::Unbounded => true,
        })
        .map(|(k, v)| (*k, *v))
        .collect()
}

fn bounds(k: u64) -> Vec<Bound<u64>> {
    vec![Bound::Included(k), Bound::Excluded(k), Bound::Unbounded]
}

#[test]
fn range_returns_exactly_the_entries_within_bounds() {
    for seed in 0..6u64 {
        let (list, model) = churn(seed + 900, 200);
        for a in (0..66u64).step_by(5) {
            for b in (0..66u64).step_by(7) {
                for lo in bounds(a) {
                    for hi in bounds(b) {
                        let want = select(&model, &lo, &hi);
                        let lo2 = match lo {
                            Bound::Included(k) => Bound::Included(k),
                            Bound::Excluded(k) => Bound::Excluded(k),
                            Bound::Unbounded => Bound::Unbounded,
                        };
                        let it = list.range(lo2, hi);
                        assert_eq!(it.len(), want.len());
                        let got: Vec<(u64, u64)> = it.collect().iter().map(|p| (p.key, *p.value)).collect();
                        assert_eq!(got, want);
                    }
                }
            }
        }
        for a in 0..64u64 {
            for b in 0..64u64 {
                let want = select(&model, &Bound::Included(a), &Bound::Included(b));
                let got: Vec<(u64, u64)> =
                    list.get_all_in_range(a, b).iter().map(|p| (p.key, *p.value)).collect();
                assert_eq!(got, want);
            }
        }
    }
}

#[test]
fn excluded_bound_drops_only_the_boundary_entry() {
    let mut list: SkipList<u64, u64, GeoLevelGenerator> = SkipList::new(8, GeoLevelGenerator::new(8, 1));
    for k in [10u64, 20, 30, 40] {
        list.insert_key(k, k + 1);
    }
    let ks = |lo: Bound<u64>, hi: Bound<u64>| keys_of(&list.range(lo, hi).collect());
    assert_eq!(ks(Bound::Included(20), Bound::Included(30)), vec![20, 30]);
    assert_eq!(ks(Bound::Excluded(20), Bound::Included(30)), vec![30]);
    assert_eq!(ks(Bound::Included(20), Bound::Excluded(30)), vec![20]);
    assert_eq!(ks(Bound::Excluded(20), Bound::Excluded(30)), Vec::<u64>::new());
    assert_eq!(ks(Bound::Excluded(15), Bound::Excluded(35)), vec![20, 30]);
    assert_eq!(ks(Bound::Unbounded, Bound::Included(20)), vec![10, 20]);
    assert_eq!(ks(Bound::Excluded(20), Bound::Unbounded), vec![30, 40]);
    assert_eq!(ks(Bound::Unbounded, Bound::Unbounded), vec![10, 20, 30, 40]);
}

#[test]
fn range_outside_the_keys_is_empty() {
    let mut list: SkipList<u64, u64, GeoLevelGenerator> = SkipList::new(8, GeoLevelGenerator::new(8, 1));
    assert!(list.get_all().is_empty());
    assert!(list.get_all_in_range(0, 100).is_empty());
    assert_eq!(list.range(Bound::Unbounded, Bound::Unbounded).len(), 0);
    for k in [10u64, 20, 30] {
        list.insert_key(k, 0);
    }
    assert!(list.get_all_in_range(0, 9).is_empty());
    assert!(list.get_all_in_range(31, 99).is_empty());
    assert!(list.get_all_in_range(11, 19).is_empty());
    assert!(list.get_all_in_range(30, 10).is_empty());
    assert!(list.get_all_in_range(25, 15).is_empty());
    assert_eq!(keys_of(&list.get_all_in_range(0, 99)), vec![10, 20, 30]);
    assert_eq!(keys_of(&list.get_all_in_range(20, 20)), vec![20]);
}

fn fill<R: Run<u64, u64>>(run: &mut R) {
    for k in [4u64, 2, 8, 6] {
        run.insert_key(k, k * 10);
    }
    run.insert_key(4, 41);
    run.delete_key(&8);
    run.set_size(100);
}

#[test]
fn skip_list_serves_the_run_contract() {
    let mut list: SkipList<u64, u64, GeoLevelGenerator> = SkipList::default();
    fill(&mut list);
    assert_eq!(Run::num_elements(&list), 3);
    assert!(!Run::is_empty(&list));
    assert_eq!(Run::lookup(&list, &4), Some(&41));
    assert!(Run::contains_key(&list, &6));
    assert!(!Run::contains_key(&list, &8));
    assert_eq!(keys_of(&Run::get_all(&list)), vec![2, 4, 6]);
    assert_eq!(keys_of(&Run::get_all_in_range(&list, 3, 6)), vec![4, 6]);
    assert_eq!(list.max_size(), 100);
}
