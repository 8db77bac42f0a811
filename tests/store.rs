use doublets::{create_heap_store, Alloc, Constants, Error, Flow, Link, NodeType, RawLink, Store, Tree};

fn three_points() -> Store {
    let mut store = create_heap_store().unwrap();
    for _ in 0..3 {
        store.create_point().unwrap();
    }
    store
}

#[test]
fn scenario_three_points() {
    let store = three_points();
    assert_eq!(store.count_all(), 3);
    assert_eq!(store.get(2), Some(Link::new(2, 2, 2)));
    assert_eq!(store.get(1), Some(Link::new(1, 1, 1)));
    assert_eq!(store.get(3), Some(Link::new(3, 3, 3)));
}

#[test]
fn scenario_link_after_points() {
    let mut store = three_points();
    assert_eq!(store.create_link(1, 2), Ok(4));
    assert_eq!(store.get(4), Some(Link::new(4, 1, 2)));
    assert_eq!(store.search(1, 2), Some(4));
    assert_eq!(store.search(2, 1), None);
}

#[test]
fn scenario_update_moves_link() {
    let mut store = three_points();
    store.create_link(1, 2).unwrap();
    assert_eq!(store.update_link(4, 1, 3), Ok(4));
    assert_eq!(store.get(4), Some(Link::new(4, 1, 3)));
    assert_eq!(store.search(1, 2), None);
    assert_eq!(store.search(1, 3), Some(4));
}

#[test]
fn scenario_slot_reused() {
    let mut store = three_points();
    store.create_link(1, 2).unwrap();
    assert_eq!(store.delete_link(4), Ok(4));
    assert_eq!(store.create_link(1, 2), Ok(4));
    assert_eq!(store.count_all(), 4);
    assert_eq!(store.search(1, 2), Some(4));
}

#[test]
fn scenario_each_by_source() {
    let mut store = three_points();
    store.create_link(1, 2).unwrap();
    let found = store.each([0, 1, 0]);
    assert_eq!(found, vec![Link::new(1, 1, 1), Link::new(4, 1, 2)]);
}

#[test]
fn scenario_each_by_target() {
    let mut store = three_points();
    store.create_link(1, 2).unwrap();
    let found = store.each([0, 0, 2]);
    assert_eq!(found, vec![Link::new(4, 1, 2), Link::new(2, 2, 2)]);
}

#[test]
fn count_matches_enumeration() {
    let mut store = three_points();
    store.create_link(1, 2).unwrap();
    store.create_link(2, 3).unwrap();
    store.delete_link(2).unwrap();
    assert_eq!(store.count_all(), store.each([]).len());
    assert_eq!(store.count([]), 4);
    assert_eq!(store.count([0]), 4);
    assert_eq!(store.count([0, 0, 0]), 4);
}

#[test]
fn count_forms() {
    let mut store = three_points();
    store.create_link(1, 2).unwrap();
    store.create_link(1, 2).unwrap();
    assert_eq!(store.count([4]), 1);
    assert_eq!(store.count([9]), 0);
    assert_eq!(store.count([0, 1]), 3);
    assert_eq!(store.count([0, 1, 0]), 3);
    assert_eq!(store.count([0, 0, 2]), 3);
    assert_eq!(store.count([0, 1, 2]), 1);
    assert_eq!(store.count([0, 3, 1]), 0);
    assert_eq!(store.count([4, 1, 2]), 1);
    assert_eq!(store.count([4, 2, 0]), 0);
}

#[test]
fn create_then_get() {
    let mut store = create_heap_store().unwrap();
    let l = store.create([7, 9]).unwrap();
    assert_eq!(l, Link::new(1, 7, 9));
    assert_eq!(store.get(1), Some(Link::new(1, 7, 9)));
    assert!(store.link_exists(1));
}

#[test]
fn create_arities() {
    let mut store = create_heap_store().unwrap();
    assert_eq!(store.create([]).unwrap(), Link::new(1, 0, 0));
    assert_eq!(store.create([5]).unwrap(), Link::new(2, 5, 5));
    assert_eq!(store.create([5, 6]).unwrap(), Link::new(3, 5, 6));
}

#[test]
fn delete_then_get() {
    let mut store = three_points();
    let before = store.delete([2]).unwrap();
    assert_eq!(before, Link::new(2, 2, 2));
    assert_eq!(store.get(2), None);
    assert!(!store.link_exists(2));
    assert_eq!(store.create_point(), Ok(2));
}

#[test]
fn freed_slots_reused_last_first() {
    let mut store = three_points();
    store.delete_link(1).unwrap();
    store.delete_link(3).unwrap();
    assert_eq!(store.create_link(0, 0), Ok(3));
    assert_eq!(store.create_link(0, 0), Ok(1));
    assert_eq!(store.create_link(0, 0), Ok(4));
}

#[test]
fn update_then_get() {
    let mut store = three_points();
    let (before, after) = store.update([3], [3, 1, 2]).unwrap();
    assert_eq!(before, Link::new(3, 3, 3));
    assert_eq!(after, Link::new(3, 1, 2));
    assert_eq!(store.get(3), Some(Link::new(3, 1, 2)));
}

#[test]
fn update_keeps_missing_components() {
    let mut store = three_points();
    let (_, after) = store.update([3], [3, 1]).unwrap();
    assert_eq!(after, Link::new(3, 1, 3));
    let (_, after) = store.update([3], [3]).unwrap();
    assert_eq!(after, Link::new(3, 1, 3));
}

#[test]
fn update_errors() {
    let mut store = three_points();
    let empty: [usize; 0] = [];
    assert_eq!(store.update(empty, [1, 2, 3]), Err(Error::InvalidQuery));
    assert_eq!(store.update([1], empty), Err(Error::InvalidQuery));
    assert_eq!(store.update([8], [8, 1, 1]), Err(Error::NotExists(8)));
    assert_eq!(store.update_link(0, 1, 1), Err(Error::NotExists(0)));
}

#[test]
fn delete_errors() {
    let mut store = three_points();
    let empty: [usize; 0] = [];
    assert_eq!(store.delete(empty), Err(Error::InvalidQuery));
    assert_eq!(store.delete([5]), Err(Error::NotExists(5)));
    assert_eq!(store.delete_link(0), Err(Error::NotExists(0)));
    store.delete_link(2).unwrap();
    assert_eq!(store.delete_link(2), Err(Error::NotExists(2)));
}

#[test]
fn search_agrees_with_each() {
    let mut store = three_points();
    store.create_link(1, 2).unwrap();
    store.create_link(3, 2).unwrap();
    for s in 0..5 {
        for t in 0..5 {
            let yielded = store.each([0, s, t]);
            match store.search(s, t) {
                Some(i) => assert!(yielded.iter().any(|l| l.index == i)),
                None => assert!(yielded.is_empty()),
            }
        }
    }
}

#[test]
fn each_visits_each_live_index_once() {
    let mut store = three_points();
    for i in 0..20 {
        store.create_link(i % 3 + 1, (i * 7) % 3 + 1).unwrap();
    }
    store.delete_link(5).unwrap();
    store.delete_link(11).unwrap();
    let all = store.each([]);
    assert_eq!(all.len(), 21);
    for w in all.windows(2) {
        assert!(w[0].index < w[1].index);
    }
    for i in 1..24 {
        let n = all.iter().filter(|l| l.index == i).count();
        assert_eq!(n, if i == 5 || i == 11 { 0 } else { 1 });
    }
}

#[test]
fn range_results_are_ordered() {
    let mut store = three_points();
    store.create_link(1, 3).unwrap();
    store.create_link(1, 2).unwrap();
    store.create_link(1, 3).unwrap();
    let by_source = store.each([0, 1, 0]);
    let keys: Vec<(usize, usize)> = by_source.iter().map(|l| (l.target, l.index)).collect();
    assert_eq!(keys, vec![(1, 1), (2, 5), (3, 4), (3, 6)]);
    let by_target = store.each([0, 0, 3]);
    let keys: Vec<(usize, usize)> = by_target.iter().map(|l| (l.source, l.index)).collect();
    assert_eq!(keys, vec![(1, 4), (1, 6), (3, 3)]);
}

#[test]
fn each_with_index() {
    let store = three_points();
    assert_eq!(store.each([2]), vec![Link::new(2, 2, 2)]);
    assert_eq!(store.each([2, 2, 2]), vec![Link::new(2, 2, 2)]);
    assert_eq!(store.each([2, 1]), vec![]);
    assert_eq!(store.each([7]), vec![]);
    assert_eq!(store.each([0]).len(), 3);
}

#[test]
fn every_live_link_is_in_both_trees() {
    let mut store = three_points();
    for i in 0..30 {
        store.create_link(i % 4, i % 5).unwrap();
    }
    store.delete_link(10).unwrap();
    store.update_link(12, 9, 9).unwrap();
    for i in 0..40 {
        let live = store.link_exists(i);
        assert_eq!(store.tree_contains(Tree::Source, i), live);
        assert_eq!(store.tree_contains(Tree::Target, i), live);
    }
}

#[test]
fn insert_then_remove_all_empties_trees() {
    let mut store = create_heap_store().unwrap();
    let mut made = Vec::new();
    for i in 0..64 {
        made.push(store.create_link(i % 7, i % 3).unwrap());
    }
    let order = [5usize, 1, 63, 2, 40, 7, 32, 17];
    for i in order {
        store.delete_link(made[i]).unwrap();
    }
    for (k, i) in made.iter().enumerate() {
        if !order.contains(&k) {
            store.delete_link(*i).unwrap();
        }
    }
    assert_eq!(store.count_all(), 0);
    assert!(store.each([]).is_empty());
    for i in 0..70 {
        assert!(!store.tree_contains(Tree::Source, i));
    }
}

#[test]
fn get_or_create_is_idempotent() {
    let mut store = three_points();
    let first = store.get_or_create(2, 3).unwrap();
    assert_eq!(first, 4);
    let count = store.count_all();
    for _ in 0..3 {
        assert_eq!(store.get_or_create(2, 3), Ok(first));
        assert_eq!(store.count_all(), count);
    }
}

#[test]
fn get_or_create_finds_existing() {
    let mut store = three_points();
    store.create_link(1, 3).unwrap();
    assert_eq!(store.get_or_create(1, 3), Ok(4));
    assert_eq!(store.count_all(), 4);
}

#[test]
fn grows_past_initial_capacity() {
    let mut store = create_heap_store().unwrap();
    for i in 1..=2100usize {
        assert_eq!(store.create_link(i, i + 1), Ok(i));
    }
    assert_eq!(store.count_all(), 2100);
    assert_eq!(store.search(1500, 1501), Some(1500));
    assert_eq!(store.count([0, 0, 2101]), 1);
}

#[test]
fn usages_and_rebase() {
    let mut store = three_points();
    let c = store.create_link(1, 2).unwrap();
    let d = store.create_link(2, 1).unwrap();
    let e = store.create_link(1, 1).unwrap();
    assert_eq!(store.count_usages(1), Ok(4));
    assert!(store.has_usages(1));
    assert!(!store.has_usages(3));
    assert!(!store.has_usages(9));
    assert_eq!(store.count_usages(9), Err(Error::NotExists(9)));
    assert_eq!(store.rebase(1, 3), Ok(3));
    assert_eq!(store.get(c), Some(Link::new(c, 3, 2)));
    assert_eq!(store.get(d), Some(Link::new(d, 2, 3)));
    assert_eq!(store.get(e), Some(Link::new(e, 3, 3)));
    assert_eq!(store.get(1), Some(Link::new(1, 1, 1)));
    assert_eq!(store.rebase(8, 3), Err(Error::NotExists(8)));
    assert_eq!(store.rebase(3, 3), Ok(3));
}

#[test]
fn rebase_and_delete_removes_old() {
    let mut store = three_points();
    let c = store.create_link(1, 2).unwrap();
    assert_eq!(store.rebase_and_delete(1, 3), Ok(1));
    assert_eq!(store.get(1), None);
    assert_eq!(store.get(c), Some(Link::new(c, 3, 2)));
    assert_eq!(store.rebase_and_delete(2, 2), Ok(2));
    assert_eq!(store.count_all(), 3);
}

#[test]
fn new_store_on_given_slab() {
    let mut mem: Alloc<RawLink> = Alloc::new();
    mem.grow_filled(3, RawLink::zeroed());
    let mut store = Store::new(mem).unwrap();
    assert_eq!(store.count_all(), 0);
    assert_eq!(store.create_point(), Ok(1));
}

#[test]
fn link_predicates() {
    let p = Link::point(4);
    assert_eq!(p, Link::new(4, 4, 4));
    assert!(p.is_full());
    assert!(p.is_partial());
    assert!(!p.is_null());
    let n = Link::nothing();
    assert!(n.is_null());
    let l = Link::new(3, 3, 5);
    assert!(!l.is_full());
    assert!(l.is_partial());
    assert!(!Link::new(3, 4, 5).is_partial());
}

#[test]
fn constants_ranges() {
    let c = Constants::new(10);
    assert_eq!(c.any, 0);
    assert_eq!(c.internal_start, 1);
    assert_eq!(c.internal_end, 10);
    assert!(c.is_any(0));
    assert!(!c.is_any(3));
    assert!(c.is_internal(1));
    assert!(c.is_internal(9));
    assert!(!c.is_internal(10));
    assert!(!c.is_internal(0));
    assert!(c.is_external(10));
    assert!(!c.is_external(0));
    assert!(!c.is_external(5));
}

#[test]
fn flow_from_bool() {
    assert_eq!(Flow::from_bool(true), Flow::Continue);
    assert_eq!(Flow::from_bool(false), Flow::Break);
}

#[test]
fn node_type_classes() {
    assert_eq!(NodeType::from_size(0), Some(NodeType::Empty));
    assert_eq!(NodeType::from_size(1), Some(NodeType::Node4));
    assert_eq!(NodeType::from_size(4), Some(NodeType::Node4));
    assert_eq!(NodeType::from_size(5), Some(NodeType::Node16));
    assert_eq!(NodeType::from_size(48), Some(NodeType::Node48));
    assert_eq!(NodeType::from_size(49), Some(NodeType::Node256));
    assert_eq!(NodeType::from_size(256), Some(NodeType::Node256));
    assert_eq!(NodeType::from_size(257), None);
    assert_eq!(NodeType::Node16.to_size(), 16);
    assert_eq!(NodeType::Empty.to_size(), 0);
    assert_eq!(NodeType::Node256.to_size(), 256);
}

#[test]
fn alloc_grows_filled() {
    let mut a: Alloc<u64> = Alloc::new();
    assert!(a.is_empty());
    assert_eq!(a.len(), 0);
    a.grow_filled(5, 42);
    assert_eq!(a.len(), 5);
    assert_eq!(a.capacity(), 5);
    assert!(!a.is_empty());
}

#[test]
fn empty_store_queries() {
    let store = create_heap_store().unwrap();
    assert!(store.each([]).is_empty());
    assert!(store.each([0, 1, 0]).is_empty());
    assert!(store.each([0, 0, 1]).is_empty());
    assert_eq!(store.search(1, 1), None);
    assert_eq!(store.search(0, 0), None);
    assert_eq!(store.get(0), None);
    assert_eq!(store.get(1), None);
    assert_eq!(store.count([0, 1, 2]), 0);
    assert!(!store.link_exists(0));
    assert!(!store.tree_contains(Tree::Target, 1));
}

#[test]
fn equal_pairs_stay_searchable() {
    let mut store = create_heap_store().unwrap();
    let x = store.create_link(5, 6).unwrap();
    let y = store.create_link(5, 6).unwrap();
    assert_eq!(store.count([0, 5, 0]), 2);
    assert_eq!(store.count([0, 5, 6]), 1);
    let found = store.search(5, 6).unwrap();
    assert!(found == x || found == y);
    store.delete_link(found).unwrap();
    let other = if found == x { y } else { x };
    assert_eq!(store.search(5, 6), Some(other));
    store.delete_link(other).unwrap();
    assert_eq!(store.search(5, 6), None);
}

#[test]
fn wildcard_search_takes_first_in_order() {
    let mut store = three_points();
    store.create_link(2, 1).unwrap();
    store.create_link(1, 3).unwrap();
    assert_eq!(store.search(0, 0), Some(1));
    assert_eq!(store.search(1, 0), Some(1));
    assert_eq!(store.search(0, 1), Some(1));
    assert_eq!(store.search(0, 3), Some(5));
}

#[test]
fn sequential_keys_keep_working() {
    let mut store = create_heap_store().unwrap();
    for i in 1..=300usize {
        store.create_link(1, i).unwrap();
    }
    for i in (1..=300usize).step_by(3) {
        store.delete_link(i).unwrap();
    }
    assert_eq!(store.count_all(), 200);
    let by_source = store.each([0, 1, 0]);
    assert_eq!(by_source.len(), 200);
    for w in by_source.windows(2) {
        assert!(w[0].target < w[1].target);
    }
    for i in 1..=300usize {
        let live = (i - 1) % 3 != 0;
        assert_eq!(store.search(1, i).is_some(), live);
        assert_eq!(store.tree_contains(Tree::Source, i), live);
    }
}
