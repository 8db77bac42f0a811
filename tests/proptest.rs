use doublets::create_heap_store;

#[test]
fn test_rebase_correctness() {
    let mut store = create_heap_store().unwrap();

    let a = store.create_point().unwrap();
    let b = store.create_point().unwrap();

    let c = store.create_link(a, b).unwrap();
    let d = store.create_link(b, a).unwrap();

    store.rebase(a, b).unwrap();

    let link_c = store.get(c).unwrap();
    assert_eq!(link_c.source, b);

    let link_d = store.get(d).unwrap();
    assert_eq!(link_d.target, b);
}

#[test]
fn test_count_usages() {
    let mut store = create_heap_store().unwrap();

    let a = store.create_point().unwrap();
    let b = store.create_point().unwrap();

    let usages_a = store.count_usages(a).unwrap();
    assert_eq!(usages_a, 0);

    let _c = store.create_link(b, a).unwrap();
    let usages_a_after = store.count_usages(a).unwrap();
    assert_eq!(usages_a_after, 1);

    let _d = store.create_link(a, b).unwrap();
    let usages_a_final = store.count_usages(a).unwrap();
    assert_eq!(usages_a_final, 2);
}
