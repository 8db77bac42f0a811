use doublets::{create_heap_store, Error, Link};

#[test]
fn test_sbt_backend() -> Result<(), Error> {
    let mut store = create_heap_store()?;

    let a = store.create_point()?;
    let b = store.create_point()?;
    let c = store.create_link(a, b)?;

    assert_eq!(store.count_all(), 3);

    let found = store.search(a, b);
    assert_eq!(found, Some(c));

    let d = store.create_point()?;
    store.update_link(c, b, d)?;

    let link = store.get(c).ok_or(Error::NotExists(c))?;
    assert_eq!(link, Link::new(c, b, d));

    store.delete_link(c)?;
    assert_eq!(store.count_all(), 3);
    assert!(store.get(c).is_none());
    Ok(())
}

#[test]
fn test_tree_backed_iteration() -> Result<(), Error> {
    let mut store = create_heap_store()?;

    let a = store.create_point()?;
    let b = store.create_point()?;
    let _c = store.create_link(a, b)?;
    let _d = store.create_link(b, a)?;

    let count = store.each([]).len();

    assert_eq!(count, 4);
    Ok(())
}

#[test]
fn test_tree_backed_query_by_source() -> Result<(), Error> {
    let mut store = create_heap_store()?;

    let a = store.create_point()?;
    let b = store.create_point()?;
    let _c = store.create_link(a, b)?;
    let _d = store.create_link(a, a)?;

    let found_links = store.each([0, a, 0]);

    assert_eq!(found_links.len(), 3);
    Ok(())
}

#[test]
fn test_tree_backed_query_by_target() -> Result<(), Error> {
    let mut store = create_heap_store()?;

    let a = store.create_point()?;
    let b = store.create_point()?;
    let _c = store.create_link(a, b)?;
    let _d = store.create_link(b, b)?;

    let found_links = store.each([0, 0, b]);

    assert_eq!(found_links.len(), 3);
    Ok(())
}

#[test]
fn test_tree_backed_exact_search() -> Result<(), Error> {
    let mut store = create_heap_store()?;

    let a = store.create_point()?;
    let b = store.create_point()?;
    let c = store.create_link(a, b)?;
    let _d = store.create_link(b, a)?;

    let found = store.search(a, b);
    assert_eq!(found, Some(c));

    let e = store.create_point()?;
    let not_found = store.search(e, a);
    assert_eq!(not_found, None);
    Ok(())
}

#[test]
fn test_tree_backed_update_consistency() -> Result<(), Error> {
    let mut store = create_heap_store()?;

    let a = store.create_point()?;
    let b = store.create_point()?;
    let c = store.create_point()?;
    let link_ab = store.create_link(a, b)?;

    store.update_link(link_ab, b, c)?;

    let old_search = store.search(a, b);
    assert_eq!(old_search, None);

    let new_search = store.search(b, c);
    assert_eq!(new_search, Some(link_ab));
    Ok(())
}

#[test]
fn test_tree_backend_scalability() -> Result<(), Error> {
    let mut store = create_heap_store()?;

    let a = store.create_point()?;

    for i in 0..100 {
        let b = store.create_point()?;
        let _link = store.create_link(a, b)?;

        if i % 10 == 0 {
            let found = store.search(a, b);
            assert!(found.is_some());
        }
    }

    assert_eq!(store.count_all(), 101 + 100);
    Ok(())
}

#[test]
fn test_generic_tree_trait_usage() -> Result<(), Error> {
    let mut store = create_heap_store()?;

    let a = store.create_point()?;
    let b = store.create_point()?;
    let c = store.create_link(a, b)?;

    assert_eq!(store.count_all(), 3);

    store.delete_link(c)?;
    assert_eq!(store.count_all(), 2);

    let not_found = store.search(a, b);
    assert_eq!(not_found, None);
    Ok(())
}
