use doublets::{create_heap_store, Error, Link};

#[test]
fn test_create_point() -> Result<(), Error> {
    let mut store = create_heap_store()?;

    let a = store.create_point()?;
    assert_eq!(a, 1);

    let link = store.get(a).ok_or(Error::NotExists(a))?;
    assert_eq!(link, Link::new(a, a, a));
    Ok(())
}

#[test]
fn test_create_link() -> Result<(), Error> {
    let mut store = create_heap_store()?;

    let a = store.create_point()?;
    let b = store.create_point()?;

    let c = store.create_link(a, b)?;

    let link = store.get(c).ok_or(Error::NotExists(c))?;
    assert_eq!(link, Link::new(c, a, b));
    Ok(())
}

#[test]
fn test_update_link() -> Result<(), Error> {
    let mut store = create_heap_store()?;

    let a = store.create_point()?;
    let b = store.create_point()?;
    let c = store.create_point()?;

    store.update_link(c, a, b)?;

    let link = store.get(c).ok_or(Error::NotExists(c))?;
    assert_eq!(link, Link::new(c, a, b));
    Ok(())
}

#[test]
fn test_delete_link() -> Result<(), Error> {
    let mut store = create_heap_store()?;

    let a = store.create_point()?;

    store.delete_link(a)?;

    assert!(store.get(a).is_none());
    Ok(())
}

#[test]
fn test_search() -> Result<(), Error> {
    let mut store = create_heap_store()?;

    let a = store.create_point()?;
    let b = store.create_point()?;
    let c = store.create_link(a, b)?;

    let found = store.search(a, b);
    assert_eq!(found, Some(c));

    let not_found = store.search(b, a);
    assert_eq!(not_found, None);
    Ok(())
}

#[test]
fn test_count() -> Result<(), Error> {
    let mut store = create_heap_store()?;

    assert_eq!(store.count_all(), 0);

    let _a = store.create_point()?;
    assert_eq!(store.count_all(), 1);

    let _b = store.create_point()?;
    assert_eq!(store.count_all(), 2);

    let _c = store.create_link(1, 2)?;
    assert_eq!(store.count_all(), 3);
    Ok(())
}

#[test]
fn test_rebase() -> Result<(), Error> {
    let mut store = create_heap_store()?;

    let a = store.create_point()?;
    let b = store.create_point()?;

    let c = store.create_point()?;
    store.update_link(c, c, a)?;

    let d = store.create_point()?;
    store.update_link(d, a, d)?;

    let links = store.collect_all();
    assert_eq!(
        links,
        vec![
            Link::new(a, a, a),
            Link::new(b, b, b),
            Link::new(c, c, a),
            Link::new(d, a, d)
        ]
    );

    store.rebase(a, b)?;

    let links = store.collect_all();
    assert_eq!(
        links,
        vec![
            Link::new(a, a, a),
            Link::new(b, b, b),
            Link::new(c, c, b),
            Link::new(d, b, d)
        ]
    );
    Ok(())
}

#[test]
fn test_each() -> Result<(), Error> {
    let mut store = create_heap_store()?;

    let a = store.create_point()?;
    let b = store.create_point()?;
    let _c = store.create_link(a, b)?;

    let count = store.each([]).len();

    assert_eq!(count, 3);
    Ok(())
}

#[test]
fn test_each_with_query() -> Result<(), Error> {
    let mut store = create_heap_store()?;

    let a = store.create_point()?;
    let b = store.create_point()?;
    let _c = store.create_link(a, b)?;

    let found_links = store.each([0, a, 0]);

    assert_eq!(found_links.len(), 2);
    Ok(())
}

#[test]
fn test_get_or_create() -> Result<(), Error> {
    let mut store = create_heap_store()?;

    let a = store.create_point()?;
    let b = store.create_point()?;

    let c1 = store.get_or_create(a, b)?;
    let c2 = store.get_or_create(a, b)?;

    assert_eq!(c1, c2);
    assert_eq!(store.count_all(), 3);
    Ok(())
}
