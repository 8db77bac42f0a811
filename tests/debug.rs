use doublets::{create_heap_store, Error, Link};
use std::collections::HashSet;

fn indices(links: &[Link]) -> HashSet<usize> {
    links.iter().map(|l| l.index).collect()
}

#[test]
fn test_basic_create() -> Result<(), Error> {
    let mut store = create_heap_store()?;

    let after = store.create([])?;
    let index = after.index;

    let link = store.get(index);
    assert!(link.is_some(), "Link should exist");
    Ok(())
}

#[test]
fn debug_each_with_query() -> Result<(), Error> {
    let mut store = create_heap_store()?;

    let a = store.create_point()?;
    let b = store.create_point()?;
    let _c = store.create_link(a, b)?;

    let found_links = store.each([0, a, 0]);

    let mut unique_indices = HashSet::new();
    for link in &found_links {
        assert!(unique_indices.insert(link.index));
    }

    assert_eq!(
        found_links.len(),
        2,
        "Expected 2 links but found {}",
        found_links.len()
    );
    Ok(())
}

#[test]
fn debug_rebase_simple() -> Result<(), Error> {
    let mut store = create_heap_store()?;

    let a = store.create_point()?;
    let b = store.create_point()?;

    store.rebase(a, b)?;
    Ok(())
}

#[test]
fn debug_rebase_full() -> Result<(), Error> {
    let mut store = create_heap_store()?;

    let a = store.create_point()?;
    let b = store.create_point()?;

    let c = store.create_point()?;
    store.update_link(c, c, a)?;

    let d = store.create_point()?;
    store.update_link(d, a, d)?;

    store.rebase(a, b)?;

    let links = store.collect_all();
    assert_eq!(
        links,
        vec![
            Link::new(a, a, a),
            Link::new(b, b, b),
            Link::new(c, c, b),
            Link::new(d, b, d)
        ]
    );
    Ok(())
}

#[test]
fn test_tree_traversal_with_delete() -> Result<(), Error> {
    let mut store = create_heap_store()?;

    let a = store.create_point()?;
    let b = store.create_point()?;
    let c = store.create_point()?;

    let link_ab = store.create_link(a, b)?;
    let link_ac = store.create_link(a, c)?;
    let _link_bc = store.create_link(b, c)?;
    let link_ba = store.create_link(b, a)?;
    let link_ca = store.create_link(c, a)?;

    let found = indices(&store.each([0, a, 0]));
    assert!(found.contains(&a));
    assert!(found.contains(&link_ab));
    assert!(found.contains(&link_ac));
    assert_eq!(found.len(), 3);

    store.delete_link(link_ab)?;

    let found = indices(&store.each([0, a, 0]));
    assert!(found.contains(&a));
    assert!(found.contains(&link_ac));
    assert!(!found.contains(&link_ab));
    assert_eq!(found.len(), 2);

    let found = indices(&store.each([0, 0, a]));
    assert!(found.contains(&a));
    assert!(found.contains(&link_ba));
    assert!(found.contains(&link_ca));
    assert_eq!(found.len(), 3);

    store.delete_link(link_ca)?;

    let found = indices(&store.each([0, 0, a]));
    assert!(found.contains(&a));
    assert!(found.contains(&link_ba));
    assert!(!found.contains(&link_ca));
    assert_eq!(found.len(), 2);

    Ok(())
}

#[test]
fn test_tree_traversal_stress() -> Result<(), Error> {
    let mut store = create_heap_store()?;

    let points: Vec<usize> = (0..10).map(|_| store.create_point().unwrap()).collect();

    let mut links = Vec::new();
    for i in 0..10 {
        for j in 0..10 {
            if i != j {
                let link = store.create_link(points[i], points[j]).unwrap();
                links.push((link, points[i], points[j]));
            }
        }
    }

    let first_point = points[0];
    let found = indices(&store.each([0, first_point, 0]));

    assert_eq!(found.len(), 10, "Expected 10 links with source={}", first_point);
    assert!(found.contains(&first_point));

    for (link, source, _) in &links {
        if *source == first_point {
            store.delete_link(*link)?;
        }
    }

    let found = indices(&store.each([0, first_point, 0]));
    assert_eq!(found.len(), 1);
    assert!(found.contains(&first_point));
    Ok(())
}

#[test]
fn test_tree_vs_linear_consistency() -> Result<(), Error> {
    let mut store = create_heap_store()?;

    let a = store.create_point()?;
    let b = store.create_point()?;
    let c = store.create_point()?;

    let link1 = store.create_link(a, b)?;
    let link2 = store.create_link(a, c)?;
    let _link3 = store.create_link(b, a)?;

    let linear_results = indices(&store.each([0, a, 0]));
    assert!(linear_results.contains(&a), "Should contain point a");
    assert!(linear_results.contains(&link1), "Should contain link1");
    assert!(linear_results.contains(&link2), "Should contain link2");
    assert_eq!(linear_results.len(), 3);

    store.delete_link(link1)?;

    let after_delete = indices(&store.each([0, a, 0]));
    assert!(after_delete.contains(&a), "Should contain point a");
    assert!(after_delete.contains(&link2), "Should contain link2");
    assert!(!after_delete.contains(&link1), "Should NOT contain deleted link1");
    assert_eq!(after_delete.len(), 2);

    let _new_link = store.create_link(c, a)?;

    let final_results = indices(&store.each([0, a, 0]));
    assert!(final_results.contains(&a), "Should contain point a");
    assert!(final_results.contains(&link2), "Should contain link2");
    assert_eq!(final_results.len(), 2);
    Ok(())
}
