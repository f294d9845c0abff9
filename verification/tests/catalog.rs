use sd_models_manager::catalog::{
    clean, find_or_create, find_or_create_root, get_by_id, insert_or_update, mark_obsolete,
    mark_obsolete_all, Catalog, CatalogError,
};

#[test]
fn new_catalog_is_empty() {
    let catalog = Catalog::new();
    assert!(catalog.items().is_empty());
    assert!(catalog.roots().is_empty());
}

#[test]
fn insert_then_update_keeps_one_row() {
    let mut catalog = Catalog::new();
    let id = insert_or_update(
        &mut catalog,
        Some("model.safetensors"),
        "sub/model.safetensors",
        "A",
        None,
        Some("0123456789"),
        Some("Model"),
    )
    .unwrap();
    assert_eq!(id, 1);
    let again = insert_or_update(
        &mut catalog,
        Some("other name"),
        "sub/model.safetensors",
        "A",
        Some(5),
        Some("abcdefabcd"),
        Some("Other"),
    )
    .unwrap();
    assert_eq!(again, 1);
    assert_eq!(catalog.items().len(), 1);
    let item = &catalog.items()[0];
    assert_eq!(item.name.as_deref(), Some("model.safetensors"));
    assert_eq!(item.model_name.as_deref(), Some("Model"));
    assert_eq!(item.parent, Some(5));
    assert_eq!(item.hash.as_deref(), Some("abcdefabcd"));
    assert!(item.checked);
}

#[test]
fn update_without_identity_keeps_identity() {
    let mut catalog = Catalog::new();
    insert_or_update(&mut catalog, None, "a", "A", None, Some("1111111111"), None).unwrap();
    insert_or_update(&mut catalog, None, "a", "A", None, None, None).unwrap();
    assert_eq!(catalog.items()[0].hash.as_deref(), Some("1111111111"));
}

#[test]
fn same_path_under_two_roots_is_two_items() {
    let mut catalog = Catalog::new();
    let a = insert_or_update(&mut catalog, None, "m.ckpt", "A", None, None, None).unwrap();
    let b = insert_or_update(&mut catalog, None, "m.ckpt", "B", None, None, None).unwrap();
    assert_ne!(a, b);
    assert_eq!(catalog.items().len(), 2);
}

#[test]
fn find_or_create_is_single_row() {
    let mut catalog = Catalog::new();
    let first = find_or_create(&mut catalog, "A", "sub/deep").unwrap();
    let second = find_or_create(&mut catalog, "A", "sub/deep").unwrap();
    assert_eq!(first, second);
    assert_eq!(catalog.items().len(), 1);
    let item = &catalog.items()[0];
    assert_eq!(item.name.as_deref(), Some("deep"));
    assert_eq!(item.parent, None);
    assert_eq!(item.hash, None);
    assert!(item.checked);
}

#[test]
fn find_or_create_of_root_node_has_no_name() {
    let mut catalog = Catalog::new();
    find_or_create(&mut catalog, "A", "").unwrap();
    assert_eq!(catalog.items()[0].name, None);
    assert_eq!(catalog.items()[0].path, "");
}

#[test]
fn find_or_create_keeps_parent_and_identity() {
    let mut catalog = Catalog::new();
    insert_or_update(&mut catalog, None, "a", "A", Some(9), Some("1111111111"), None).unwrap();
    mark_obsolete_all(&mut catalog);
    find_or_create(&mut catalog, "A", "a").unwrap();
    let item = &catalog.items()[0];
    assert_eq!(item.parent, Some(9));
    assert_eq!(item.hash.as_deref(), Some("1111111111"));
    assert!(item.checked);
}

#[test]
fn root_find_or_create_is_single_row() {
    let mut catalog = Catalog::new();
    find_or_create_root(&mut catalog, "A");
    find_or_create_root(&mut catalog, "B");
    find_or_create_root(&mut catalog, "A");
    assert_eq!(catalog.roots().len(), 2);
    assert_eq!(catalog.roots()[0].label, "A");
    assert!(catalog.roots()[0].checked);
}

#[test]
fn reset_clears_every_mark() {
    let mut catalog = Catalog::new();
    find_or_create_root(&mut catalog, "A");
    find_or_create(&mut catalog, "A", "").unwrap();
    find_or_create(&mut catalog, "A", "x").unwrap();
    mark_obsolete_all(&mut catalog);
    assert!(catalog.items().iter().all(|i| !i.checked));
    assert!(catalog.roots().iter().all(|r| !r.checked));
    assert_eq!(catalog.items().len(), 2);
}

#[test]
fn sweep_deletes_what_is_not_marked() {
    let mut catalog = Catalog::new();
    find_or_create_root(&mut catalog, "A");
    find_or_create_root(&mut catalog, "B");
    find_or_create(&mut catalog, "A", "keep").unwrap();
    find_or_create(&mut catalog, "A", "drop").unwrap();
    find_or_create(&mut catalog, "B", "drop too").unwrap();
    mark_obsolete_all(&mut catalog);
    find_or_create_root(&mut catalog, "A");
    find_or_create(&mut catalog, "A", "keep").unwrap();
    assert_eq!(clean(&mut catalog), 2);
    assert_eq!(catalog.items().len(), 1);
    assert_eq!(catalog.items()[0].path, "keep");
    assert_eq!(catalog.roots().len(), 1);
    assert_eq!(catalog.roots()[0].label, "A");
    assert_eq!(clean(&mut catalog), 0);
}

#[test]
fn ids_are_not_given_out_again() {
    let mut catalog = Catalog::new();
    find_or_create(&mut catalog, "A", "one").unwrap();
    let two = find_or_create(&mut catalog, "A", "two").unwrap();
    mark_obsolete(&mut catalog, two).unwrap();
    clean(&mut catalog);
    let three = find_or_create(&mut catalog, "A", "three").unwrap();
    assert_eq!(three, 3);
}

#[test]
fn mark_obsolete_returns_path_and_label() {
    let mut catalog = Catalog::new();
    let id = find_or_create(&mut catalog, "A", "sub/model.safetensors").unwrap();
    assert_eq!(
        mark_obsolete(&mut catalog, id),
        Ok(("sub/model.safetensors".to_string(), "A".to_string()))
    );
    assert!(!catalog.items()[0].checked);
}

#[test]
fn mark_obsolete_of_unknown_id_fails() {
    let mut catalog = Catalog::new();
    find_or_create(&mut catalog, "A", "x").unwrap();
    assert_eq!(mark_obsolete(&mut catalog, 42), Err(CatalogError::NotFound));
    assert!(catalog.items()[0].checked);
}

#[test]
fn get_by_id_finds_the_item() {
    let mut catalog = Catalog::new();
    find_or_create(&mut catalog, "A", "x").unwrap();
    let id = find_or_create(&mut catalog, "A", "y").unwrap();
    let item = get_by_id(&catalog, id).unwrap();
    assert_eq!(item.path, "y");
    assert_eq!(item.base_label, "A");
    assert_eq!(get_by_id(&catalog, 99), Err(CatalogError::NotFound));
}
