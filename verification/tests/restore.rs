use sd_models_manager::catalog::{
    find_item, find_or_create, insert_or_update, Catalog, CatalogError, Item, Root,
};
use sd_models_manager::config::Config;
use sd_models_manager::sync::{reload_from_disk, RootScan, ScannedEntry};
use sd_models_manager::tag::{
    add_tag, add_tag_dependency, add_tag_item, add_tag_item_with_dependencies, get_tags, Tag,
    TagGraph, TagItem, TagRule,
};

fn item(id: i64, label: &str, path: &str) -> Item {
    Item {
        id,
        name: None,
        path: path.to_string(),
        base_label: label.to_string(),
        parent: None,
        hash: None,
        model_name: None,
        checked: true,
    }
}

fn root(label: &str) -> Root {
    Root { label: label.to_string(), checked: true }
}

#[test]
fn catalog_is_restored_from_its_rows() {
    let mut catalog = Catalog::new();
    find_or_create(&mut catalog, "A", "x").unwrap();
    insert_or_update(&mut catalog, Some("y"), "x/y", "A", Some(1), Some("0123456789"), None).unwrap();
    let restored =
        Catalog::restore(catalog.roots().clone(), catalog.items().clone(), catalog.next_id()).unwrap();
    assert_eq!(restored.items(), catalog.items());
    assert_eq!(restored.next_id(), 3);
    assert!(restored.check());
    let mut restored = restored;
    assert_eq!(find_or_create(&mut restored, "A", "z"), Ok(3));
}

#[test]
fn damaged_rows_are_not_restored() {
    assert!(Catalog::restore(vec![], vec![item(1, "A", "x"), item(2, "A", "x")], 3).is_none());
    assert!(Catalog::restore(vec![], vec![item(2, "A", "x"), item(1, "A", "y")], 3).is_none());
    assert!(Catalog::restore(vec![], vec![item(1, "A", "x"), item(1, "A", "y")], 3).is_none());
    assert!(Catalog::restore(vec![], vec![item(3, "A", "x")], 3).is_none());
    assert!(Catalog::restore(vec![], vec![item(0, "A", "x")], 3).is_none());
    assert!(Catalog::restore(vec![], vec![], 0).is_none());
    assert!(Catalog::restore(vec![root("A"), root("A")], vec![], 1).is_none());
    assert!(Catalog::restore(vec![root("A"), root("B")], vec![item(1, "A", "x"), item(5, "B", "x")], 6).is_some());
}

#[test]
fn item_is_found_by_its_key() {
    let catalog = Catalog::restore(vec![], vec![item(4, "A", "x"), item(9, "B", "x")], 10).unwrap();
    assert_eq!(find_item(&catalog, "B", "x"), Some(9));
    assert_eq!(find_item(&catalog, "A", "x"), Some(4));
    assert_eq!(find_item(&catalog, "A", "y"), None);
}

#[test]
fn tag_graph_is_restored_from_its_rows() {
    let mut graph = TagGraph::new();
    add_tag_item(&mut graph, 1, &vec!["a".to_string(), "b".to_string()]).unwrap();
    add_tag_dependency(&mut graph, "a", "c").unwrap();
    let restored = TagGraph::restore(
        graph.tags().clone(),
        graph.links().clone(),
        graph.rules().clone(),
        graph.next_id(),
    )
    .unwrap();
    assert!(restored.check());
    assert_eq!(get_tags(&restored, 1), vec!["a", "b"]);
    assert_eq!(restored.next_id(), 4);
}

#[test]
fn damaged_tag_rows_are_not_restored() {
    let tag = |id: i64, name: &str| Tag { id, name: name.to_string() };
    let link = TagItem { item: 1, tag: 1 };
    let rule = TagRule { tag: 1, implied: 2 };
    assert!(TagGraph::restore(vec![tag(1, "a"), tag(2, "a")], vec![], vec![], 3).is_none());
    assert!(TagGraph::restore(vec![tag(2, "a"), tag(1, "b")], vec![], vec![], 3).is_none());
    assert!(TagGraph::restore(vec![tag(1, "a")], vec![link, link], vec![], 2).is_none());
    assert!(TagGraph::restore(vec![tag(1, "a")], vec![], vec![rule, rule], 2).is_none());
    assert!(TagGraph::restore(vec![tag(1, "a")], vec![], vec![], 1).is_none());
    assert!(TagGraph::restore(vec![tag(1, "a"), tag(2, "b")], vec![link], vec![rule], 3).is_some());
    assert!(TagGraph::restore(vec![], vec![TagItem { item: 5, tag: 1 }], vec![], 1).is_none());
    assert!(TagGraph::restore(vec![tag(2, "b")], vec![link], vec![], 3).is_none());
    assert!(TagGraph::restore(vec![tag(1, "a")], vec![], vec![rule], 3).is_none());
    assert!(TagGraph::restore(vec![tag(2, "b")], vec![], vec![rule], 3).is_none());
}

#[test]
fn no_item_is_added_when_ids_are_exhausted() {
    let mut catalog = Catalog::restore(vec![], vec![item(5, "A", "x")], i64::MAX).unwrap();
    assert_eq!(
        find_or_create(&mut catalog, "A", "y"),
        Err(CatalogError::IdsExhausted)
    );
    assert_eq!(
        insert_or_update(&mut catalog, None, "z", "A", None, None, None),
        Err(CatalogError::IdsExhausted)
    );
    assert_eq!(find_or_create(&mut catalog, "A", "x"), Ok(5));
    assert_eq!(catalog.items().len(), 1);
}

#[test]
fn last_id_can_be_given_out() {
    let mut catalog = Catalog::restore(vec![], vec![], i64::MAX - 1).unwrap();
    assert_eq!(find_or_create(&mut catalog, "A", "x"), Ok(i64::MAX - 1));
    assert_eq!(catalog.next_id(), i64::MAX);
    assert!(find_or_create(&mut catalog, "A", "y").is_err());
}

#[test]
fn pass_goes_on_when_ids_are_exhausted() {
    let config = Config {
        model_paths: vec![],
        extensions: vec!["ckpt".to_string()],
        walkdir_parallel: 1,
        per_page: 10,
        api_key: String::new(),
        overwrite_thumbnail: false,
    };
    let entry = |path: &str| ScannedEntry {
        path: path.to_string(),
        is_file: false,
        identity: None,
        model_name: None,
    };
    let mut catalog = Catalog::restore(vec![], vec![item(5, "A", "old")], i64::MAX).unwrap();
    let scans = vec![RootScan {
        label: "A".to_string(),
        base_path: "/m".to_string(),
        entries: vec![entry("/m/new"), entry("/m/old")],
    }];
    let deleted = reload_from_disk(&mut catalog, &config, &scans);
    assert_eq!(deleted, 1);
    assert!(catalog.items().is_empty());
    assert_eq!(catalog.roots().len(), 1);
}

#[test]
fn no_tag_is_added_when_ids_are_exhausted() {
    let tag = Tag { id: 3, name: "a".to_string() };
    let mut graph = TagGraph::restore(vec![tag], vec![], vec![], i64::MAX).unwrap();
    assert_eq!(add_tag(&mut graph, "b"), Err(CatalogError::IdsExhausted));
    assert_eq!(add_tag(&mut graph, "a"), Ok(()));
    let names = vec!["a".to_string(), "b".to_string(), "a".to_string()];
    assert_eq!(add_tag_item(&mut graph, 1, &names), Err(CatalogError::IdsExhausted));
    assert_eq!(get_tags(&graph, 1), vec!["a"]);
    assert_eq!(add_tag_dependency(&mut graph, "a", "c"), Err(CatalogError::IdsExhausted));
    assert_eq!(
        add_tag_item_with_dependencies(&mut graph, 2, "c"),
        Err(CatalogError::IdsExhausted)
    );
    assert!(get_tags(&graph, 2).is_empty());
}

#[test]
fn association_never_passes_to_a_later_tag() {
    assert!(TagGraph::restore(vec![], vec![TagItem { item: 5, tag: 1 }], vec![], 1).is_none());
    let mut graph = TagGraph::new();
    add_tag_item(&mut graph, 5, &vec!["old".to_string()]).unwrap();
    sd_models_manager::tag::remove_tag(&mut graph, "old");
    add_tag_item(&mut graph, 1, &vec!["x".to_string()]).unwrap();
    assert!(get_tags(&graph, 5).is_empty());
    assert_eq!(get_tags(&graph, 1), vec!["x"]);
    assert!(graph.check());
}
