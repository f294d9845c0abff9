use sd_models_manager::api::{
    delete, empty_trash, get, get_abs_path, get_item, move_to_dir, page_window, plan_trash,
    show_item, FileMove,
};
use sd_models_manager::catalog::{
    clean, find_or_create, insert_or_update, mark_obsolete, Catalog, CatalogError,
};
use sd_models_manager::config::{Config, ModelPath};
use sd_models_manager::tag::{add_tag_item, TagGraph};

fn config() -> Config {
    Config {
        model_paths: vec![
            ModelPath { label: "A".to_string(), base_path: "/models/a".to_string() },
            ModelPath { label: "B".to_string(), base_path: "/models/b/".to_string() },
        ],
        extensions: vec!["safetensors".to_string()],
        walkdir_parallel: 4,
        per_page: 2,
        api_key: String::new(),
        overwrite_thumbnail: false,
    }
}

fn moved(from: &str, to: &str) -> FileMove {
    FileMove { from: from.to_string(), to: to.to_string() }
}

#[test]
fn paths_of_an_item() {
    let (model, json, preview) = get_abs_path(&config(), "A", "sub/model.safetensors");
    assert_eq!(model, "/models/a/sub/model.safetensors");
    assert_eq!(json, "/models/a/sub/model.json");
    assert_eq!(preview, "/base_A/sub/model.jpeg");
    let (model, json, preview) = get_abs_path(&config(), "B", "m.safetensors");
    assert_eq!(model, "/models/b/m.safetensors");
    assert_eq!(json, "/models/b/m.json");
    assert_eq!(preview, "/base_B/m.jpeg");
}

#[test]
fn paths_of_an_item_of_an_unknown_root_are_empty() {
    assert_eq!(
        get_abs_path(&config(), "C", "m.safetensors"),
        (String::new(), String::new(), String::new())
    );
}

#[test]
fn file_moves_under_its_own_name() {
    assert_eq!(move_to_dir("/models/a/sub/m.json", "/models/a/.trash"), Some("/models/a/.trash/m.json".to_string()));
    assert_eq!(
        move_to_dir("/models/a/sub/", "/models/a/.trash"),
        Some("/models/a/.trash/sub".to_string())
    );
    assert_eq!(move_to_dir("", "/models/a/.trash"), None);
    assert_eq!(move_to_dir("/", "/models/a/.trash"), None);
    assert_eq!(move_to_dir("/models/a/..", "/models/a/.trash"), None);
}

#[test]
fn scenario_soft_delete() {
    let mut catalog = Catalog::new();
    for n in 1..7 {
        find_or_create(&mut catalog, "A", &format!("other{}", n)).unwrap();
    }
    let id =
        insert_or_update(&mut catalog, None, "sub/model.safetensors", "A", None, None, None).unwrap();
    assert_eq!(id, 7);
    let moves = delete(&mut catalog, &config(), 7);
    assert_eq!(
        moves,
        vec![
            moved("/models/a/sub/model.safetensors", "/models/a/.trash/model.safetensors"),
            moved("/models/a/sub/model.json", "/models/a/.trash/model.json"),
            moved("/models/a/sub/model.jpeg", "/models/a/.trash/model.jpeg"),
        ]
    );
    let item = catalog.items().iter().find(|i| i.id == 7).unwrap();
    assert!(!item.checked);
    assert_eq!(clean(&mut catalog), 1);
    assert!(catalog.items().iter().all(|i| i.id != 7));
}

#[test]
fn delete_of_unknown_item_or_root_moves_nothing() {
    let mut catalog = Catalog::new();
    let id = find_or_create(&mut catalog, "C", "m.safetensors").unwrap();
    assert!(delete(&mut catalog, &config(), 99).is_empty());
    assert!(delete(&mut catalog, &config(), id).is_empty());
    assert!(!catalog.items()[0].checked);
}

#[test]
fn trash_plan_of_an_item() {
    assert!(plan_trash("/", "").is_empty());
    assert_eq!(
        plan_trash("/models/a", "m"),
        vec![
            moved("/models/a/m", "/models/a/.trash/m"),
            moved("/models/a/m.json", "/models/a/.trash/m.json"),
            moved("/models/a/m.jpeg", "/models/a/.trash/m.jpeg"),
        ]
    );
}

#[test]
fn trash_directories() {
    assert_eq!(empty_trash(&config()), vec!["/models/a/.trash", "/models/b/.trash"]);
    let mut none = config();
    none.model_paths.clear();
    assert!(empty_trash(&none).is_empty());
}

#[test]
fn page_window_of_a_request() {
    assert_eq!(page_window(None, None, 20), (20, 0));
    assert_eq!(page_window(Some(1), Some(10), 20), (10, 0));
    assert_eq!(page_window(Some(3), Some(10), 20), (10, 20));
    assert_eq!(page_window(Some(0), Some(10), 20), (10, 0));
    assert_eq!(page_window(Some(-5), Some(-1), 20), (0, 0));
    assert_eq!(page_window(Some(4), None, 25), (25, 75));
    assert_eq!(page_window(Some(i64::MAX), Some(i64::MAX), 20), (i64::MAX, i64::MAX));
}

fn library() -> (Catalog, TagGraph) {
    let mut catalog = Catalog::new();
    let mut graph = TagGraph::new();
    for name in ["Alpha", "beta", "Gamma", "delta", "alphabet"] {
        let path = format!("{}.safetensors", name);
        let id =
            insert_or_update(&mut catalog, Some(name), &path, "A", None, None, None).unwrap();
        add_tag_item(&mut graph, id, &vec!["model".to_string()]).unwrap();
    }
    add_tag_item(&mut graph, 2, &vec!["alpha".to_string(), "greek".to_string()]).unwrap();
    (catalog, graph)
}

#[test]
fn listing_shows_newest_first() {
    let (catalog, graph) = library();
    let response = get(&catalog, &graph, &config(), None, None, None);
    assert_eq!(response.total, 5);
    let names: Vec<&str> = response.items.iter().map(|m| m.name.as_str()).collect();
    assert_eq!(names, vec!["alphabet", "delta"]);
    let first = &response.items[0];
    assert_eq!(first.id, 5);
    assert_eq!(first.path, "/models/a/alphabet.safetensors");
    assert_eq!(first.preview, "/base_A/alphabet.jpeg");
    assert_eq!(first.info, None);
    assert_eq!(first.tags, vec!["model"]);
    let response = get(&catalog, &graph, &config(), Some(3), None, None);
    let names: Vec<&str> = response.items.iter().map(|m| m.name.as_str()).collect();
    assert_eq!(names, vec!["Alpha"]);
    let response = get(&catalog, &graph, &config(), Some(4), None, None);
    assert!(response.items.is_empty());
    assert_eq!(response.total, 5);
}

#[test]
fn listing_leaves_out_what_is_not_marked() {
    let (mut catalog, graph) = library();
    mark_obsolete(&mut catalog, 5).unwrap();
    let response = get(&catalog, &graph, &config(), None, Some(10), None);
    assert_eq!(response.total, 4);
    let ids: Vec<i64> = response.items.iter().map(|m| m.id).collect();
    assert_eq!(ids, vec![4, 3, 2, 1]);
}

#[test]
fn listing_with_a_search() {
    let (catalog, graph) = library();
    let response = get(&catalog, &graph, &config(), None, Some(10), Some("alpha"));
    let ids: Vec<i64> = response.items.iter().map(|m| m.id).collect();
    assert_eq!(ids, vec![5, 1, 2]);
    assert_eq!(response.total, 3);
    assert_eq!(response.items[2].tags, vec!["model", "alpha", "greek"]);
    let response = get(&catalog, &graph, &config(), None, Some(10), Some("ALPHA"));
    let ids: Vec<i64> = response.items.iter().map(|m| m.id).collect();
    assert_eq!(ids, vec![5, 1]);
    assert_eq!(response.total, 2);
}

#[test]
fn item_with_its_sidecar_path() {
    let (catalog, graph) = library();
    let (info, json) = get_item(&catalog, &graph, &config(), 2).unwrap();
    assert_eq!(info.id, 2);
    assert_eq!(info.name, "beta");
    assert_eq!(info.path, "/models/a/beta.safetensors");
    assert_eq!(info.preview, "/base_A/beta.jpeg");
    assert_eq!(info.tags, vec!["model", "alpha", "greek"]);
    assert_eq!(json, "/models/a/beta.json");
    assert_eq!(get_item(&catalog, &graph, &config(), 77), Err(CatalogError::NotFound));
}

#[test]
fn item_is_shown_with_its_metadata() {
    let (catalog, graph) = library();
    let shown = show_item(&catalog.items()[0], &graph, &config(), Some("{}".to_string()));
    assert_eq!(shown.info.as_deref(), Some("{}"));
    assert_eq!(shown.name, "Alpha");
    let mut other = Catalog::new();
    find_or_create(&mut other, "Z", "").unwrap();
    let shown = show_item(&other.items()[0], &graph, &config(), None);
    assert_eq!(shown.name, "");
    assert_eq!(shown.path, "");
    assert_eq!(shown.preview, "");
}
