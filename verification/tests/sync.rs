use sd_models_manager::catalog::{find_or_create, Catalog, Item};
use sd_models_manager::config::{Config, ModelPath};
use sd_models_manager::identity::calculate_autov2_hash;
use sd_models_manager::sync::{
    has_accepted_extension, record_entry, record_scan, reload_from_disk, RootScan, ScannedEntry,
};

fn config() -> Config {
    Config {
        model_paths: vec![ModelPath { label: "A".to_string(), base_path: "/models/a".to_string() }],
        extensions: vec!["safetensors".to_string(), "ckpt".to_string()],
        walkdir_parallel: 4,
        per_page: 20,
        api_key: String::new(),
        overwrite_thumbnail: false,
    }
}

fn dir(path: &str) -> ScannedEntry {
    ScannedEntry { path: path.to_string(), is_file: false, identity: None, model_name: None }
}

fn file(path: &str, content: &[u8]) -> ScannedEntry {
    ScannedEntry {
        path: path.to_string(),
        is_file: true,
        identity: Some(calculate_autov2_hash(content)),
        model_name: None,
    }
}

fn scan(entries: Vec<ScannedEntry>) -> Vec<RootScan> {
    vec![RootScan { label: "A".to_string(), base_path: "/models/a".to_string(), entries }]
}

fn item<'a>(catalog: &'a Catalog, path: &str) -> Option<&'a Item> {
    catalog.items().iter().find(|i| i.base_label == "A" && i.path == path)
}

#[test]
fn scenario_new_file_appears() {
    let mut catalog = Catalog::new();
    reload_from_disk(&mut catalog, &config(), &scan(vec![dir("/models/a")]));
    let before = catalog.items().len();
    let walk = scan(vec![dir("/models/a"), file("/models/a/model.safetensors", b"weights")]);
    reload_from_disk(&mut catalog, &config(), &walk);
    assert_eq!(catalog.items().len(), before + 1);
    let found = item(&catalog, "model.safetensors").unwrap();
    assert!(found.checked);
    assert_eq!(found.hash, Some(calculate_autov2_hash(b"weights")));
    assert!(!found.hash.as_ref().unwrap().is_empty());
    assert_eq!(found.name.as_deref(), Some("model.safetensors"));
}

#[test]
fn scenario_file_removed() {
    let mut catalog = Catalog::new();
    let walk = scan(vec![dir("/models/a"), file("/models/a/model.safetensors", b"weights")]);
    reload_from_disk(&mut catalog, &config(), &walk);
    assert!(item(&catalog, "model.safetensors").is_some());
    let deleted = reload_from_disk(&mut catalog, &config(), &scan(vec![dir("/models/a")]));
    assert_eq!(deleted, 1);
    assert!(item(&catalog, "model.safetensors").is_none());
    assert!(item(&catalog, "").is_some());
}

#[test]
fn pass_twice_changes_nothing() {
    let mut catalog = Catalog::new();
    find_or_create(&mut catalog, "A", "stale").unwrap();
    let walk = scan(vec![
        file("/models/a/sub/deep/model.safetensors", b"one"),
        dir("/models/a"),
        dir("/models/a/sub"),
        file("/models/a/notes.txt", b"two"),
        dir("/models/a/sub/deep"),
    ]);
    reload_from_disk(&mut catalog, &config(), &walk);
    let first: Vec<Item> = catalog.items().clone();
    let deleted = reload_from_disk(&mut catalog, &config(), &walk);
    assert_eq!(deleted, 0);
    assert_eq!(catalog.items(), &first);
    assert_eq!(catalog.roots().len(), 1);
}

#[test]
fn pass_links_each_item_to_its_parent() {
    let mut catalog = Catalog::new();
    let walk = scan(vec![
        file("/models/a/sub/model.ckpt", b"one"),
        dir("/models/a/sub"),
        dir("/models/a"),
    ]);
    reload_from_disk(&mut catalog, &config(), &walk);
    let root = item(&catalog, "").unwrap();
    let sub = item(&catalog, "sub").unwrap();
    let model = item(&catalog, "sub/model.ckpt").unwrap();
    assert_eq!(root.parent, None);
    assert_eq!(sub.parent, Some(root.id));
    assert_eq!(model.parent, Some(sub.id));
    assert!(root.checked && sub.checked && model.checked);
    assert_eq!(sub.hash, None);
    assert_eq!(catalog.items().len(), 3);
}

#[test]
fn parent_is_made_though_the_walk_did_not_meet_it() {
    let mut catalog = Catalog::new();
    reload_from_disk(&mut catalog, &config(), &scan(vec![file("/models/a/x/m.ckpt", b"1")]));
    let up = item(&catalog, "x").unwrap();
    assert_eq!(up.parent, None);
    assert_eq!(up.name.as_deref(), Some("x"));
    assert_eq!(item(&catalog, "x/m.ckpt").unwrap().parent, Some(up.id));
    assert!(item(&catalog, "").is_none());
}

#[test]
fn file_with_other_extension_is_structural() {
    let mut catalog = Catalog::new();
    let mut entry = file("/models/a/readme.txt", b"text");
    entry.model_name = Some("Name".to_string());
    reload_from_disk(&mut catalog, &config(), &scan(vec![entry]));
    let found = item(&catalog, "readme.txt").unwrap();
    assert_eq!(found.hash, None);
    assert_eq!(found.model_name, None);
    assert!(found.checked);
}

#[test]
fn model_name_is_kept_from_first_sighting() {
    let mut catalog = Catalog::new();
    let mut entry = file("/models/a/m.ckpt", b"1");
    entry.model_name = Some("First".to_string());
    reload_from_disk(&mut catalog, &config(), &scan(vec![entry]));
    let mut entry = file("/models/a/m.ckpt", b"2");
    entry.model_name = Some("Second".to_string());
    reload_from_disk(&mut catalog, &config(), &scan(vec![entry]));
    let found = item(&catalog, "m.ckpt").unwrap();
    assert_eq!(found.model_name.as_deref(), Some("First"));
    assert_eq!(found.hash, Some(calculate_autov2_hash(b"2")));
}

#[test]
fn entry_outside_the_root_is_passed_over() {
    let mut catalog = Catalog::new();
    let exts = config().extensions;
    let r = record_entry(&mut catalog, &exts, "A", "/models/a", &file("/elsewhere/m.ckpt", b"1"));
    assert_eq!(r, None);
    assert!(catalog.items().is_empty());
}

#[test]
fn model_file_without_identity_is_passed_over() {
    let mut catalog = Catalog::new();
    let exts = config().extensions;
    let mut entry = file("/models/a/sub/m.ckpt", b"1");
    entry.identity = None;
    assert_eq!(record_entry(&mut catalog, &exts, "A", "/models/a", &entry), None);
    assert!(catalog.items().is_empty());
}

#[test]
fn record_entry_returns_the_id_of_the_item() {
    let mut catalog = Catalog::new();
    let exts = config().extensions;
    let id = record_entry(&mut catalog, &exts, "A", "/models/a", &file("/models/a/s/m.ckpt", b"1"));
    assert_eq!(id, Some(2));
    assert_eq!(item(&catalog, "s/m.ckpt").unwrap().id, 2);
    assert_eq!(item(&catalog, "s").unwrap().id, 1);
}

#[test]
fn record_scan_marks_the_root() {
    let mut catalog = Catalog::new();
    let walk = scan(vec![dir("/models/a")]);
    record_scan(&mut catalog, &config().extensions, &walk[0]);
    assert_eq!(catalog.roots().len(), 1);
    assert!(catalog.roots()[0].checked);
    assert_eq!(catalog.roots()[0].label, "A");
}

#[test]
fn sweep_waits_for_every_root() {
    let mut cfg = config();
    cfg.model_paths.push(ModelPath { label: "B".to_string(), base_path: "/models/b".to_string() });
    let walks = vec![
        RootScan {
            label: "A".to_string(),
            base_path: "/models/a".to_string(),
            entries: vec![file("/models/a/one.ckpt", b"1")],
        },
        RootScan {
            label: "B".to_string(),
            base_path: "/models/b".to_string(),
            entries: vec![file("/models/b/two.ckpt", b"2")],
        },
    ];
    let mut catalog = Catalog::new();
    reload_from_disk(&mut catalog, &cfg, &walks);
    let deleted = reload_from_disk(&mut catalog, &cfg, &walks);
    assert_eq!(deleted, 0);
    assert_eq!(catalog.items().len(), 4);
    assert_eq!(catalog.roots().len(), 2);
    let only_a = vec![walks[0].clone()];
    let deleted = reload_from_disk(&mut catalog, &cfg, &only_a);
    assert_eq!(deleted, 2);
    assert_eq!(catalog.roots().len(), 1);
    assert!(catalog.items().iter().all(|i| i.base_label == "A" && i.checked));
}

#[test]
fn accepted_extensions() {
    let exts = config().extensions;
    assert!(has_accepted_extension(&exts, "/models/a/m.safetensors"));
    assert!(has_accepted_extension(&exts, "m.ckpt"));
    assert!(!has_accepted_extension(&exts, "m.CKPT"));
    assert!(!has_accepted_extension(&exts, "m.txt"));
    assert!(!has_accepted_extension(&exts, "ckpt"));
    assert!(has_accepted_extension(&vec![String::new()], "Makefile"));
}

#[test]
fn pass_twice_changes_nothing_though_paths_repeat() {
    let mut catalog = Catalog::new();
    let walks = vec![
        RootScan {
            label: "A".to_string(),
            base_path: "/models/a".to_string(),
            entries: vec![
                file("/models/a/m.ckpt", b"first"),
                dir("/models/a/m.ckpt"),
                file("/models/a/m.ckpt", b"second"),
                file("/models/a/sub/n.ckpt", b"n"),
            ],
        },
        RootScan {
            label: "A".to_string(),
            base_path: "/models/a/sub".to_string(),
            entries: vec![file("/models/a/sub/n.ckpt", b"other"), dir("/models/a/sub/m.ckpt")],
        },
    ];
    reload_from_disk(&mut catalog, &config(), &walks);
    let first: Vec<Item> = catalog.items().clone();
    assert_eq!(item(&catalog, "m.ckpt").unwrap().hash, Some(calculate_autov2_hash(b"second")));
    assert_eq!(item(&catalog, "n.ckpt").unwrap().hash, Some(calculate_autov2_hash(b"other")));
    assert_eq!(item(&catalog, "sub/n.ckpt").unwrap().hash, Some(calculate_autov2_hash(b"n")));
    assert_eq!(reload_from_disk(&mut catalog, &config(), &walks), 0);
    assert_eq!(catalog.items(), &first);
    assert_eq!(catalog.roots().len(), 1);
}
