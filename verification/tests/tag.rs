use sd_models_manager::catalog::CatalogError;
use sd_models_manager::civitai::{tags_from_model_info, CivitaiFileMetadata, CivitaiModel};
use sd_models_manager::tag::{
    add_tag, add_tag_dependency, add_tag_from_model_info, add_tag_item,
    add_tag_item_with_dependencies, get_tags, has_any_tag_item, has_tag_item, remove_tag,
    remove_tag_item, rename_tag, TagGraph,
};
use sd_models_manager::text::normalize_tag;

fn names(list: &[&str]) -> Vec<String> {
    list.iter().map(|s| s.to_string()).collect()
}

#[test]
fn tag_association_is_idempotent() {
    let mut graph = TagGraph::new();
    add_tag_item(&mut graph, 1, &names(&["lora"])).unwrap();
    add_tag_item(&mut graph, 1, &names(&["lora"])).unwrap();
    assert_eq!(get_tags(&graph, 1), names(&["lora"]));
    add_tag_item(&mut graph, 1, &names(&["lora", "sdxl", "lora"])).unwrap();
    assert_eq!(get_tags(&graph, 1), names(&["lora", "sdxl"]));
}

#[test]
fn tags_are_kept_per_item() {
    let mut graph = TagGraph::new();
    add_tag_item(&mut graph, 1, &names(&["a", "b"])).unwrap();
    add_tag_item(&mut graph, 2, &names(&["b"])).unwrap();
    assert_eq!(get_tags(&graph, 1), names(&["a", "b"]));
    assert_eq!(get_tags(&graph, 2), names(&["b"]));
    assert!(get_tags(&graph, 3).is_empty());
    assert!(has_tag_item(&graph, 2, "b"));
    assert!(!has_tag_item(&graph, 2, "a"));
    assert!(!has_tag_item(&graph, 2, "missing"));
    assert!(has_any_tag_item(&graph, 2, &names(&["x", "b"])));
    assert!(!has_any_tag_item(&graph, 2, &names(&["x", "a"])));
    assert!(!has_any_tag_item(&graph, 2, &Vec::new()));
}

#[test]
fn add_tag_twice_makes_one_tag() {
    let mut graph = TagGraph::new();
    assert_eq!(add_tag(&mut graph, "lora"), Ok(()));
    assert_eq!(add_tag(&mut graph, "lora"), Ok(()));
    assert_eq!(rename_tag(&mut graph, "other", "lora"), Err(CatalogError::TagExists));
}

#[test]
fn rename_fails_where_the_new_name_exists() {
    let mut graph = TagGraph::new();
    add_tag_item(&mut graph, 1, &names(&["old", "taken"])).unwrap();
    assert_eq!(rename_tag(&mut graph, "old", "taken"), Err(CatalogError::TagExists));
    assert_eq!(rename_tag(&mut graph, "taken", "taken"), Err(CatalogError::TagExists));
    assert_eq!(get_tags(&graph, 1), names(&["old", "taken"]));
}

#[test]
fn rename_keeps_the_associations() {
    let mut graph = TagGraph::new();
    add_tag_item(&mut graph, 1, &names(&["old"])).unwrap();
    assert_eq!(rename_tag(&mut graph, "old", "new"), Ok(()));
    assert_eq!(get_tags(&graph, 1), names(&["new"]));
    assert_eq!(rename_tag(&mut graph, "missing", "fresh"), Ok(()));
    assert!(!has_tag_item(&graph, 1, "fresh"));
}

#[test]
fn remove_tag_takes_its_associations_along() {
    let mut graph = TagGraph::new();
    add_tag_item(&mut graph, 1, &names(&["a", "b"])).unwrap();
    add_tag_item(&mut graph, 2, &names(&["a"])).unwrap();
    remove_tag(&mut graph, "a");
    assert_eq!(get_tags(&graph, 1), names(&["b"]));
    assert!(get_tags(&graph, 2).is_empty());
    remove_tag(&mut graph, "missing");
    assert_eq!(get_tags(&graph, 1), names(&["b"]));
    add_tag_item(&mut graph, 2, &names(&["a"])).unwrap();
    assert_eq!(get_tags(&graph, 2), names(&["a"]));
}

#[test]
fn remove_tag_item_removes_one_association() {
    let mut graph = TagGraph::new();
    add_tag_item(&mut graph, 1, &names(&["a", "b"])).unwrap();
    add_tag_item(&mut graph, 2, &names(&["a"])).unwrap();
    remove_tag_item(&mut graph, 1, "a");
    assert_eq!(get_tags(&graph, 1), names(&["b"]));
    assert_eq!(get_tags(&graph, 2), names(&["a"]));
    remove_tag_item(&mut graph, 1, "missing");
    assert_eq!(get_tags(&graph, 1), names(&["b"]));
}

#[test]
fn dependencies_are_followed_one_level() {
    let mut graph = TagGraph::new();
    add_tag_dependency(&mut graph, "pony", "sdxl").unwrap();
    add_tag_dependency(&mut graph, "sdxl", "stable diffusion").unwrap();
    add_tag_dependency(&mut graph, "pony", "anime").unwrap();
    add_tag_dependency(&mut graph, "pony", "sdxl").unwrap();
    add_tag_item_with_dependencies(&mut graph, 1, "pony").unwrap();
    assert_eq!(get_tags(&graph, 1), names(&["pony", "sdxl", "anime"]));
    add_tag_item_with_dependencies(&mut graph, 1, "pony").unwrap();
    assert_eq!(get_tags(&graph, 1), names(&["pony", "sdxl", "anime"]));
    add_tag_item_with_dependencies(&mut graph, 2, "plain").unwrap();
    assert_eq!(get_tags(&graph, 2), names(&["plain"]));
}

#[test]
fn removed_tag_implies_nothing() {
    let mut graph = TagGraph::new();
    add_tag_dependency(&mut graph, "a", "b").unwrap();
    remove_tag(&mut graph, "b");
    add_tag_item_with_dependencies(&mut graph, 1, "a").unwrap();
    assert_eq!(get_tags(&graph, 1), names(&["a"]));
}

#[test]
fn tags_are_normalized() {
    assert_eq!(normalize_tag("Textual Inversion"), "textual_inversion");
    assert_eq!(normalize_tag("LORA"), "lora");
    assert_eq!(normalize_tag("already_fine"), "already_fine");
    assert_eq!(normalize_tag(""), "");
    assert_eq!(normalize_tag(" Ä b "), "_ä_b_");
}

#[test]
fn tags_from_registry_report() {
    let model = CivitaiModel {
        name: "Some Model".to_string(),
        model_type: "Textual Inversion".to_string(),
        nsfw: true,
        poi: false,
    };
    let meta = CivitaiFileMetadata { format: "SafeTensor".to_string(), fp: Some("FP16".to_string()) };
    assert_eq!(
        tags_from_model_info(&names(&["My Tag"]), &model, &meta),
        names(&["my_tag", "textual_inversion", "nsfw", "safetensor", "fp16"])
    );
    let model = CivitaiModel { poi: true, nsfw: false, ..model };
    let meta = CivitaiFileMetadata { fp: None, ..meta };
    assert_eq!(
        tags_from_model_info(&Vec::new(), &model, &meta),
        names(&["textual_inversion", "poi", "safetensor"])
    );
}

#[test]
fn tags_from_registry_report_are_attached_once() {
    let model = CivitaiModel {
        name: "M".to_string(),
        model_type: "LORA".to_string(),
        nsfw: true,
        poi: true,
    };
    let meta = CivitaiFileMetadata { format: "SafeTensor".to_string(), fp: Some("fp16".to_string()) };
    let mut graph = TagGraph::new();
    add_tag_from_model_info(&mut graph, 4, &names(&["lora"]), &model, &meta).unwrap();
    add_tag_from_model_info(&mut graph, 4, &names(&["lora"]), &model, &meta).unwrap();
    assert_eq!(get_tags(&graph, 4), names(&["lora", "nsfw", "poi", "safetensor", "fp16"]));
}
