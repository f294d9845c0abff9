use sd_models_manager::catalog::{insert_or_update, mark_obsolete, Catalog, Item};
use sd_models_manager::query::{get, get_children, search, search_by_name, search_by_tags};
use sd_models_manager::tag::{add_tag_item, TagGraph};
use sd_models_manager::text::contains_ignoring_case;

fn catalog(names: &[Option<&str>]) -> Catalog {
    let mut catalog = Catalog::new();
    for (n, name) in names.iter().enumerate() {
        insert_or_update(&mut catalog, *name, &format!("p{}", n), "A", None, None, None).unwrap();
    }
    catalog
}

fn ids(items: &[Item]) -> Vec<i64> {
    items.iter().map(|i| i.id).collect()
}

#[test]
fn pages_run_from_newest_to_oldest() {
    let c = catalog(&[Some("a"), Some("b"), Some("c"), Some("d"), Some("e")]);
    let (page, total) = get(&c, 2, 0);
    assert_eq!((ids(&page), total), (vec![5, 4], 5));
    let (page, _) = get(&c, 2, 2);
    assert_eq!(ids(&page), vec![3, 2]);
    let (page, _) = get(&c, 2, 4);
    assert_eq!(ids(&page), vec![1]);
    let (page, total) = get(&c, 2, 5);
    assert!(page.is_empty());
    assert_eq!(total, 5);
    let (page, _) = get(&c, 0, 0);
    assert!(page.is_empty());
}

#[test]
fn negative_limit_and_offset() {
    let c = catalog(&[Some("a"), Some("b"), Some("c")]);
    let (page, _) = get(&c, -1, 1);
    assert_eq!(ids(&page), vec![2, 1]);
    let (page, _) = get(&c, 2, -7);
    assert_eq!(ids(&page), vec![3, 2]);
    let (page, _) = get(&c, i64::MAX, i64::MAX);
    assert!(page.is_empty());
}

#[test]
fn only_marked_items_are_live() {
    let mut c = catalog(&[Some("a"), Some("b"), Some("c")]);
    mark_obsolete(&mut c, 2).unwrap();
    let (page, total) = get(&c, 10, 0);
    assert_eq!((ids(&page), total), (vec![3, 1], 2));
}

#[test]
fn name_search_ignores_case() {
    let c = catalog(&[Some("Dream Shaper"), Some("dreamlike"), None, Some("Realistic")]);
    let (page, total) = search_by_name(&c, "DREAM", 10, 0);
    assert_eq!((ids(&page), total), (vec![2, 1], 2));
    let (page, total) = search_by_name(&c, "", 10, 0);
    assert_eq!((ids(&page), total), (vec![4, 2, 1], 3));
    let (page, total) = search_by_name(&c, "dream", 1, 1);
    assert_eq!((ids(&page), total), (vec![1], 2));
    let (page, total) = search_by_name(&c, "nothing", 10, 0);
    assert!(page.is_empty());
    assert_eq!(total, 0);
}

#[test]
fn tag_search_lists_each_item_once() {
    let c = catalog(&[Some("one"), Some("two"), None, Some("lora pack")]);
    let mut g = TagGraph::new();
    add_tag_item(&mut g, 1, &vec!["lora".to_string(), "sdxl".to_string()]).unwrap();
    add_tag_item(&mut g, 2, &vec!["sdxl".to_string()]).unwrap();
    add_tag_item(&mut g, 3, &vec!["lora".to_string()]).unwrap();
    add_tag_item(&mut g, 4, &vec!["lora".to_string()]).unwrap();
    let words = vec!["lora".to_string(), "sdxl".to_string()];
    let (page, total) = search_by_tags(&c, &g, "lora sdxl", &words, 10, 0);
    assert_eq!((ids(&page), total), (vec![4, 2, 1], 3));
    let (page, total) = search_by_tags(&c, &g, "lora", &vec!["lora".to_string()], 10, 0);
    assert_eq!((ids(&page), total), (vec![1], 1));
}

#[test]
fn search_lists_names_then_tags() {
    let c = catalog(&[Some("one"), Some("two"), None, Some("lora pack")]);
    let mut g = TagGraph::new();
    add_tag_item(&mut g, 1, &vec!["lora".to_string()]).unwrap();
    add_tag_item(&mut g, 2, &vec!["sdxl".to_string()]).unwrap();
    add_tag_item(&mut g, 4, &vec!["lora".to_string()]).unwrap();
    let (page, total) = search(&c, &g, "lora", 10, 0);
    assert_eq!((ids(&page), total), (vec![4, 1], 2));
    let (page, total) = search(&c, &g, "  sdxl \t lora ", 10, 0);
    assert_eq!((ids(&page), total), (vec![4, 2, 1], 3));
    let (page, total) = search(&c, &g, "o", 1, 0);
    assert_eq!((ids(&page), total), (vec![4], 3));
}

#[test]
fn containment_ignoring_case() {
    assert!(contains_ignoring_case("Dream Shaper", "M SH"));
    assert!(contains_ignoring_case("abc", "ABC"));
    assert!(contains_ignoring_case("abc", ""));
    assert!(contains_ignoring_case("", ""));
    assert!(!contains_ignoring_case("abc", "abcd"));
    assert!(!contains_ignoring_case("abc", "bd"));
    assert!(!contains_ignoring_case("straße", "STRASSE"));
    assert!(!contains_ignoring_case("ä", "Ä"));
    assert!(contains_ignoring_case("a[b", "A[B"));
    assert!(!contains_ignoring_case("a{b", "A[B"));
}

#[test]
fn children_of_an_item() {
    let mut c = Catalog::new();
    let root = insert_or_update(&mut c, None, "", "A", None, None, None).unwrap();
    let sub = insert_or_update(&mut c, None, "sub", "A", Some(root), None, None).unwrap();
    let a = insert_or_update(&mut c, None, "a.ckpt", "A", Some(root), None, None).unwrap();
    let b = insert_or_update(&mut c, None, "sub/b.ckpt", "A", Some(sub), None, None).unwrap();
    let other = insert_or_update(&mut c, None, "", "B", None, None, None).unwrap();
    let (page, total) = get_children(&c, Some(root), 10, 0);
    assert_eq!((ids(&page), total), (vec![a, sub], 2));
    let (page, total) = get_children(&c, Some(sub), 10, 0);
    assert_eq!((ids(&page), total), (vec![b], 1));
    let (page, total) = get_children(&c, None, 1, 0);
    assert_eq!((ids(&page), total), (vec![other], 2));
    mark_obsolete(&mut c, a).unwrap();
    let (page, total) = get_children(&c, Some(root), 10, 0);
    assert_eq!((ids(&page), total), (vec![sub], 1));
    let (page, total) = get_children(&c, Some(b), 10, 0);
    assert!(page.is_empty());
    assert_eq!(total, 0);
}
