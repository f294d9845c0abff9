use sd_models_manager::civitai::{
    authorization_value, file_metadata_of, first_image_url, get_model_info, model_info_url,
    model_name_of_sidecar, model_of, needs_download, preview_to_test, save_info,
    update_model_info, PreviewPlan,
};
use sd_models_manager::thumbnail::{plan_preview, FileType, PreviewAction};
use sd_models_manager::json::Document;
use sd_models_manager::sync::ScannedEntry;

const ANSWER: &str = r#"{
    "id": 5,
    "model": {"name": "Some Model", "type": "LORA", "nsfw": true, "poi": false},
    "files": [
        {"hashes": {"BLAKE3": "ABCDEF"}, "metadata": {"format": "SafeTensor", "fp": "fp16"}}
    ],
    "images": [
        {"url": "https://img.example/a/b/first.png"},
        {"url": "https://img.example/a/b/second.jpeg"}
    ]
}"#;

fn answer() -> Document {
    Document::parse(ANSWER).unwrap()
}

#[test]
fn registry_lookup_address() {
    assert_eq!(
        model_info_url("b94d27b993"),
        "https://civitai.com/api/v1/model-versions/by-hash/b94d27b993"
    );
    assert_eq!(authorization_value("secret"), "Bearer secret");
    let request = get_model_info("0123456789", "key");
    assert_eq!(request.url, "https://civitai.com/api/v1/model-versions/by-hash/0123456789");
    assert_eq!(request.authorization, "Bearer key");
}

#[test]
fn model_and_file_report() {
    let model = model_of(&answer());
    assert_eq!(model.name, "Some Model");
    assert_eq!(model.model_type, "LORA");
    assert!(model.nsfw);
    assert!(!model.poi);
    let meta = file_metadata_of(&answer());
    assert_eq!(meta.format, "SafeTensor");
    assert_eq!(meta.fp.as_deref(), Some("fp16"));
}

#[test]
fn missing_fields_are_empty() {
    let doc = Document::parse(r#"{"model": {"nsfw": "yes"}}"#).unwrap();
    let model = model_of(&doc);
    assert_eq!(model.name, "");
    assert_eq!(model.model_type, "");
    assert!(!model.nsfw);
    let meta = file_metadata_of(&doc);
    assert_eq!(meta.format, "");
    assert_eq!(meta.fp, None);
    assert_eq!(first_image_url(&doc), None);
}

#[test]
fn first_image_is_the_preview() {
    assert_eq!(first_image_url(&answer()), Some("https://img.example/a/b/first.png".to_string()));
}

#[test]
fn save_plan_for_an_answer() {
    let plan = save_info("/models/a/sub/model.safetensors", &answer()).unwrap();
    assert_eq!(plan.info_file, "/models/a/sub/model.json");
    assert_eq!(
        plan.preview,
        Some(PreviewPlan {
            url: "https://img.example/a/b/first.png".to_string(),
            canonical_file: "/models/a/sub/model.jpeg".to_string(),
            fetched_file: "/models/a/sub/model.png".to_string(),
        })
    );
    let parsed: serde_json::Value = serde_json::from_str(ANSWER).unwrap();
    assert_eq!(plan.info_text, serde_json::to_string_pretty(&parsed).unwrap());
    assert!(plan.info_text.contains("\n  \"model\": {"));
    let back: serde_json::Value = serde_json::from_str(&plan.info_text).unwrap();
    assert_eq!(back, parsed);
    assert_eq!(answer().pretty(), Some(plan.info_text));
}

#[test]
fn preview_without_extension_gets_the_preview_extension() {
    let doc = Document::parse(r#"{"images": [{"url": "https://img.example/a/picture"}]}"#).unwrap();
    let plan = save_info("/models/a/model.ckpt", &doc).unwrap();
    let preview = plan.preview.unwrap();
    assert_eq!(preview.fetched_file, "/models/a/model.jpeg");
    assert_eq!(preview.canonical_file, "/models/a/model.jpeg");
}

#[test]
fn sidecar_is_written_for_every_answer() {
    for text in [r#"{"images": []}"#, r#"{"images": [{"url": 5}]}"#, r#"[1, 2]"#, "{}", "null"] {
        let doc = Document::parse(text).unwrap();
        let plan = save_info("/models/a/model.ckpt", &doc).unwrap();
        assert_eq!(plan.info_file, "/models/a/model.json");
        assert_eq!(plan.preview, None);
        let written: serde_json::Value = serde_json::from_str(&plan.info_text).unwrap();
        let given: serde_json::Value = serde_json::from_str(text).unwrap();
        assert_eq!(written, given);
    }
}

#[test]
fn download_decision() {
    assert!(!needs_download(true, false));
    assert!(needs_download(true, true));
    assert!(needs_download(false, false));
    assert!(needs_download(false, true));
}

#[test]
fn scenario_enrichment_skip_on_existing_preview() {
    let disk = vec!["/m/model.safetensors".to_string(), "/m/model.jpeg".to_string()];
    let doc = Document::parse(r#"{"images": [{"url": "https://r/p/x.png"}]}"#).unwrap();
    let plan = save_info("/m/model.safetensors", &doc).unwrap();
    assert_eq!(plan.info_file, "/m/model.json");
    let preview = plan.preview.unwrap();
    assert_eq!(preview.canonical_file, "/m/model.jpeg");
    assert_eq!(preview.canonical_file, preview_to_test("/m/model.safetensors"));
    assert_eq!(preview.fetched_file, "/m/model.png");
    let exists = disk.contains(&preview.canonical_file);
    assert!(exists);
    assert!(!needs_download(exists, false));
    assert!(needs_download(exists, true));
}

#[test]
fn fetched_image_takes_the_canonical_name() {
    let doc = Document::parse(r#"{"images": [{"url": "https://r/p/x.png"}]}"#).unwrap();
    let preview = save_info("/m/model.safetensors", &doc).unwrap().preview.unwrap();
    assert!(needs_download(false, false));
    assert_eq!(
        plan_preview(&preview.fetched_file, FileType::Image, false, false),
        PreviewAction::Rename { from: preview.fetched_file, to: preview.canonical_file }
    );
}

#[test]
fn model_name_from_sidecar_text() {
    assert_eq!(model_name_of_sidecar(ANSWER), Some("Some Model".to_string()));
    assert_eq!(model_name_of_sidecar(""), None);
    assert_eq!(model_name_of_sidecar("{not json"), None);
    assert_eq!(model_name_of_sidecar(r#"{"model": {"name": 7}}"#), None);
}

#[test]
fn registry_is_asked_for_model_files_only() {
    let entry = |path: &str, is_file: bool| ScannedEntry {
        path: path.to_string(),
        is_file,
        identity: None,
        model_name: None,
    };
    let entries = vec![
        entry("/m/a.safetensors", true),
        entry("/m/dir.safetensors", false),
        entry("/m/notes.txt", true),
        entry("/m/sub/b.ckpt", true),
    ];
    let exts = vec!["safetensors".to_string(), "ckpt".to_string()];
    assert_eq!(update_model_info(&exts, &entries), vec!["/m/a.safetensors", "/m/sub/b.ckpt"]);
    assert!(update_model_info(&Vec::new(), &entries).is_empty());
}

#[test]
fn document_lookups() {
    let doc = answer();
    assert_eq!(doc.string("/model/name"), Some("Some Model".to_string()));
    assert_eq!(doc.string("/files/0/hashes/BLAKE3"), Some("ABCDEF".to_string()));
    assert_eq!(doc.string("/images/1/url"), Some("https://img.example/a/b/second.jpeg".to_string()));
    assert_eq!(doc.string("/images/2/url"), None);
    assert_eq!(doc.string("/model/nsfw"), None);
    assert_eq!(doc.string("model/name"), None);
    assert_eq!(doc.flag("/model/nsfw"), Some(true));
    assert_eq!(doc.flag("/model/poi"), Some(false));
    assert_eq!(doc.flag("/model/name"), None);
    assert_eq!(doc.flag("/id"), None);
    assert!(Document::parse("").is_none());
    assert!(Document::parse("{").is_none());
    assert_eq!(Document::parse("\"text\"").unwrap().string(""), Some("text".to_string()));
}
