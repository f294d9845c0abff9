use sd_models_manager::thumbnail::{
    classify_mime, file_type, generate_video_thumbnail, plan_preview, thumbnail_path, FileType,
    PreviewAction, FRAME_TOOL,
};

fn mp4() -> Vec<u8> {
    let mut data = vec![0u8, 0, 0, 0x18];
    data.extend_from_slice(b"ftypisom");
    data.extend_from_slice(&[0u8; 16]);
    data
}

#[test]
fn content_is_sniffed_not_the_name() {
    assert_eq!(file_type(&[0xFF, 0xD8, 0xFF, 0xAA]), FileType::Image);
    assert_eq!(file_type(&[0x89, b'P', b'N', b'G', 0x0D, 0x0A, 0x1A, 0x0A]), FileType::Image);
    assert_eq!(file_type(&mp4()), FileType::Video);
    assert_eq!(file_type(b"plain text"), FileType::NA);
    assert_eq!(file_type(b""), FileType::NA);
    assert_eq!(file_type(b"%PDF-1.7 and so on"), FileType::NA);
}

#[test]
fn mime_types_are_classified_by_prefix() {
    assert_eq!(classify_mime(Some("video/mp4")), FileType::Video);
    assert_eq!(classify_mime(Some("image/png")), FileType::Image);
    assert_eq!(classify_mime(Some("application/pdf")), FileType::NA);
    assert_eq!(classify_mime(Some("video")), FileType::NA);
    assert_eq!(classify_mime(Some("")), FileType::NA);
    assert_eq!(classify_mime(None), FileType::NA);
}

#[test]
fn scenario_video_thumbnail() {
    let action = plan_preview("/m/model.mp4", file_type(&mp4()), false, false);
    assert_eq!(
        action,
        PreviewAction::ExtractFrame {
            source: "/m/model.mp4".to_string(),
            thumbnail: "/m/model.jpeg".to_string(),
        }
    );
}

#[test]
fn existing_thumbnail_is_kept_unless_overwritten() {
    assert_eq!(plan_preview("/m/model.mp4", FileType::Video, false, true), PreviewAction::Keep);
    assert_eq!(
        plan_preview("/m/model.mp4", FileType::Video, true, true),
        PreviewAction::ExtractFrame {
            source: "/m/model.mp4".to_string(),
            thumbnail: "/m/model.jpeg".to_string(),
        }
    );
}

#[test]
fn image_is_renamed_to_the_preview_extension() {
    assert_eq!(
        plan_preview("/m/model.png", FileType::Image, false, false),
        PreviewAction::Rename { from: "/m/model.png".to_string(), to: "/m/model.jpeg".to_string() }
    );
    assert_eq!(
        plan_preview("/m/model", FileType::Image, true, true),
        PreviewAction::Rename { from: "/m/model".to_string(), to: "/m/model.jpeg".to_string() }
    );
    assert_eq!(plan_preview("/m/model.png", FileType::Image, false, true), PreviewAction::Keep);
    assert_eq!(plan_preview("/m/model.jpeg", FileType::Image, true, true), PreviewAction::Keep);
}

#[test]
fn unknown_content_is_left_alone() {
    assert_eq!(plan_preview("/m/model.bin", FileType::NA, true, false), PreviewAction::Keep);
}

#[test]
fn thumbnail_lies_beside_the_preview() {
    assert_eq!(thumbnail_path("/m/sub/model.webm"), "/m/sub/model.jpeg");
    assert_eq!(thumbnail_path("model"), "model.jpeg");
}

#[test]
fn frame_tool_arguments() {
    assert_eq!(FRAME_TOOL, "ffmpeg");
    let args = generate_video_thumbnail("/m/model.mp4", "/m/model.jpeg");
    let expected = vec![
        "-y",
        "-loglevel",
        "quiet",
        "-i",
        "/m/model.mp4",
        "-frames",
        "1",
        "-vf",
        "select=not(mod(n\\,3000)),scale=300:ih*300/iw",
        "-q:v",
        "10",
        "/m/model.jpeg",
    ];
    assert_eq!(args, expected);
}

#[test]
fn video_is_never_the_destination_of_its_frame() {
    assert_eq!(plan_preview("/m/model.jpeg", FileType::Video, true, true), PreviewAction::Keep);
    assert_eq!(plan_preview("/m/model.jpeg", FileType::Video, false, false), PreviewAction::Keep);
    assert_eq!(plan_preview("/m/model.jpeg", file_type(&mp4()), true, false), PreviewAction::Keep);
}
