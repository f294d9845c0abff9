//! Previews: what kind of file was fetched, and what is done to make a
//! still image of it under the one extension that previews have.

use crate::api::PREVIEW_EXT;
use crate::paths::{extension, extension_of, set_extension, with_extension};
use crate::text::{opt_str, opt_text, same_str, starts_with, texts};
use vstd::prelude::*;
use vstd::string::*;

verus! {

/// What a file holds, told from its content.
#[derive(Debug, Clone, Copy, PartialEq, Eq, Structural)]
pub enum FileType {
    /// Neither a video nor an image, or not known.
    NA,
    Video,
    Image,
}

/// The MIME type that the `infer` crate tells from the first bytes of a
/// file, if it knows the signature.
pub uninterp spec fn sniffed_mime(data: Seq<u8>) -> Option<Seq<char>>;

/// `infer::get`, and of its result the MIME type: what `infer` makes of the
/// bytes `data`, which depends on nothing but these bytes.
#[verifier::external_body]
fn sniff_mime(data: &[u8]) -> (mime: Option<String>)
    ensures
        opt_text(mime) == sniffed_mime(data@),
{
    match infer::get(data) {
        Some(kind) => Some(kind.mime_type().to_string()),
        None => None,
    }
}

/// The kind of file that a MIME type stands for.
pub open spec fn classified(mime: Option<Seq<char>>) -> FileType {
    match mime {
        Some(m) => if "video/"@.is_prefix_of(m) {
            FileType::Video
        } else if "image/"@.is_prefix_of(m) {
            FileType::Image
        } else {
            FileType::NA
        },
        None => FileType::NA,
    }
}

/// The kind of file that a MIME type stands for: a video where it starts
/// with `video/`, an image where it starts with `image/`.
pub fn classify_mime(mime: Option<&str>) -> (kind: FileType)
    ensures
        kind == classified(opt_str(mime)),
{
    match mime {
        Some(m) => {
            if starts_with(m, "video/") {
                FileType::Video
            } else if starts_with(m, "image/") {
                FileType::Image
            } else {
                FileType::NA
            }
        },
        None => FileType::NA,
    }
}

/// The kind of file that `data` is the content of. The name of the file
/// plays no part.
pub fn file_type(data: &[u8]) -> (kind: FileType)
    ensures
        kind == classified(sniffed_mime(data@)),
{
    match sniff_mime(data) {
        Some(m) => classify_mime(Some(m.as_str())),
        None => classify_mime(None),
    }
}

/// What is done with a preview that was fetched.
#[derive(Debug, Clone, PartialEq, Eq)]
pub enum PreviewAction {
    /// The file stays as it is.
    Keep,
    /// One frame of the video `source` is written to `thumbnail`; the video stays.
    ExtractFrame { source: String, thumbnail: String },
    /// The image `from` gets the name `to`; its content stays.
    Rename { from: String, to: String },
}

/// A `PreviewAction` in contracts.
pub enum PreviewActionView {
    Keep,
    ExtractFrame { source: Seq<char>, thumbnail: Seq<char> },
    Rename { from: Seq<char>, to: Seq<char> },
}

impl View for PreviewAction {
    type V = PreviewActionView;

    open spec fn view(&self) -> PreviewActionView {
        match self {
            PreviewAction::Keep => PreviewActionView::Keep,
            PreviewAction::ExtractFrame { source, thumbnail } => PreviewActionView::ExtractFrame {
                source: source@,
                thumbnail: thumbnail@,
            },
            PreviewAction::Rename { from, to } => PreviewActionView::Rename { from: from@, to: to@ },
        }
    }
}

/// Where the still image of the preview `path` lies.
pub open spec fn thumbnail_of(path: Seq<char>) -> Seq<char> {
    with_extension(path, PREVIEW_EXT@)
}

/// What is done with the preview `path` of kind `kind`.
///
/// Of a video one frame is extracted, unless the still image exists and is
/// not to be overwritten, or the video itself lies where the still image
/// would go: a video is never the destination of its own frame. An image is
/// renamed where its extension is not that of previews, unless a still
/// image exists under that name and is not to be overwritten. Anything else
/// is left alone.
pub open spec fn preview_action(
    path: Seq<char>,
    kind: FileType,
    overwrite: bool,
    thumbnail_exists: bool,
) -> PreviewActionView {
    match kind {
        FileType::Video => if (!overwrite && thumbnail_exists) || thumbnail_of(path) == path {
            PreviewActionView::Keep
        } else {
            PreviewActionView::ExtractFrame { source: path, thumbnail: thumbnail_of(path) }
        },
        FileType::Image => if extension_of(path) == Some(PREVIEW_EXT@) || (!overwrite
            && thumbnail_exists) {
            PreviewActionView::Keep
        } else {
            PreviewActionView::Rename { from: path, to: thumbnail_of(path) }
        },
        FileType::NA => PreviewActionView::Keep,
    }
}

/// Where the still image of the preview `path` lies.
pub fn thumbnail_path(path: &str) -> (out: String)
    ensures
        out@ == thumbnail_of(path@),
{
    set_extension(path, PREVIEW_EXT)
}

/// Decides what is done with the preview `path`, whose content is of kind
/// `kind`. `thumbnail_exists` says whether `thumbnail_path(path)` exists.
pub fn plan_preview(path: &str, kind: FileType, overwrite: bool, thumbnail_exists: bool) -> (action:
    PreviewAction)
    ensures
        action@ == preview_action(path@, kind, overwrite, thumbnail_exists),
{
    match kind {
        FileType::Video => {
            let thumbnail = thumbnail_path(path);
            if (!overwrite && thumbnail_exists) || same_str(thumbnail.as_str(), path) {
                PreviewAction::Keep
            } else {
                PreviewAction::ExtractFrame { source: path.to_owned(), thumbnail }
            }
        },
        FileType::Image => {
            let canonical = match extension(path) {
                Some(e) => same_str(e.as_str(), PREVIEW_EXT),
                None => false,
            };
            if canonical || (!overwrite && thumbnail_exists) {
                PreviewAction::Keep
            } else {
                PreviewAction::Rename { from: path.to_owned(), to: thumbnail_path(path) }
            }
        },
        FileType::NA => PreviewAction::Keep,
    }
}

/// The program that extracts a frame.
pub const FRAME_TOOL: &'static str = "ffmpeg";

/// The arguments with which the frame tool writes one frame of `source` to
/// `thumbnail`: it overwrites, stays quiet, samples one frame and scales it
/// to a width of 300.
pub open spec fn frame_arguments(source: Seq<char>, thumbnail: Seq<char>) -> Seq<Seq<char>> {
    seq![
        "-y"@,
        "-loglevel"@,
        "quiet"@,
        "-i"@,
        source,
        "-frames"@,
        "1"@,
        "-vf"@,
        "select=not(mod(n\\,3000)),scale=300:ih*300/iw"@,
        "-q:v"@,
        "10"@,
        thumbnail,
    ]
}

/// The arguments for extracting one frame of the video `source` to `thumbnail`.
pub fn generate_video_thumbnail(source: &str, thumbnail: &str) -> (args: Vec<String>)
    ensures
        texts(args@) == frame_arguments(source@, thumbnail@),
{
    let mut args: Vec<String> = Vec::new();
    args.push("-y".to_owned());
    args.push("-loglevel".to_owned());
    args.push("quiet".to_owned());
    args.push("-i".to_owned());
    args.push(source.to_owned());
    args.push("-frames".to_owned());
    args.push("1".to_owned());
    args.push("-vf".to_owned());
    args.push("select=not(mod(n\\,3000)),scale=300:ih*300/iw".to_owned());
    args.push("-q:v".to_owned());
    args.push("10".to_owned());
    args.push(thumbnail.to_owned());
    assert(texts(args@) =~= frame_arguments(source@, thumbnail@));
    args
}

} // verus!
