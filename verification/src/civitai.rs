//! What the registry reports of a model file, and what is made of it.

use crate::api::{INFO_EXT, PREVIEW_EXT};
use crate::json::{flag_at, json_parsed, json_pretty, string_at, Document};
use crate::paths::{extension, extension_of, set_extension, with_extension};
use crate::seqs::{kept, lemma_kept_step};
use crate::sync::{entries_view, has_accepted_extension, is_leaf, EntryView, ScannedEntry};
use crate::text::{clone_text, normalize_tag, normalized_tag, opt_text, texts};
use vstd::prelude::*;
use vstd::string::*;

verus! {

/// What the registry says of the model that a file belongs to.
#[derive(Debug, Clone, PartialEq, Eq)]
pub struct CivitaiModel {
    pub name: String,
    /// Kind of model, as the registry names it.
    pub model_type: String,
    /// Whether the model is flagged as not safe for work.
    pub nsfw: bool,
    /// Whether the model is flagged as showing a person of interest.
    pub poi: bool,
}

/// What the registry says of the file itself.
#[derive(Debug, Clone, PartialEq, Eq)]
pub struct CivitaiFileMetadata {
    /// File format.
    pub format: String,
    /// Floating-point precision, where the registry reports one.
    pub fp: Option<String>,
}

/// The tag that marks a model as not safe for work.
pub const NSFW_TAG: &'static str = "nsfw";

/// The tag that marks a model as showing a person of interest.
pub const POI_TAG: &'static str = "poi";

/// Each of `labels` in its form as a tag.
pub open spec fn normalized_all(labels: Seq<Seq<char>>) -> Seq<Seq<char>> {
    Seq::new(labels.len(), |i: int| normalized_tag(labels[i]))
}

/// `s` with `x` at its end where `present` holds.
pub open spec fn push_if(s: Seq<Seq<char>>, present: bool, x: Seq<char>) -> Seq<Seq<char>> {
    if present {
        s.push(x)
    } else {
        s
    }
}

/// The tags that an item gets from what the registry reports: the extra
/// labels of the caller, the kind of model, the two flags where they are
/// set, the file format, and the precision where there is one. Every label
/// is taken in its form as a tag.
pub open spec fn derived_tags(
    extra: Seq<Seq<char>>,
    model_type: Seq<char>,
    nsfw: bool,
    poi: bool,
    format: Seq<char>,
    fp: Option<Seq<char>>,
) -> Seq<Seq<char>> {
    let with_type = normalized_all(extra).push(normalized_tag(model_type));
    let with_flags = push_if(push_if(with_type, nsfw, NSFW_TAG@), poi, POI_TAG@);
    let with_format = with_flags.push(normalized_tag(format));
    match fp {
        Some(f) => with_format.push(normalized_tag(f)),
        None => with_format,
    }
}

/// The tags that an item gets from what the registry reports.
pub fn tags_from_model_info(
    extra_tags: &Vec<String>,
    model_info: &CivitaiModel,
    file_metadata: &CivitaiFileMetadata,
) -> (tags: Vec<String>)
    ensures
        texts(tags@) == derived_tags(
            texts(extra_tags@),
            model_info.model_type@,
            model_info.nsfw,
            model_info.poi,
            file_metadata.format@,
            opt_text(file_metadata.fp),
        ),
{
    let ghost extra = texts(extra_tags@);
    let mut tags: Vec<String> = Vec::new();
    let mut i: usize = 0;
    while i < extra_tags.len()
        invariant
            i <= extra_tags@.len(),
            extra == texts(extra_tags@),
            texts(tags@) == normalized_all(extra).take(i as int),
        decreases extra_tags@.len() - i,
    {
        let ghost prev = texts(tags@);
        tags.push(normalize_tag(extra_tags[i].as_str()));
        assert(texts(tags@) =~= prev.push(normalized_tag(extra[i as int])));
        assert(texts(tags@) =~= normalized_all(extra).take(i + 1));
        i = i + 1;
    }
    assert(normalized_all(extra).take(i as int) =~= normalized_all(extra));
    let ghost s0 = texts(tags@);
    tags.push(normalize_tag(model_info.model_type.as_str()));
    assert(texts(tags@) =~= s0.push(normalized_tag(model_info.model_type@)));
    let ghost s1 = texts(tags@);
    if model_info.nsfw {
        tags.push(NSFW_TAG.to_owned());
        assert(texts(tags@) =~= s1.push(NSFW_TAG@));
    }
    let ghost s2 = texts(tags@);
    if model_info.poi {
        tags.push(POI_TAG.to_owned());
        assert(texts(tags@) =~= s2.push(POI_TAG@));
    }
    let ghost s3 = texts(tags@);
    tags.push(normalize_tag(file_metadata.format.as_str()));
    assert(texts(tags@) =~= s3.push(normalized_tag(file_metadata.format@)));
    let ghost s4 = texts(tags@);
    match &file_metadata.fp {
        Some(f) => {
            tags.push(normalize_tag(f.as_str()));
            assert(texts(tags@) =~= s4.push(normalized_tag(f@)));
        },
        None => {},
    }
    tags
}

/// Address of the registry's lookup by content identity, up to the identity.
pub const REGISTRY_LOOKUP: &'static str = "https://civitai.com/api/v1/model-versions/by-hash/";

/// What precedes the credential in the authorization header.
pub const BEARER: &'static str = "Bearer ";

/// The address at which the registry answers for the content identity `hash`.
pub fn model_info_url(hash: &str) -> (url: String)
    ensures
        url@ == REGISTRY_LOOKUP@ + hash@,
{
    let mut url = REGISTRY_LOOKUP.to_owned();
    url.append(hash);
    url
}

/// The value of the authorization header for the credential `api_key`.
pub fn authorization_value(api_key: &str) -> (value: String)
    ensures
        value@ == BEARER@ + api_key@,
{
    let mut value = BEARER.to_owned();
    value.append(api_key);
    value
}

/// `found`, or the empty string.
pub open spec fn or_empty(found: Option<Seq<char>>) -> Seq<char> {
    match found {
        Some(s) => s,
        None => Seq::empty(),
    }
}

/// `found`, or `false`.
pub open spec fn or_false(found: Option<bool>) -> bool {
    match found {
        Some(b) => b,
        None => false,
    }
}

/// The string at `pointer` in `doc`, or the empty string.
fn string_or_empty(doc: &Document, pointer: &str) -> (out: String)
    ensures
        out@ == or_empty(string_at(doc.value(), pointer@)),
{
    match doc.string(pointer) {
        Some(s) => s,
        None => String::new(),
    }
}

/// The boolean at `pointer` in `doc`, or `false`.
fn flag_or_false(doc: &Document, pointer: &str) -> (out: bool)
    ensures
        out == or_false(flag_at(doc.value(), pointer@)),
{
    match doc.flag(pointer) {
        Some(b) => b,
        None => false,
    }
}

/// What the registry's answer `doc` says of the model. A field that the
/// answer lacks is empty, or `false`.
pub fn model_of(doc: &Document) -> (model: CivitaiModel)
    ensures
        model.name@ == or_empty(string_at(doc.value(), "/model/name"@)),
        model.model_type@ == or_empty(string_at(doc.value(), "/model/type"@)),
        model.nsfw == or_false(flag_at(doc.value(), "/model/nsfw"@)),
        model.poi == or_false(flag_at(doc.value(), "/model/poi"@)),
{
    CivitaiModel {
        name: string_or_empty(doc, "/model/name"),
        model_type: string_or_empty(doc, "/model/type"),
        nsfw: flag_or_false(doc, "/model/nsfw"),
        poi: flag_or_false(doc, "/model/poi"),
    }
}

/// What the registry's answer `doc` says of its first file.
pub fn file_metadata_of(doc: &Document) -> (meta: CivitaiFileMetadata)
    ensures
        meta.format@ == or_empty(string_at(doc.value(), "/files/0/metadata/format"@)),
        opt_text(meta.fp) == string_at(doc.value(), "/files/0/metadata/fp"@),
{
    CivitaiFileMetadata {
        format: string_or_empty(doc, "/files/0/metadata/format"),
        fp: doc.string("/files/0/metadata/fp"),
    }
}

/// The address of the first preview image that the answer `doc` reports.
pub fn first_image_url(doc: &Document) -> (url: Option<String>)
    ensures
        opt_text(url) == string_at(doc.value(), "/images/0/url"@),
{
    doc.string("/images/0/url")
}

/// The model name in the text of a metadata sidecar, if the text is JSON
/// and names one.
pub open spec fn sidecar_model_name(text: Seq<char>) -> Option<Seq<char>> {
    match json_parsed(text) {
        Some(doc) => string_at(doc, "/model/name"@),
        None => None,
    }
}

/// The model name that the metadata sidecar with the text `text` gives.
pub fn model_name_of_sidecar(text: &str) -> (name: Option<String>)
    ensures
        opt_text(name) == sidecar_model_name(text@),
{
    match Document::parse(text) {
        Some(doc) => doc.string("/model/name"),
        None => None,
    }
}

/// The extension under which the preview at `url` is stored at first: that
/// of the address, or that of previews where the address has none.
pub open spec fn fetched_extension(url: Seq<char>) -> Seq<char> {
    match extension_of(url) {
        Some(e) => e,
        None => PREVIEW_EXT@,
    }
}

/// Where the preview of the model file `filepath` lies once it has the
/// extension of previews. Whether a file exists there decides whether a
/// preview is fetched.
pub open spec fn canonical_preview(filepath: Seq<char>) -> Seq<char> {
    with_extension(filepath, PREVIEW_EXT@)
}

/// The path whose existence decides whether a preview is fetched for the
/// model file `filepath`.
pub fn preview_to_test(filepath: &str) -> (out: String)
    ensures
        out@ == canonical_preview(filepath@),
{
    set_extension(filepath, PREVIEW_EXT)
}

/// The preview that an answer reports, and where it goes.
#[derive(Debug, Clone, PartialEq, Eq)]
pub struct PreviewPlan {
    /// Address of the preview.
    pub url: String,
    /// Path of the preview under the extension of previews. Where a file
    /// exists there and is not to be overwritten, nothing is fetched.
    pub canonical_file: String,
    /// Path under which the preview is stored when it is fetched: beside
    /// the model file, under the extension of the address.
    pub fetched_file: String,
}

/// A `PreviewPlan` in contracts.
pub struct PreviewPlanView {
    pub url: Seq<char>,
    pub canonical_file: Seq<char>,
    pub fetched_file: Seq<char>,
}

impl View for PreviewPlan {
    type V = PreviewPlanView;

    open spec fn view(&self) -> PreviewPlanView {
        PreviewPlanView {
            url: self.url@,
            canonical_file: self.canonical_file@,
            fetched_file: self.fetched_file@,
        }
    }
}

/// A preview plan in contracts, where there is one.
pub open spec fn opt_preview(plan: Option<PreviewPlan>) -> Option<PreviewPlanView> {
    match plan {
        Some(p) => Some(p@),
        None => None,
    }
}

/// What is written and fetched for a model file once the registry has answered.
#[derive(Debug, Clone, PartialEq, Eq)]
pub struct SavePlan {
    /// Path of the metadata sidecar.
    pub info_file: String,
    /// Text of the metadata sidecar.
    pub info_text: String,
    /// The preview, where the answer reports one.
    pub preview: Option<PreviewPlan>,
}

/// A `SavePlan` in contracts.
pub struct SavePlanView {
    pub info_file: Seq<char>,
    pub info_text: Seq<char>,
    pub preview: Option<PreviewPlanView>,
}

impl View for SavePlan {
    type V = SavePlanView;

    open spec fn view(&self) -> SavePlanView {
        SavePlanView {
            info_file: self.info_file@,
            info_text: self.info_text@,
            preview: opt_preview(self.preview),
        }
    }
}

/// The preview plan for the model file `filepath`, where the answer
/// reports a first preview at `url`.
pub open spec fn preview_plan(filepath: Seq<char>, url: Option<Seq<char>>) -> Option<
    PreviewPlanView,
> {
    match url {
        Some(u) => Some(
            PreviewPlanView {
                url: u,
                canonical_file: canonical_preview(filepath),
                fetched_file: with_extension(filepath, fetched_extension(u)),
            },
        ),
        None => None,
    }
}

/// What is saved for the model file `filepath` from the answer `doc`: the
/// sidecar beside the file, holding the answer as indented text, whatever
/// the answer holds; and the first preview that the answer reports, where
/// it reports one.
pub open spec fn save_plan(filepath: Seq<char>, doc: serde_json::Value) -> Option<SavePlanView> {
    match json_pretty(doc) {
        Some(text) => Some(
            SavePlanView {
                info_file: with_extension(filepath, INFO_EXT@),
                info_text: text,
                preview: preview_plan(filepath, string_at(doc, "/images/0/url"@)),
            },
        ),
        None => None,
    }
}

/// Plans what is saved for the model file `filepath` from the answer `doc`.
/// There is a plan for every answer that can be written as text.
pub fn save_info(filepath: &str, doc: &Document) -> (plan: Option<SavePlan>)
    ensures
        match plan {
            Some(p) => save_plan(filepath@, doc.value()) == Some(p@),
            None => save_plan(filepath@, doc.value()) is None && json_pretty(doc.value()) is None,
        },
{
    let text = match doc.pretty() {
        Some(text) => text,
        None => {
            return None;
        },
    };
    let preview = match first_image_url(doc) {
        Some(url) => {
            let ext = match extension(url.as_str()) {
                Some(e) => e,
                None => PREVIEW_EXT.to_owned(),
            };
            Some(
                PreviewPlan {
                    canonical_file: preview_to_test(filepath),
                    fetched_file: set_extension(filepath, ext.as_str()),
                    url,
                },
            )
        },
        None => None,
    };
    Some(SavePlan { info_file: set_extension(filepath, INFO_EXT), info_text: text, preview })
}

/// Whether the preview is fetched. `canonical_exists` says whether a file
/// exists at the `canonical_file` of the plan. The preview is fetched where
/// none exists there, and where one exists only if it is to be overwritten.
pub fn needs_download(canonical_exists: bool, overwrite: bool) -> (fetch: bool)
    ensures
        fetch == (!canonical_exists || overwrite),
{
    !canonical_exists || overwrite
}

/// What is asked of the registry for one file.
#[derive(Debug, Clone, PartialEq, Eq)]
pub struct RegistryRequest {
    /// Address of the lookup.
    pub url: String,
    /// Value of the authorization header.
    pub authorization: String,
}

/// The lookup for the file with the content identity `hash`, made with the
/// credential `api_key`.
pub fn get_model_info(hash: &str, api_key: &str) -> (request: RegistryRequest)
    ensures
        request.url@ == REGISTRY_LOOKUP@ + hash@,
        request.authorization@ == BEARER@ + api_key@,
{
    RegistryRequest { url: model_info_url(hash), authorization: authorization_value(api_key) }
}

/// The path of each entry.
pub open spec fn entry_paths(entries: Seq<EntryView>) -> Seq<Seq<char>> {
    Seq::new(entries.len(), |i: int| entries[i].path)
}

/// For each entry, whether it is a model file.
pub open spec fn leaf_mask(extensions: Seq<Seq<char>>, entries: Seq<EntryView>) -> Seq<bool> {
    Seq::new(entries.len(), |i: int| is_leaf(extensions, entries[i]))
}

/// The files for which the registry is asked: of the entries that a walk
/// has met, the files with an accepted extension, in the order of the walk.
pub fn update_model_info(extensions: &Vec<String>, entries: &Vec<ScannedEntry>) -> (files: Vec<
    String,
>)
    ensures
        texts(files@) == kept(
            entry_paths(entries_view(entries@)),
            leaf_mask(texts(extensions@), entries_view(entries@)),
        ),
{
    let ghost all = entry_paths(entries_view(entries@));
    let ghost mask = leaf_mask(texts(extensions@), entries_view(entries@));
    let mut files: Vec<String> = Vec::new();
    assert(texts(files@) =~= kept(all.take(0), mask.take(0)));
    let mut i: usize = 0;
    while i < entries.len()
        invariant
            i <= entries@.len(),
            all == entry_paths(entries_view(entries@)),
            mask == leaf_mask(texts(extensions@), entries_view(entries@)),
            texts(files@) == kept(all.take(i as int), mask.take(i as int)),
        decreases entries@.len() - i,
    {
        proof {
            lemma_kept_step(all, mask, i as int);
        }
        let ghost before = texts(files@);
        let entry = &entries[i];
        if entry.is_file && has_accepted_extension(extensions, entry.path.as_str()) {
            files.push(clone_text(&entry.path));
            assert(texts(files@) =~= before.push(all[i as int]));
        }
        i = i + 1;
    }
    assert(all.take(i as int) == all);
    assert(mask.take(i as int) == mask);
    files
}

} // verus!
