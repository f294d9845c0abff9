//! What a front end asks of the catalog: where the files of an item are,
//! pages of items, and what to move when an item is deleted.

use crate::catalog::{
    get_by_id, id_position, items_view, mark_obsolete, unmarked_by_id, Catalog, CatalogError,
    CatalogView, Item, ItemView,
};
use crate::config::{base_of, Config, ModelPath};
use crate::paths::{join, joined, plain_file_name, plain_name_of, set_extension, with_extension};
use crate::query::{found_by_name, found_by_tags, live_items, page_of, search};
use crate::tag::{get_tags, tags_of, TagGraph, TagGraphView};
use crate::text::{clone_text, opt_str, opt_text, texts, words_of};
use vstd::prelude::*;
use vstd::string::*;

verus! {

/// Extension of a preview image.
pub const PREVIEW_EXT: &'static str = "jpeg";

/// Extension of a metadata sidecar.
pub const INFO_EXT: &'static str = "json";

/// The files of the root `label` are served under `/` followed by this
/// prefix and the label.
pub const BASE_PATH_PREFIX: &'static str = "base_";

/// Name of the directory, directly under a root, that holds deleted files.
pub const TRASH_DIR: &'static str = ".trash";

/// The address under which the files of the root `label` are served.
pub open spec fn served_root(label: Seq<char>) -> Seq<char> {
    seq!['/'] + BASE_PATH_PREFIX@ + label
}

/// Where the model file of an item lies on disk.
pub open spec fn model_file_of(base: Seq<char>, rel_path: Seq<char>) -> Seq<char> {
    joined(base, rel_path)
}

/// Where the metadata sidecar of an item lies on disk: beside the model
/// file, under the same name with the sidecar extension.
pub open spec fn info_file_of(base: Seq<char>, rel_path: Seq<char>) -> Seq<char> {
    with_extension(joined(base, rel_path), INFO_EXT@)
}

/// Where the preview of an item lies on disk.
pub open spec fn preview_file_of(base: Seq<char>, rel_path: Seq<char>) -> Seq<char> {
    with_extension(joined(base, rel_path), PREVIEW_EXT@)
}

/// The address under which the preview of an item is served.
pub open spec fn preview_url_of(label: Seq<char>, rel_path: Seq<char>) -> Seq<char> {
    with_extension(joined(served_root(label), rel_path), PREVIEW_EXT@)
}

/// For the item `rel_path` of the root `label`: the path of its model file,
/// the path of its metadata sidecar, and the address of its preview.
/// All three are empty when no root has that label.
pub fn get_abs_path(config: &Config, label: &str, rel_path: &str) -> (r: (String, String, String))
    ensures
        match base_of(config.model_paths@, label@) {
            Some(base) => {
                &&& r.0@ == model_file_of(base, rel_path@)
                &&& r.1@ == info_file_of(base, rel_path@)
                &&& r.2@ == preview_url_of(label@, rel_path@)
            },
            None => r.0@.len() == 0 && r.1@.len() == 0 && r.2@.len() == 0,
        },
{
    match config.base_path(label) {
        Some(base) => {
            let model = join(base.as_str(), rel_path);
            let json = set_extension(model.as_str(), INFO_EXT);
            let mut served = String::new();
            served.push('/');
            served.append(BASE_PATH_PREFIX);
            served.append(label);
            assert(served@ == served_root(label@));
            let img = join(served.as_str(), rel_path);
            let preview = set_extension(img.as_str(), PREVIEW_EXT);
            (model, json, preview)
        },
        None => (String::new(), String::new(), String::new()),
    }
}

/// A file that is to be moved.
#[derive(Debug, Clone, PartialEq, Eq)]
pub struct FileMove {
    pub from: String,
    pub to: String,
}

/// A `FileMove` in contracts.
pub struct MoveView {
    pub from: Seq<char>,
    pub to: Seq<char>,
}

impl View for FileMove {
    type V = MoveView;

    open spec fn view(&self) -> MoveView {
        MoveView { from: self.from@, to: self.to@ }
    }
}

/// The views of `moves`, in order.
pub open spec fn moves_view(moves: Seq<FileMove>) -> Seq<MoveView> {
    Seq::new(moves.len(), |i: int| moves[i]@)
}

/// Where `file` lies once it was moved into the directory `dir`: under its
/// own name. A path that ends in no name is not moved.
pub open spec fn moved_into(file: Seq<char>, dir: Seq<char>) -> Option<Seq<char>> {
    match plain_name_of(file) {
        Some(name) => Some(joined(dir, name)),
        None => None,
    }
}

/// Where `file` lies once it was moved into the directory `dir`.
pub fn move_to_dir(file: &str, dir: &str) -> (dest: Option<String>)
    ensures
        match dest {
            Some(d) => moved_into(file@, dir@) == Some(d@),
            None => moved_into(file@, dir@) is None,
        },
{
    match plain_file_name(file) {
        Some(name) => Some(join(dir, name.as_str())),
        None => None,
    }
}

/// The trash directory of the root at `base`.
pub open spec fn trash_dir_of(base: Seq<char>) -> Seq<char> {
    joined(base, TRASH_DIR@)
}

/// `moves` with the move of `file` into `dir` at its end, if `file` is moved.
pub open spec fn with_move(moves: Seq<MoveView>, file: Seq<char>, dir: Seq<char>) -> Seq<MoveView> {
    match moved_into(file, dir) {
        Some(to) => moves.push(MoveView { from: file, to }),
        None => moves,
    }
}

/// What is moved when the item `rel_path` of the root at `base` is deleted:
/// the model file, its metadata sidecar and its preview, each into the
/// trash directory of the root, under its own name.
pub open spec fn trash_moves(base: Seq<char>, rel_path: Seq<char>) -> Seq<MoveView> {
    let dir = trash_dir_of(base);
    with_move(
        with_move(with_move(Seq::empty(), model_file_of(base, rel_path), dir), info_file_of(
            base,
            rel_path,
        ), dir),
        preview_file_of(base, rel_path),
        dir,
    )
}

/// Adds to `moves` the move of `file` into `dir`, if `file` is moved.
fn push_move(moves: &mut Vec<FileMove>, file: String, dir: &str)
    ensures
        moves_view(final(moves)@) == with_move(moves_view(old(moves)@), file@, dir@),
{
    let ghost before = moves_view(moves@);
    match move_to_dir(file.as_str(), dir) {
        Some(to) => {
            moves.push(FileMove { from: file, to });
            assert(moves_view(moves@) =~= before.push(
                MoveView { from: file@, to: moved_into(file@, dir@)->0 },
            ));
        },
        None => {},
    }
}

/// What is moved when the item `rel_path` of the root at `base_path` is deleted.
pub fn plan_trash(base_path: &str, rel_path: &str) -> (moves: Vec<FileMove>)
    ensures
        moves_view(moves@) == trash_moves(base_path@, rel_path@),
{
    let dir = join(base_path, TRASH_DIR);
    let model = join(base_path, rel_path);
    let json = set_extension(model.as_str(), INFO_EXT);
    let preview = set_extension(model.as_str(), PREVIEW_EXT);
    let mut moves: Vec<FileMove> = Vec::new();
    assert(moves_view(moves@) =~= Seq::empty());
    push_move(&mut moves, model, dir.as_str());
    push_move(&mut moves, json, dir.as_str());
    push_move(&mut moves, preview, dir.as_str());
    moves
}

/// What is moved when the item `id` is deleted: nothing where there is no
/// such item, or where its root is not configured.
pub open spec fn delete_moves(v: CatalogView, paths: Seq<ModelPath>, id: int) -> Seq<MoveView> {
    let i = id_position(v, id);
    if i < v.items.len() {
        match base_of(paths, v.items[i].base_label) {
            Some(base) => trash_moves(base, v.items[i].path),
            None => Seq::empty(),
        }
    } else {
        Seq::empty()
    }
}

/// Deletes the item `id` softly: clears its mark, so that the next sweep
/// takes it out of the catalog, and says which files are to be moved into
/// the trash directory of its root. The caller moves the files; one that is
/// missing is no failure.
pub fn delete(catalog: &mut Catalog, config: &Config, id: i64) -> (moves: Vec<FileMove>)
    requires
        old(catalog).wf(),
    ensures
        final(catalog).wf(),
        final(catalog)@ == unmarked_by_id(old(catalog)@, id as int),
        moves_view(moves@) == delete_moves(old(catalog)@, config.model_paths@, id as int),
{
    match mark_obsolete(catalog, id) {
        Ok((rel_path, label)) => {
            match config.base_path(label.as_str()) {
                Some(base) => plan_trash(base.as_str(), rel_path.as_str()),
                None => {
                    let moves: Vec<FileMove> = Vec::new();
                    assert(moves_view(moves@) =~= Seq::empty());
                    moves
                },
            }
        },
        Err(_) => {
            let moves: Vec<FileMove> = Vec::new();
            assert(moves_view(moves@) =~= Seq::empty());
            moves
        },
    }
}

/// The trash directories of the configured roots, in their order.
pub open spec fn trash_dirs(paths: Seq<ModelPath>) -> Seq<Seq<char>> {
    Seq::new(paths.len(), |i: int| trash_dir_of(paths[i].base_path@))
}

/// The directories that emptying the trash removes: one for each
/// configured root. The caller removes them; a failure with one does not
/// keep it from the others.
pub fn empty_trash(config: &Config) -> (dirs: Vec<String>)
    ensures
        texts(dirs@) == trash_dirs(config.model_paths@),
{
    let mut dirs: Vec<String> = Vec::new();
    let mut i: usize = 0;
    while i < config.model_paths.len()
        invariant
            i <= config.model_paths@.len(),
            texts(dirs@) == trash_dirs(config.model_paths@).take(i as int),
        decreases config.model_paths@.len() - i,
    {
        let ghost before = texts(dirs@);
        dirs.push(join(config.model_paths[i].base_path.as_str(), TRASH_DIR));
        assert(texts(dirs@) =~= before.push(
            trash_dir_of(config.model_paths@[i as int].base_path@),
        ));
        assert(texts(dirs@) =~= trash_dirs(config.model_paths@).take(i + 1));
        i = i + 1;
    }
    assert(trash_dirs(config.model_paths@).take(i as int) =~= trash_dirs(config.model_paths@));
    dirs
}

/// The page that a request asks for, counted from zero: pages are
/// numbered from one, and a missing or lesser number means the first.
pub open spec fn page_index(page: Option<i64>) -> int {
    match page {
        Some(p) => if p >= 1 {
            p - 1
        } else {
            0
        },
        None => 0,
    }
}

/// The number of items on a page: what the request asks for, at least
/// zero, or `per_page` where it names none.
pub open spec fn page_limit(count: Option<i64>, per_page: u32) -> int {
    match count {
        Some(c) => if c >= 0 {
            c as int
        } else {
            0
        },
        None => per_page as int,
    }
}

/// The number of items before the page, at most `i64::MAX`.
pub open spec fn page_offset(page: Option<i64>, count: Option<i64>, per_page: u32) -> int {
    let full = page_index(page) * page_limit(count, per_page);
    if full > i64::MAX {
        i64::MAX as int
    } else {
        full
    }
}

/// The limit and the offset that a request for a page stands for.
pub fn page_window(page: Option<i64>, count: Option<i64>, per_page: u32) -> (r: (i64, i64))
    ensures
        r.0 == page_limit(count, per_page),
        r.1 == page_offset(page, count, per_page),
{
    let index: i64 = match page {
        Some(p) => if p >= 1 {
            p - 1
        } else {
            0
        },
        None => 0,
    };
    let limit: i64 = match count {
        Some(c) => if c >= 0 {
            c
        } else {
            0
        },
        None => per_page as i64,
    };
    assert(index * limit >= 0) by (nonlinear_arith)
        requires
            index >= 0,
            limit >= 0,
    ;
    let offset = match index.checked_mul(limit) {
        Some(o) => o,
        None => i64::MAX,
    };
    (limit, offset)
}

/// What a front end shows of an item.
#[derive(Debug, Clone, PartialEq, Eq)]
pub struct ModelInfo {
    pub id: i64,
    pub name: String,
    /// Path of the model file on disk.
    pub path: String,
    /// Address under which the preview is served.
    pub preview: String,
    /// Text of the metadata sidecar, where it was asked for.
    pub info: Option<String>,
    pub tags: Vec<String>,
}

/// A `ModelInfo` in contracts.
pub struct ModelInfoView {
    pub id: int,
    pub name: Seq<char>,
    pub path: Seq<char>,
    pub preview: Seq<char>,
    pub info: Option<Seq<char>>,
    pub tags: Seq<Seq<char>>,
}

impl View for ModelInfo {
    type V = ModelInfoView;

    open spec fn view(&self) -> ModelInfoView {
        ModelInfoView {
            id: self.id as int,
            name: self.name@,
            path: self.path@,
            preview: self.preview@,
            info: opt_text(self.info),
            tags: texts(self.tags@),
        }
    }
}

/// The views of `infos`, in order.
pub open spec fn infos_view(infos: Seq<ModelInfo>) -> Seq<ModelInfoView> {
    Seq::new(infos.len(), |i: int| infos[i]@)
}

/// What is shown of the item `x`: its name, or the empty string where it
/// has none; where its model file lies and its preview is served, both
/// empty where its root is not configured; and its tags.
pub open spec fn shown(
    x: ItemView,
    graph: TagGraphView,
    paths: Seq<ModelPath>,
    info: Option<Seq<char>>,
) -> ModelInfoView {
    ModelInfoView {
        id: x.id,
        name: match x.name {
            Some(n) => n,
            None => Seq::empty(),
        },
        path: match base_of(paths, x.base_label) {
            Some(base) => model_file_of(base, x.path),
            None => Seq::empty(),
        },
        preview: match base_of(paths, x.base_label) {
            Some(_) => preview_url_of(x.base_label, x.path),
            None => Seq::empty(),
        },
        info,
        tags: tags_of(graph, x.id),
    }
}

/// Each of `items` as it is shown in a list, without its metadata.
pub open spec fn shown_all(items: Seq<ItemView>, graph: TagGraphView, paths: Seq<ModelPath>) -> Seq<
    ModelInfoView,
> {
    Seq::new(items.len(), |i: int| shown(items[i], graph, paths, None))
}

/// What is shown of `item`, with `info` as the text of its metadata.
pub fn show_item(item: &Item, graph: &TagGraph, config: &Config, info: Option<String>) -> (out:
    ModelInfo)
    ensures
        out@ == shown(item@, graph@, config.model_paths@, opt_text(info)),
{
    let (path, _, preview) = get_abs_path(config, item.base_label.as_str(), item.path.as_str());
    let name = match &item.name {
        Some(n) => clone_text(n),
        None => String::new(),
    };
    let out = ModelInfo { id: item.id, name, path, preview, info, tags: get_tags(graph, item.id) };
    assert(out@.path =~= shown(item@, graph@, config.model_paths@, opt_text(info)).path);
    assert(out@.preview =~= shown(item@, graph@, config.model_paths@, opt_text(info)).preview);
    assert(out@.name =~= shown(item@, graph@, config.model_paths@, opt_text(info)).name);
    out
}

/// Each of `items` as it is shown in a list.
pub fn show_items(items: &Vec<Item>, graph: &TagGraph, config: &Config) -> (out: Vec<ModelInfo>)
    ensures
        infos_view(out@) == shown_all(items_view(items@), graph@, config.model_paths@),
{
    let ghost all = shown_all(items_view(items@), graph@, config.model_paths@);
    let mut out: Vec<ModelInfo> = Vec::new();
    let mut i: usize = 0;
    while i < items.len()
        invariant
            i <= items@.len(),
            all == shown_all(items_view(items@), graph@, config.model_paths@),
            infos_view(out@) == all.take(i as int),
        decreases items@.len() - i,
    {
        let ghost before = infos_view(out@);
        let shown_item = show_item(&items[i], graph, config, None);
        assert(shown_item@ == all[i as int]);
        out.push(shown_item);
        assert(infos_view(out@) =~= before.push(all[i as int]));
        assert(infos_view(out@) =~= all.take(i + 1));
        i = i + 1;
    }
    assert(all.take(i as int) =~= all);
    out
}

/// A page of items, and the number of items that the request matches.
#[derive(Debug, Clone, PartialEq, Eq)]
pub struct GetResponse {
    pub items: Vec<ModelInfo>,
    pub total: i64,
}

/// The items that a request lists: those that the search finds, by name
/// first and then by tag, or the live items where the request names no search.
pub open spec fn listed(
    v: CatalogView,
    graph: TagGraphView,
    search: Option<Seq<char>>,
    limit: int,
    offset: int,
) -> Seq<ItemView> {
    match search {
        Some(text) => page_of(found_by_name(v, text), limit, offset) + page_of(
            found_by_tags(v, graph, text, words_of(text)),
            limit,
            offset,
        ),
        None => page_of(live_items(v), limit, offset),
    }
}

/// The number of items that a request matches.
pub open spec fn listed_total(
    v: CatalogView,
    graph: TagGraphView,
    search: Option<Seq<char>>,
) -> int {
    match search {
        Some(text) => (found_by_name(v, text).len() + found_by_tags(
            v,
            graph,
            text,
            words_of(text),
        ).len()) as int,
        None => live_items(v).len() as int,
    }
}

/// Answers a request for a page of items.
pub fn get(
    catalog: &Catalog,
    graph: &TagGraph,
    config: &Config,
    page: Option<i64>,
    count: Option<i64>,
    search_text: Option<&str>,
) -> (response: GetResponse)
    requires
        catalog.wf(),
    ensures
        infos_view(response.items@) == shown_all(
            listed(
                catalog@,
                graph@,
                opt_str(search_text),
                page_limit(count, config.per_page),
                page_offset(page, count, config.per_page),
            ),
            graph@,
            config.model_paths@,
        ),
        response.total == listed_total(catalog@, graph@, opt_str(search_text)),
{
    let (limit, offset) = page_window(page, count, config.per_page);
    let (items, total) = match search_text {
        Some(text) => search(catalog, graph, text, limit, offset),
        None => crate::query::get(catalog, limit, offset),
    };
    GetResponse { items: show_items(&items, graph, config), total }
}

/// The item `id` as it is shown, and the path of its metadata sidecar,
/// which the caller reads. Fails when no item has that id.
pub fn get_item(catalog: &Catalog, graph: &TagGraph, config: &Config, id: i64) -> (r: Result<
    (ModelInfo, String),
    CatalogError,
>)
    requires
        catalog.wf(),
    ensures
        match r {
            Ok(found) => {
                let i = id_position(catalog@, id as int);
                let x = catalog@.items[i];
                &&& i < catalog@.items.len()
                &&& found.0@ == shown(x, graph@, config.model_paths@, None)
                &&& found.1@ == match base_of(config.model_paths@, x.base_label) {
                    Some(base) => info_file_of(base, x.path),
                    None => Seq::empty(),
                }
            },
            Err(e) => e == CatalogError::NotFound && id_position(catalog@, id as int)
                == catalog@.items.len(),
        },
{
    match get_by_id(catalog, id) {
        Ok(item) => {
            let (_, json, _) = get_abs_path(config, item.base_label.as_str(), item.path.as_str());
            let info = show_item(&item, graph, config, None);
            assert(json@ =~= match base_of(config.model_paths@, item@.base_label) {
                Some(base) => info_file_of(base, item@.path),
                None => Seq::empty(),
            });
            Ok((info, json))
        },
        Err(e) => Err(e),
    }
}

} // verus!
