//! The catalog: roots and items, and the three steps of a synchronisation
//! pass (reset the marks, record what is seen, sweep what was not).
//!
//! Contracts speak of a catalog through its view, a `CatalogView`: the rows
//! in the order in which they were made, with strings as sequences of
//! characters. The spec functions of this module say what each operation
//! does to that view.

use crate::paths::{plain_file_name, plain_name_of};
use crate::seqs::{
    distinct, kept, kept_source, lemma_kept, lemma_kept_step, lemma_position, lemma_position_unique,
    position,
};
use crate::text::{clone_text, clone_text_opt, opt_str, opt_text, own_text_opt, same_text};
use vstd::prelude::*;

verus! {

/// Why a catalog operation gave no result.
#[derive(Debug, Clone, Copy, PartialEq, Eq, Structural)]
pub enum CatalogError {
    /// No row has the id or the name that was asked for.
    NotFound,
    /// Every id has been given out; no row can be added.
    IdsExhausted,
    /// A tag of that name exists already.
    TagExists,
}

/// A configured top-level directory, as the catalog records it.
#[derive(Debug, Clone, PartialEq, Eq)]
pub struct Root {
    pub label: String,
    /// Set when a pass has seen the root; cleared when a pass starts.
    pub checked: bool,
}

/// A directory or a file below a root.
#[derive(Debug, Clone, PartialEq, Eq)]
pub struct Item {
    pub id: i64,
    /// Display name.
    pub name: Option<String>,
    /// Path relative to the root; empty for the root's own node.
    pub path: String,
    /// Label of the root that holds the item.
    pub base_label: String,
    /// Id of the item one level up; `None` for a root's own node.
    pub parent: Option<i64>,
    /// Content identity; files with an accepted extension only.
    pub hash: Option<String>,
    pub model_name: Option<String>,
    /// Set when a pass has seen the item; cleared when a pass starts.
    pub checked: bool,
}

/// A `Root` in contracts.
pub struct RootView {
    pub label: Seq<char>,
    pub checked: bool,
}

/// An `Item` in contracts.
pub struct ItemView {
    pub id: int,
    pub name: Option<Seq<char>>,
    pub path: Seq<char>,
    pub base_label: Seq<char>,
    pub parent: Option<int>,
    pub hash: Option<Seq<char>>,
    pub model_name: Option<Seq<char>>,
    pub checked: bool,
}

/// A `Catalog` in contracts.
pub struct CatalogView {
    pub roots: Seq<RootView>,
    pub items: Seq<ItemView>,
    /// The id that the next new item gets.
    pub next_id: int,
}

/// An optional id as an optional integer.
pub open spec fn opt_id(id: Option<i64>) -> Option<int> {
    match id {
        Some(i) => Some(i as int),
        None => None,
    }
}

/// An optional parent to set, as contracts see it.
pub open spec fn opt_parent(parent: Option<Option<i64>>) -> Option<Option<int>> {
    match parent {
        Some(p) => Some(opt_id(p)),
        None => None,
    }
}

impl View for Root {
    type V = RootView;

    open spec fn view(&self) -> RootView {
        RootView { label: self.label@, checked: self.checked }
    }
}

impl View for Item {
    type V = ItemView;

    open spec fn view(&self) -> ItemView {
        ItemView {
            id: self.id as int,
            name: opt_text(self.name),
            path: self.path@,
            base_label: self.base_label@,
            parent: opt_id(self.parent),
            hash: opt_text(self.hash),
            model_name: opt_text(self.model_name),
            checked: self.checked,
        }
    }
}

/// The views of `rows`, in order.
pub open spec fn roots_view(rows: Seq<Root>) -> Seq<RootView> {
    Seq::new(rows.len(), |i: int| rows[i]@)
}

/// The views of `rows`, in order.
pub open spec fn items_view(rows: Seq<Item>) -> Seq<ItemView> {
    Seq::new(rows.len(), |i: int| rows[i]@)
}

/// The key of each item: its root's label and its path.
pub open spec fn item_keys(items: Seq<ItemView>) -> Seq<(Seq<char>, Seq<char>)> {
    Seq::new(items.len(), |i: int| (items[i].base_label, items[i].path))
}

/// The id of each item.
pub open spec fn item_ids(items: Seq<ItemView>) -> Seq<int> {
    Seq::new(items.len(), |i: int| items[i].id)
}

/// The label of each root.
pub open spec fn root_labels(roots: Seq<RootView>) -> Seq<Seq<char>> {
    Seq::new(roots.len(), |i: int| roots[i].label)
}

/// What holds of every catalog: one item per root and path, one root per
/// label, and ids that grow with the rows and stay below the next id.
pub open spec fn catalog_wf(v: CatalogView) -> bool {
    &&& 1 <= v.next_id <= i64::MAX
    &&& distinct(item_keys(v.items))
    &&& distinct(root_labels(v.roots))
    &&& forall|i: int| 0 <= i < v.items.len() ==> 1 <= (#[trigger] v.items[i]).id < v.next_id
    &&& forall|i: int, j: int|
        0 <= i < j < v.items.len() ==> (#[trigger] v.items[i]).id < (#[trigger] v.items[j]).id
}

/// Index of the item with the given key; the number of items when there is none.
pub open spec fn item_position(v: CatalogView, label: Seq<char>, path: Seq<char>) -> int {
    position(item_keys(v.items), (label, path))
}

/// Whether an item has the given key.
pub open spec fn has_item(v: CatalogView, label: Seq<char>, path: Seq<char>) -> bool {
    item_position(v, label, path) < v.items.len()
}

/// The item with the given key.
pub open spec fn item_at(v: CatalogView, label: Seq<char>, path: Seq<char>) -> ItemView {
    v.items[item_position(v, label, path)]
}

/// Index of the item with the given id; the number of items when there is none.
pub open spec fn id_position(v: CatalogView, id: int) -> int {
    position(item_ids(v.items), id)
}

/// Index of the root with the given label; the number of roots when there is none.
pub open spec fn root_position(v: CatalogView, label: Seq<char>) -> int {
    position(root_labels(v.roots), label)
}

/// The catalog with no root and no item.
pub open spec fn empty_catalog() -> CatalogView {
    CatalogView { roots: Seq::empty(), items: Seq::empty(), next_id: 1 }
}

/// `x` with its mark cleared.
pub open spec fn unmarked_item(x: ItemView) -> ItemView {
    ItemView { checked: false, ..x }
}

/// `r` with its mark cleared.
pub open spec fn unmarked_root(r: RootView) -> RootView {
    RootView { checked: false, ..r }
}

/// Start of a pass: every mark is cleared, nothing else changes.
pub open spec fn reset_marks(v: CatalogView) -> CatalogView {
    CatalogView {
        roots: Seq::new(v.roots.len(), |i: int| unmarked_root(v.roots[i])),
        items: Seq::new(v.items.len(), |i: int| unmarked_item(v.items[i])),
        next_id: v.next_id,
    }
}

/// The root `label` is found and marked, or added with its mark set.
pub open spec fn root_marked(v: CatalogView, label: Seq<char>) -> CatalogView {
    let i = root_position(v, label);
    if i < v.roots.len() {
        CatalogView { roots: v.roots.update(i, RootView { checked: true, ..v.roots[i] }), ..v }
    } else {
        CatalogView { roots: v.roots.push(RootView { label, checked: true }), ..v }
    }
}

/// What a pass writes when it records an item.
pub struct Sighting {
    pub label: Seq<char>,
    pub path: Seq<char>,
    /// Display name, used when the item is new.
    pub name: Option<Seq<char>>,
    /// The parent to set; `None` leaves the parent of an existing item as it is.
    pub parent: Option<Option<int>>,
    /// The content identity to set; `None` leaves that of an existing item as it is.
    pub hash: Option<Seq<char>>,
    /// Model name, used when the item is new.
    pub model_name: Option<Seq<char>>,
}

/// The row that `s` leaves where `old` was: parent and content identity as
/// far as `s` gives them, and the mark set.
pub open spec fn resighted(old: ItemView, s: Sighting) -> ItemView {
    ItemView {
        parent: match s.parent {
            Some(p) => p,
            None => old.parent,
        },
        hash: if s.hash is Some {
            s.hash
        } else {
            old.hash
        },
        checked: true,
        ..old
    }
}

/// The row that `s` adds under the id `id`.
pub open spec fn first_sighted(id: int, s: Sighting) -> ItemView {
    ItemView {
        id,
        name: s.name,
        path: s.path,
        base_label: s.label,
        parent: match s.parent {
            Some(p) => p,
            None => None,
        },
        hash: s.hash,
        model_name: s.model_name,
        checked: true,
    }
}

/// The catalog after `s` was recorded: the item with the key of `s` is
/// updated where it exists and added where it does not. When no id is left
/// for a new item the catalog stays as it is.
pub open spec fn recorded(v: CatalogView, s: Sighting) -> CatalogView {
    let i = item_position(v, s.label, s.path);
    if i < v.items.len() {
        CatalogView { items: v.items.update(i, resighted(v.items[i], s)), ..v }
    } else if v.next_id < i64::MAX {
        CatalogView {
            items: v.items.push(first_sighted(v.next_id, s)),
            next_id: v.next_id + 1,
            ..v
        }
    } else {
        v
    }
}

/// The id of the item that recording `s` updates or adds, if recording succeeds.
pub open spec fn recorded_id(v: CatalogView, s: Sighting) -> Option<int> {
    let i = item_position(v, s.label, s.path);
    if i < v.items.len() {
        Some(v.items[i].id)
    } else if v.next_id < i64::MAX {
        Some(v.next_id)
    } else {
        None
    }
}

/// The display name that an item gets when it is made for its path alone:
/// the name that the path ends in, if it ends in one.
pub open spec fn name_from_path(path: Seq<char>) -> Option<Seq<char>> {
    plain_name_of(path)
}

/// What find-or-create writes: the mark, and for a new item its name.
pub open spec fn plain_sighting(label: Seq<char>, path: Seq<char>) -> Sighting {
    Sighting { label, path, name: name_from_path(path), parent: None, hash: None, model_name: None }
}

/// The mark of each item.
pub open spec fn item_marks(items: Seq<ItemView>) -> Seq<bool> {
    Seq::new(items.len(), |i: int| items[i].checked)
}

/// The mark of each root.
pub open spec fn root_marks(roots: Seq<RootView>) -> Seq<bool> {
    Seq::new(roots.len(), |i: int| roots[i].checked)
}

/// End of a pass: the items and the roots whose mark is not set are gone;
/// the others stay, in their order.
pub open spec fn swept(v: CatalogView) -> CatalogView {
    CatalogView {
        roots: kept(v.roots, root_marks(v.roots)),
        items: kept(v.items, item_marks(v.items)),
        next_id: v.next_id,
    }
}

/// The catalog with the mark of the item `id` cleared, if there is such an item.
pub open spec fn unmarked_by_id(v: CatalogView, id: int) -> CatalogView {
    let i = id_position(v, id);
    if i < v.items.len() {
        CatalogView { items: v.items.update(i, unmarked_item(v.items[i])), ..v }
    } else {
        v
    }
}

/// The catalog of roots and items.
pub struct Catalog {
    roots: Vec<Root>,
    items: Vec<Item>,
    next_id: i64,
}

impl View for Catalog {
    type V = CatalogView;

    closed spec fn view(&self) -> CatalogView {
        CatalogView {
            roots: roots_view(self.roots@),
            items: items_view(self.items@),
            next_id: self.next_id as int,
        }
    }
}

impl Catalog {
    /// Whether the catalog keeps its invariant.
    pub open spec fn wf(&self) -> bool {
        catalog_wf(self@)
    }

    /// A catalog without roots and items.
    pub fn new() -> (catalog: Catalog)
        ensures
            catalog.wf(),
            catalog@ == empty_catalog(),
    {
        let catalog = Catalog { roots: Vec::new(), items: Vec::new(), next_id: 1 };
        assert(catalog@.roots =~= Seq::empty());
        assert(catalog@.items =~= Seq::empty());
        catalog
    }

    /// Makes a catalog of rows that were stored before. Gives nothing where
    /// the rows break the invariant of a catalog: a key or a label that
    /// occurs twice, ids that do not grow, or an id that is not below `next_id`.
    pub fn restore(roots: Vec<Root>, items: Vec<Item>, next_id: i64) -> (r: Option<Catalog>)
        ensures
            match r {
                Some(catalog) => catalog.wf() && catalog@ == (CatalogView {
                    roots: roots_view(roots@),
                    items: items_view(items@),
                    next_id: next_id as int,
                }),
                None => !catalog_wf(
                    (CatalogView {
                        roots: roots_view(roots@),
                        items: items_view(items@),
                        next_id: next_id as int,
                    }),
                ),
            },
    {
        let ghost v = CatalogView {
            roots: roots_view(roots@),
            items: items_view(items@),
            next_id: next_id as int,
        };
        if next_id < 1 {
            return None;
        }
        if !ids_in_order(&items, next_id) || !keys_distinct(&items) || !labels_distinct(&roots) {
            return None;
        }
        Some(Catalog { roots, items, next_id })
    }

    /// Whether the catalog keeps its invariant, found out by looking at
    /// every row.
    pub fn check(&self) -> (r: bool)
        ensures
            r == self.wf(),
    {
        self.next_id >= 1 && ids_in_order(&self.items, self.next_id) && keys_distinct(&self.items)
            && labels_distinct(&self.roots)
    }

    /// The items, in the order in which they were made.
    pub fn items(&self) -> (rows: &Vec<Item>)
        ensures
            items_view(rows@) == self@.items,
    {
        &self.items
    }

    /// The roots, in the order in which they were made.
    pub fn roots(&self) -> (rows: &Vec<Root>)
        ensures
            roots_view(rows@) == self@.roots,
    {
        &self.roots
    }

    /// The id that the next new item gets.
    pub fn next_id(&self) -> (id: i64)
        ensures
            id == self@.next_id,
    {
        self.next_id
    }

    /// Index of the item with the given key.
    fn find_key(&self, label: &String, path: &String) -> (r: Option<usize>)
        requires
            self.wf(),
        ensures
            match r {
                Some(i) => i < self@.items.len() && i == item_position(self@, label@, path@),
                None => !has_item(self@, label@, path@),
            },
    {
        let ghost keys = item_keys(self@.items);
        let mut i: usize = 0;
        while i < self.items.len()
            invariant
                i <= self.items@.len(),
                keys == item_keys(self@.items),
                forall|j: int| 0 <= j < i ==> keys[j] != (label@, path@),
            decreases self.items@.len() - i,
        {
            if same_text(&self.items[i].base_label, label) && same_text(&self.items[i].path, path) {
                proof {
                    lemma_position_unique(keys, (label@, path@), i as int);
                }
                return Some(i);
            }
            i = i + 1;
        }
        proof {
            lemma_position_unique(keys, (label@, path@), i as int);
        }
        None
    }

    /// Index of the item with the given id.
    fn find_id(&self, id: i64) -> (r: Option<usize>)
        requires
            self.wf(),
        ensures
            match r {
                Some(i) => i < self@.items.len() && i == id_position(self@, id as int),
                None => id_position(self@, id as int) == self@.items.len(),
            },
    {
        let ghost ids = item_ids(self@.items);
        let mut i: usize = 0;
        while i < self.items.len()
            invariant
                i <= self.items@.len(),
                ids == item_ids(self@.items),
                forall|j: int| 0 <= j < i ==> ids[j] != id as int,
            decreases self.items@.len() - i,
        {
            if self.items[i].id == id {
                proof {
                    lemma_position_unique(ids, id as int, i as int);
                }
                return Some(i);
            }
            i = i + 1;
        }
        proof {
            lemma_position_unique(ids, id as int, i as int);
        }
        None
    }

    /// Records one sighting: updates the item with that key or adds it.
    fn record(
        &mut self,
        label: &str,
        path: &str,
        name: Option<&str>,
        parent: Option<Option<i64>>,
        hash: Option<&str>,
        model_name: Option<&str>,
    ) -> (r: Result<i64, CatalogError>)
        requires
            old(self).wf(),
        ensures
            final(self).wf(),
            final(self)@ == recorded(
                old(self)@,
                (Sighting {
                    label: label@,
                    path: path@,
                    name: opt_str(name),
                    parent: opt_parent(parent),
                    hash: opt_str(hash),
                    model_name: opt_str(model_name),
                }),
            ),
            match r {
                Ok(id) => recorded_id(
                    old(self)@,
                    (Sighting {
                        label: label@,
                        path: path@,
                        name: opt_str(name),
                        parent: opt_parent(parent),
                        hash: opt_str(hash),
                        model_name: opt_str(model_name),
                    }),
                ) == Some(id as int),
                Err(e) => e == CatalogError::IdsExhausted && recorded_id(
                    old(self)@,
                    (Sighting {
                        label: label@,
                        path: path@,
                        name: opt_str(name),
                        parent: opt_parent(parent),
                        hash: opt_str(hash),
                        model_name: opt_str(model_name),
                    }),
                ) is None,
            },
    {
        let ghost s = Sighting {
            label: label@,
            path: path@,
            name: opt_str(name),
            parent: opt_parent(parent),
            hash: opt_str(hash),
            model_name: opt_str(model_name),
        };
        let ghost before = self@;
        let label_text = label.to_owned();
        let path_text = path.to_owned();
        proof {
            lemma_position(item_keys(before.items), (label@, path@));
        }
        match self.find_key(&label_text, &path_text) {
            Some(i) => {
                let id = self.items[i].id;
                let ghost rows = self.items@;
                self.items[i].checked = true;
                match parent {
                    Some(p) => {
                        self.items[i].parent = p;
                    },
                    None => {},
                }
                match hash {
                    Some(h) => {
                        self.items[i].hash = Some(h.to_owned());
                    },
                    None => {},
                }
                assert(self.items@.len() == rows.len());
                assert(forall|j: int| 0 <= j < rows.len() && j != i ==> self.items@[j] == rows[j]);
                assert(self.items@[i as int]@ == resighted(before.items[i as int], s));
                assert(self@.items =~= before.items.update(i as int, resighted(before.items[i as int], s)));
                assert(item_keys(self@.items) =~= item_keys(before.items));
                Ok(id)
            },
            None => {
                if self.next_id == i64::MAX {
                    return Err(CatalogError::IdsExhausted);
                }
                let id = self.next_id;
                let item = Item {
                    id,
                    name: own_text_opt(name),
                    path: path_text,
                    base_label: label_text,
                    parent: match parent {
                        Some(p) => p,
                        None => None,
                    },
                    hash: own_text_opt(hash),
                    model_name: own_text_opt(model_name),
                    checked: true,
                };
                assert(item@ == first_sighted(id as int, s));
                self.items.push(item);
                self.next_id = id + 1;
                assert(self@.items =~= before.items.push(first_sighted(id as int, s)));
                assert(self@.roots == before.roots);
                proof {
                    let keys = item_keys(self@.items);
                    assert forall|a: int, b: int| 0 <= a < b < keys.len() implies keys[a]
                        != keys[b] by {
                        assert(keys[a] == item_keys(before.items)[a]);
                        if b < before.items.len() {
                            assert(keys[b] == item_keys(before.items)[b]);
                        }
                    }
                }
                Ok(id)
            },
        }
    }
}

/// Starts a pass: clears the mark of every root and of every item.
pub fn mark_obsolete_all(catalog: &mut Catalog)
    requires
        old(catalog).wf(),
    ensures
        final(catalog).wf(),
        final(catalog)@ == reset_marks(old(catalog)@),
{
    let ghost before = catalog@;
    let mut i: usize = 0;
    while i < catalog.items.len()
        invariant
            i <= catalog.items@.len(),
            catalog.items@.len() == before.items.len(),
            catalog@.roots == before.roots,
            catalog@.next_id == before.next_id,
            forall|j: int| 0 <= j < i ==> catalog@.items[j] == unmarked_item(before.items[j]),
            forall|j: int| i <= j < before.items.len() ==> catalog@.items[j] == before.items[j],
        decreases catalog.items@.len() - i,
    {
        let ghost rows = catalog.items@;
        let ghost mid = catalog@;
        assert(mid.items == items_view(rows));
        assert(forall|j: int| 0 <= j < i ==> mid.items[j] == unmarked_item(before.items[j]));
        assert(forall|j: int| i <= j < before.items.len() ==> mid.items[j] == before.items[j]);
        catalog.items[i].checked = false;
        assert(catalog.items@.len() == rows.len());
        assert(forall|j: int| 0 <= j < rows.len() && j != i ==> catalog.items@[j] == rows[j]);
        assert(catalog.items@[i as int]@ == unmarked_item(rows[i as int]@));
        assert forall|j: int| 0 <= j < i + 1 implies catalog@.items[j] == unmarked_item(
            before.items[j],
        ) by {
            if j < i {
                assert(catalog.items@[j] == rows[j]);
                assert(items_view(rows)[j] == unmarked_item(before.items[j]));
            } else {
                assert(items_view(rows)[j] == before.items[j]);
            }
        }
        assert forall|j: int| i + 1 <= j < before.items.len() implies catalog@.items[j]
            == before.items[j] by {
            assert(catalog.items@[j] == rows[j]);
            assert(items_view(rows)[j] == before.items[j]);
        }
        i = i + 1;
    }
    let mut k: usize = 0;
    while k < catalog.roots.len()
        invariant
            k <= catalog.roots@.len(),
            catalog.roots@.len() == before.roots.len(),
            catalog@.items =~= reset_marks(before).items,
            catalog@.next_id == before.next_id,
            forall|j: int| 0 <= j < k ==> catalog@.roots[j] == unmarked_root(before.roots[j]),
            forall|j: int| k <= j < before.roots.len() ==> catalog@.roots[j] == before.roots[j],
        decreases catalog.roots@.len() - k,
    {
        let ghost rows = catalog.roots@;
        let ghost mid = catalog@;
        assert(mid.roots == roots_view(rows));
        assert(forall|j: int| 0 <= j < k ==> mid.roots[j] == unmarked_root(before.roots[j]));
        assert(forall|j: int| k <= j < before.roots.len() ==> mid.roots[j] == before.roots[j]);
        catalog.roots[k].checked = false;
        assert(catalog.roots@.len() == rows.len());
        assert(forall|j: int| 0 <= j < rows.len() && j != k ==> catalog.roots@[j] == rows[j]);
        assert(catalog.roots@[k as int]@ == unmarked_root(rows[k as int]@));
        assert forall|j: int| 0 <= j < k + 1 implies catalog@.roots[j] == unmarked_root(
            before.roots[j],
        ) by {
            if j < k {
                assert(catalog.roots@[j] == rows[j]);
                assert(roots_view(rows)[j] == unmarked_root(before.roots[j]));
            } else {
                assert(roots_view(rows)[j] == before.roots[j]);
            }
        }
        assert forall|j: int| k + 1 <= j < before.roots.len() implies catalog@.roots[j]
            == before.roots[j] by {
            assert(catalog.roots@[j] == rows[j]);
            assert(roots_view(rows)[j] == before.roots[j]);
        }
        k = k + 1;
    }
    assert(catalog@.roots =~= reset_marks(before).roots);
    proof {
        lemma_reset_keeps_wf(before);
    }
}

/// Clearing the marks keeps a catalog well formed.
pub proof fn lemma_reset_keeps_wf(v: CatalogView)
    requires
        catalog_wf(v),
    ensures
        catalog_wf(reset_marks(v)),
{
    let w = reset_marks(v);
    assert(item_keys(w.items) =~= item_keys(v.items));
    assert(root_labels(w.roots) =~= root_labels(v.roots));
    assert forall|i: int| 0 <= i < w.items.len() implies 1 <= (#[trigger] w.items[i]).id
        < w.next_id by {
        assert(w.items[i].id == v.items[i].id);
    }
    assert forall|i: int, j: int| 0 <= i < j < w.items.len() implies (#[trigger] w.items[i]).id < (
    #[trigger] w.items[j]).id by {
        assert(w.items[i].id == v.items[i].id);
        assert(w.items[j].id == v.items[j].id);
    }
}

/// Sweeping keeps a catalog well formed.
pub proof fn lemma_sweep_keeps_wf(v: CatalogView)
    requires
        catalog_wf(v),
    ensures
        catalog_wf(swept(v)),
{
    let w = swept(v);
    let im = item_marks(v.items);
    let rm = root_marks(v.roots);
    lemma_kept(v.items, im);
    lemma_kept(v.roots, rm);
    let keys = item_keys(w.items);
    assert forall|a: int, b: int| 0 <= a < b < keys.len() implies keys[a] != keys[b] by {
        let i = kept_source(v.items, im, a);
        let j = kept_source(v.items, im, b);
        assert(item_keys(v.items)[i] != item_keys(v.items)[j]);
    }
    let labels = root_labels(w.roots);
    assert forall|a: int, b: int| 0 <= a < b < labels.len() implies labels[a] != labels[b] by {
        let i = kept_source(v.roots, rm, a);
        let j = kept_source(v.roots, rm, b);
        assert(root_labels(v.roots)[i] != root_labels(v.roots)[j]);
    }
    assert forall|a: int| 0 <= a < w.items.len() implies 1 <= (#[trigger] w.items[a]).id
        < w.next_id by {
        let i = kept_source(v.items, im, a);
        assert(w.items[a] == v.items[i]);
    }
    assert forall|a: int, b: int| 0 <= a < b < w.items.len() implies (#[trigger] w.items[a]).id < (
    #[trigger] w.items[b]).id by {
        let i = kept_source(v.items, im, a);
        let j = kept_source(v.items, im, b);
        assert(w.items[a] == v.items[i]);
        assert(w.items[b] == v.items[j]);
    }
}

/// The rows of `rows` whose mark is set.
fn marked_item_rows(rows: Vec<Item>) -> (out: Vec<Item>)
    ensures
        items_view(out@) == kept(items_view(rows@), item_marks(items_view(rows@))),
        out@.len() <= rows@.len(),
{
    let ghost all = items_view(rows@);
    let ghost marks = item_marks(all);
    let mut out: Vec<Item> = Vec::new();
    assert(items_view(out@) =~= kept(all.take(0), marks.take(0)));
    for item in it: rows
        invariant
            it.seq() == rows@,
            all == items_view(rows@),
            marks == item_marks(all),
            items_view(out@) == kept(all.take(it.index() as int), marks.take(it.index() as int)),
            out@.len() <= it.index(),
    {
        proof {
            lemma_kept_step(all, marks, it.index() as int);
        }
        let ghost prev = items_view(out@);
        if item.checked {
            out.push(item);
            assert(items_view(out@) =~= prev.push(all[it.index() as int]));
        }
    }
    assert(all.take(all.len() as int) == all);
    assert(marks.take(all.len() as int) == marks);
    out
}

/// The rows of `rows` whose mark is set.
fn marked_root_rows(rows: Vec<Root>) -> (out: Vec<Root>)
    ensures
        roots_view(out@) == kept(roots_view(rows@), root_marks(roots_view(rows@))),
{
    let ghost all = roots_view(rows@);
    let ghost marks = root_marks(all);
    let mut out: Vec<Root> = Vec::new();
    assert(roots_view(out@) =~= kept(all.take(0), marks.take(0)));
    for root in it: rows
        invariant
            it.seq() == rows@,
            all == roots_view(rows@),
            marks == root_marks(all),
            roots_view(out@) == kept(all.take(it.index() as int), marks.take(it.index() as int)),
    {
        proof {
            lemma_kept_step(all, marks, it.index() as int);
        }
        let ghost prev = roots_view(out@);
        if root.checked {
            out.push(root);
            assert(roots_view(out@) =~= prev.push(all[it.index() as int]));
        }
    }
    assert(all.take(all.len() as int) == all);
    assert(marks.take(all.len() as int) == marks);
    out
}

/// Ends a pass: deletes every item and every root whose mark is not set.
/// Returns the number of items deleted.
pub fn clean(catalog: &mut Catalog) -> (deleted: u64)
    requires
        old(catalog).wf(),
    ensures
        final(catalog).wf(),
        final(catalog)@ == swept(old(catalog)@),
        deleted == old(catalog)@.items.len() - final(catalog)@.items.len(),
{
    let ghost before = catalog@;
    let mut items: Vec<Item> = Vec::new();
    let mut roots: Vec<Root> = Vec::new();
    core::mem::swap(&mut catalog.items, &mut items);
    core::mem::swap(&mut catalog.roots, &mut roots);
    let count = items.len();
    catalog.items = marked_item_rows(items);
    catalog.roots = marked_root_rows(roots);
    proof {
        lemma_sweep_keeps_wf(before);
    }
    (count - catalog.items.len()) as u64
}

/// What `insert_or_update` writes.
pub open spec fn full_sighting(
    name: Option<Seq<char>>,
    path: Seq<char>,
    label: Seq<char>,
    parent: Option<int>,
    hash: Option<Seq<char>>,
    model_name: Option<Seq<char>>,
) -> Sighting {
    Sighting { label, path, name, parent: Some(parent), hash, model_name }
}

/// Records that the item `path` of the root `base_label` was seen.
///
/// An item with that key gets `parent` as its parent, `hash` as its content
/// identity if one is given, and its mark set. Where there is none, one is
/// added with all the fields given. Returns the id of the item; fails only
/// when a new item is needed and no id is left.
pub fn insert_or_update(
    catalog: &mut Catalog,
    name: Option<&str>,
    path: &str,
    base_label: &str,
    parent: Option<i64>,
    hash: Option<&str>,
    model_name: Option<&str>,
) -> (r: Result<i64, CatalogError>)
    requires
        old(catalog).wf(),
    ensures
        final(catalog).wf(),
        final(catalog)@ == recorded(
            old(catalog)@,
            full_sighting(
                opt_str(name),
                path@,
                base_label@,
                opt_id(parent),
                opt_str(hash),
                opt_str(model_name),
            ),
        ),
        match r {
            Ok(id) => recorded_id(
                old(catalog)@,
                full_sighting(
                    opt_str(name),
                    path@,
                    base_label@,
                    opt_id(parent),
                    opt_str(hash),
                    opt_str(model_name),
                ),
            ) == Some(id as int),
            Err(e) => e == CatalogError::IdsExhausted && recorded_id(
                old(catalog)@,
                full_sighting(
                    opt_str(name),
                    path@,
                    base_label@,
                    opt_id(parent),
                    opt_str(hash),
                    opt_str(model_name),
                ),
            ) is None,
        },
{
    catalog.record(base_label, path, name, Some(parent), hash, model_name)
}

/// Finds the item `path` of the root `base_label` and sets its mark, or adds
/// it, named after the final segment of its path. Returns the id of the
/// item; fails only when a new item is needed and no id is left.
pub fn find_or_create(catalog: &mut Catalog, base_label: &str, path: &str) -> (r: Result<
    i64,
    CatalogError,
>)
    requires
        old(catalog).wf(),
    ensures
        final(catalog).wf(),
        final(catalog)@ == recorded(old(catalog)@, plain_sighting(base_label@, path@)),
        match r {
            Ok(id) => recorded_id(old(catalog)@, plain_sighting(base_label@, path@)) == Some(
                id as int,
            ),
            Err(e) => e == CatalogError::IdsExhausted && recorded_id(
                old(catalog)@,
                plain_sighting(base_label@, path@),
            ) is None,
        },
{
    match plain_file_name(path) {
        Some(name) => catalog.record(base_label, path, Some(name.as_str()), None, None, None),
        None => catalog.record(base_label, path, None, None, None, None),
    }
}

/// Finds the root `label` and sets its mark, or adds it with its mark set.
pub fn find_or_create_root(catalog: &mut Catalog, label: &str)
    requires
        old(catalog).wf(),
    ensures
        final(catalog).wf(),
        final(catalog)@ == root_marked(old(catalog)@, label@),
{
    let ghost before = catalog@;
    let ghost labels = root_labels(before.roots);
    let label_text = label.to_owned();
    let mut i: usize = 0;
    while i < catalog.roots.len()
        invariant
            i <= catalog.roots@.len(),
            catalog@ == before,
            before == old(catalog)@,
            catalog_wf(before),
            labels == root_labels(before.roots),
            label_text@ == label@,
            forall|j: int| 0 <= j < i ==> labels[j] != label@,
        decreases catalog.roots@.len() - i,
    {
        if same_text(&catalog.roots[i].label, &label_text) {
            proof {
                lemma_position_unique(labels, label@, i as int);
            }
            let ghost rows = catalog.roots@;
            catalog.roots[i].checked = true;
            assert(forall|j: int| 0 <= j < rows.len() && j != i ==> catalog.roots@[j] == rows[j]);
            assert(catalog@.roots =~= before.roots.update(
                i as int,
                RootView { checked: true, ..before.roots[i as int] },
            ));
            assert(root_labels(catalog@.roots) =~= labels);
            return ;
        }
        i = i + 1;
    }
    proof {
        lemma_position_unique(labels, label@, i as int);
    }
    catalog.roots.push(Root { label: label_text, checked: true });
    assert(catalog@.roots =~= before.roots.push(RootView { label: label@, checked: true }));
    proof {
        let after = root_labels(catalog@.roots);
        assert forall|a: int, b: int| 0 <= a < b < after.len() implies after[a] != after[b] by {
            assert(after[a] == labels[a]);
            if b < labels.len() {
                assert(after[b] == labels[b]);
            }
        }
    }
}

/// Clears the mark of the item `id`, so that the next sweep deletes it.
/// Returns the path of the item and the label of its root; fails when no
/// item has that id.
pub fn mark_obsolete(catalog: &mut Catalog, id: i64) -> (r: Result<(String, String), CatalogError>)
    requires
        old(catalog).wf(),
    ensures
        final(catalog).wf(),
        final(catalog)@ == unmarked_by_id(old(catalog)@, id as int),
        match r {
            Ok(found) => {
                let i = id_position(old(catalog)@, id as int);
                &&& i < old(catalog)@.items.len()
                &&& found.0@ == old(catalog)@.items[i].path
                &&& found.1@ == old(catalog)@.items[i].base_label
            },
            Err(e) => e == CatalogError::NotFound && id_position(old(catalog)@, id as int) == old(
                catalog,
            )@.items.len(),
        },
{
    let ghost before = catalog@;
    match catalog.find_id(id) {
        Some(i) => {
            let path = clone_text(&catalog.items[i].path);
            let label = clone_text(&catalog.items[i].base_label);
            let ghost rows = catalog.items@;
            catalog.items[i].checked = false;
            assert(forall|j: int| 0 <= j < rows.len() && j != i ==> catalog.items@[j] == rows[j]);
            assert(catalog@.items =~= before.items.update(
                i as int,
                unmarked_item(before.items[i as int]),
            ));
            assert(item_keys(catalog@.items) =~= item_keys(before.items));
            Ok((path, label))
        },
        None => Err(CatalogError::NotFound),
    }
}

/// A copy of `item`.
pub fn clone_item(item: &Item) -> (out: Item)
    ensures
        out@ == item@,
{
    Item {
        id: item.id,
        name: clone_text_opt(&item.name),
        path: clone_text(&item.path),
        base_label: clone_text(&item.base_label),
        parent: item.parent,
        hash: clone_text_opt(&item.hash),
        model_name: clone_text_opt(&item.model_name),
        checked: item.checked,
    }
}

/// The item `id`; fails when no item has that id.
pub fn get_by_id(catalog: &Catalog, id: i64) -> (r: Result<Item, CatalogError>)
    requires
        catalog.wf(),
    ensures
        match r {
            Ok(item) => {
                let i = id_position(catalog@, id as int);
                i < catalog@.items.len() && item@ == catalog@.items[i]
            },
            Err(e) => e == CatalogError::NotFound && id_position(catalog@, id as int)
                == catalog@.items.len(),
        },
{
    match catalog.find_id(id) {
        Some(i) => Ok(clone_item(&catalog.items[i])),
        None => Err(CatalogError::NotFound),
    }
}

/// `w` is a later state of `v` within a pass: the rows of `v` are still
/// there, at their places, with their ids and keys, and no mark was cleared.
pub open spec fn extends(v: CatalogView, w: CatalogView) -> bool {
    &&& v.items.len() <= w.items.len()
    &&& v.roots.len() <= w.roots.len()
    &&& v.next_id <= w.next_id
    &&& w.next_id - v.next_id == w.items.len() - v.items.len()
    &&& forall|k: int|
        0 <= k < v.items.len() ==> {
            &&& (#[trigger] w.items[k]).id == v.items[k].id
            &&& w.items[k].path == v.items[k].path
            &&& w.items[k].base_label == v.items[k].base_label
            &&& (v.items[k].checked ==> w.items[k].checked)
        }
    &&& forall|k: int|
        0 <= k < v.roots.len() ==> {
            &&& (#[trigger] w.roots[k]).label == v.roots[k].label
            &&& (v.roots[k].checked ==> w.roots[k].checked)
        }
}

/// A later state of a later state is a later state.
pub proof fn lemma_extends_transitive(a: CatalogView, b: CatalogView, c: CatalogView)
    requires
        extends(a, b),
        extends(b, c),
    ensures
        extends(a, c),
{
    assert forall|k: int| 0 <= k < a.items.len() implies {
        &&& (#[trigger] c.items[k]).id == a.items[k].id
        &&& c.items[k].path == a.items[k].path
        &&& c.items[k].base_label == a.items[k].base_label
        &&& (a.items[k].checked ==> c.items[k].checked)
    } by {
        assert(b.items[k].id == a.items[k].id);
    }
    assert forall|k: int| 0 <= k < a.roots.len() implies {
        &&& (#[trigger] c.roots[k]).label == a.roots[k].label
        &&& (a.roots[k].checked ==> c.roots[k].checked)
    } by {
        assert(b.roots[k].label == a.roots[k].label);
    }
}

/// An item that a state holds is held by every later state, at the same place.
pub proof fn lemma_extends_keeps_item(
    v: CatalogView,
    w: CatalogView,
    label: Seq<char>,
    path: Seq<char>,
)
    requires
        extends(v, w),
        has_item(v, label, path),
    ensures
        has_item(w, label, path),
        item_position(w, label, path) == item_position(v, label, path),
{
    let kv = item_keys(v.items);
    let kw = item_keys(w.items);
    lemma_position(kv, (label, path));
    let i = position(kv, (label, path));
    assert(w.items[i].path == v.items[i].path);
    assert forall|j: int| 0 <= j < i implies kw[j] != (label, path) by {
        assert(w.items[j].path == v.items[j].path);
        assert(kv[j] != (label, path));
    }
    lemma_position_unique(kw, (label, path), i);
}

/// What recording a sighting does, row by row.
pub proof fn lemma_recorded(v: CatalogView, s: Sighting)
    requires
        catalog_wf(v),
    ensures
        catalog_wf(recorded(v, s)),
        extends(v, recorded(v, s)),
        recorded(v, s).roots == v.roots,
        forall|k: int|
            0 <= k < v.items.len() && k != item_position(v, s.label, s.path) ==> (
            #[trigger] recorded(v, s).items[k]) == v.items[k],
        has_item(v, s.label, s.path) ==> recorded(v, s).items.len() == v.items.len(),
        recorded_id(v, s) is None ==> recorded(v, s) == v,
        recorded_id(v, s) matches Some(id) ==> {
            let w = recorded(v, s);
            let i = item_position(v, s.label, s.path);
            &&& has_item(w, s.label, s.path)
            &&& item_position(w, s.label, s.path) == i
            &&& w.items[i].id == id
            &&& w.items[i].checked
            &&& (s.parent matches Some(p) ==> w.items[i].parent == p)
            &&& (s.hash is Some ==> w.items[i].hash == s.hash)
        },
{
    let w = recorded(v, s);
    let key = (s.label, s.path);
    let kv = item_keys(v.items);
    let kw = item_keys(w.items);
    lemma_position(kv, key);
    let i = position(kv, key);
    if i < v.items.len() {
        assert(kw =~= kv);
        assert forall|k: int| 0 <= k < w.items.len() implies 1 <= (#[trigger] w.items[k]).id
            < w.next_id by {
            assert(w.items[k].id == v.items[k].id);
        }
        assert forall|a: int, b: int| 0 <= a < b < w.items.len() implies (#[trigger] w.items[a]).id
            < (#[trigger] w.items[b]).id by {
            assert(w.items[a].id == v.items[a].id);
            assert(w.items[b].id == v.items[b].id);
        }
    } else if v.next_id < i64::MAX {
        assert forall|a: int, b: int| 0 <= a < b < kw.len() implies kw[a] != kw[b] by {
            assert(kw[a] == kv[a]);
            if b < kv.len() {
                assert(kw[b] == kv[b]);
            }
        }
        assert forall|k: int| 0 <= k < w.items.len() implies 1 <= (#[trigger] w.items[k]).id
            < w.next_id by {
            if k < v.items.len() {
                assert(w.items[k].id == v.items[k].id);
            }
        }
        assert forall|a: int, b: int| 0 <= a < b < w.items.len() implies (#[trigger] w.items[a]).id
            < (#[trigger] w.items[b]).id by {
            assert(w.items[a].id == v.items[a].id);
            if b < v.items.len() {
                assert(w.items[b].id == v.items[b].id);
            }
        }
        assert forall|j: int| 0 <= j < i implies kw[j] != key by {
            assert(kw[j] == kv[j]);
        }
        assert(kw[i] == key);
        lemma_position_unique(kw, key, i);
    }
    if i < v.items.len() {
        lemma_position_unique(kw, key, i);
    }
}

/// The root `label` is in the catalog and marked.
pub open spec fn root_marked_at(c: CatalogView, label: Seq<char>) -> bool {
    root_position(c, label) < c.roots.len() && c.roots[root_position(c, label)].checked
}

/// A root that a state holds is held by every later state, at the same
/// place, and keeps its mark.
pub proof fn lemma_extends_keeps_root(v: CatalogView, w: CatalogView, label: Seq<char>)
    requires
        extends(v, w),
        root_position(v, label) < v.roots.len(),
    ensures
        root_position(w, label) == root_position(v, label),
        root_marked_at(v, label) ==> root_marked_at(w, label),
{
    let lv = root_labels(v.roots);
    let lw = root_labels(w.roots);
    lemma_position(lv, label);
    let i = position(lv, label);
    assert(w.roots[i].label == v.roots[i].label);
    assert forall|j: int| 0 <= j < i implies lw[j] != label by {
        assert(w.roots[j].label == v.roots[j].label);
        assert(lv[j] != label);
    }
    lemma_position_unique(lw, label, i);
}

/// Recording the same sighting twice is recording it once: both times the
/// same item is found or made, and the catalog holds one item with that key.
/// So find-or-create, called again with the same key, in whatever order the
/// calls of several callers arrive, never makes a second row.
pub proof fn lemma_recorded_twice(v: CatalogView, s: Sighting)
    requires
        catalog_wf(v),
    ensures
        catalog_wf(recorded(v, s)),
        recorded(recorded(v, s), s) == recorded(v, s),
        recorded_id(recorded(v, s), s) == recorded_id(v, s),
        distinct(item_keys(recorded(v, s).items)),
{
    let w = recorded(v, s);
    lemma_recorded(v, s);
    lemma_recorded(w, s);
    if recorded_id(v, s) is Some {
        let i = item_position(v, s.label, s.path);
        assert(recorded(w, s).items =~= w.items);
    }
}

/// Marking the same root twice is marking it once: the catalog holds one
/// root with that label.
pub proof fn lemma_root_marked_twice(v: CatalogView, label: Seq<char>)
    requires
        catalog_wf(v),
    ensures
        root_marked(root_marked(v, label), label) == root_marked(v, label),
        distinct(root_labels(root_marked(v, label).roots)),
{
    let w = root_marked(v, label);
    let lv = root_labels(v.roots);
    let lw = root_labels(w.roots);
    lemma_position(lv, label);
    let i = position(lv, label);
    if i < v.roots.len() {
        assert(lw =~= lv);
    } else {
        assert forall|a: int, b: int| 0 <= a < b < lw.len() implies lw[a] != lw[b] by {
            assert(lw[a] == lv[a]);
            if b < lv.len() {
                assert(lw[b] == lv[b]);
            }
        }
        assert forall|j: int| 0 <= j < i implies lw[j] != label by {
            assert(lw[j] == lv[j]);
        }
        assert(lw[i] == label);
        lemma_position_unique(lw, label, i);
    }
    assert(root_marked(w, label).roots =~= w.roots);
}

/// A catalog holds fewer items than it has given out ids.
pub proof fn lemma_item_count(v: CatalogView)
    requires
        catalog_wf(v),
    ensures
        v.items.len() < v.next_id,
{
    lemma_ids_grow(v, v.items.len() as int);
    if v.items.len() > 0 {
        let last = v.items.len() - 1;
        assert(v.items[last].id > last);
        assert(v.items[last].id < v.next_id);
    }
}

/// The id of an item is above its index.
proof fn lemma_ids_grow(v: CatalogView, n: int)
    requires
        catalog_wf(v),
        0 <= n <= v.items.len(),
    ensures
        forall|k: int| 0 <= k < n ==> (#[trigger] v.items[k]).id > k,
    decreases n,
{
    if n > 0 {
        lemma_ids_grow(v, n - 1);
        if n > 1 {
            assert(v.items[n - 2].id < v.items[n - 1].id);
        }
    }
}

/// Whether the ids of `items` are at least one, grow from row to row, and
/// stay below `next_id`.
fn ids_in_order(items: &Vec<Item>, next_id: i64) -> (r: bool)
    ensures
        r == {
            let rows = items_view(items@);
            &&& forall|i: int| 0 <= i < rows.len() ==> 1 <= (#[trigger] rows[i]).id < next_id
            &&& forall|i: int, j: int|
                0 <= i < j < rows.len() ==> (#[trigger] rows[i]).id < (#[trigger] rows[j]).id
        },
{
    let ghost rows = items_view(items@);
    let mut i: usize = 0;
    while i < items.len()
        invariant
            i <= items@.len(),
            rows == items_view(items@),
            forall|k: int| 0 <= k < i ==> 1 <= (#[trigger] rows[k]).id < next_id,
            forall|a: int, b: int|
                0 <= a < b < i ==> (#[trigger] rows[a]).id < (#[trigger] rows[b]).id,
        decreases items@.len() - i,
    {
        let id = items[i].id;
        if id < 1 || id >= next_id {
            assert(!(1 <= rows[i as int].id < next_id));
            return false;
        }
        if i > 0 && items[i - 1].id >= id {
            assert(!(rows[i - 1].id < rows[i as int].id));
            return false;
        }
        assert forall|a: int, b: int| 0 <= a < b < i + 1 implies (#[trigger] rows[a]).id < (
        #[trigger] rows[b]).id by {
            if b == i && a < i - 1 {
                assert(rows[a].id < rows[i - 1].id);
            }
        }
        i = i + 1;
    }
    true
}

/// Whether no two of `items` have the same key.
fn keys_distinct(items: &Vec<Item>) -> (r: bool)
    ensures
        r == distinct(item_keys(items_view(items@))),
{
    let ghost keys = item_keys(items_view(items@));
    let mut j: usize = 0;
    while j < items.len()
        invariant
            j <= items@.len(),
            keys == item_keys(items_view(items@)),
            forall|a: int, b: int| 0 <= a < b < j ==> keys[a] != keys[b],
        decreases items@.len() - j,
    {
        let mut i: usize = 0;
        while i < j
            invariant
                i <= j < items@.len(),
                keys == item_keys(items_view(items@)),
                forall|a: int| 0 <= a < i ==> keys[a] != keys[j as int],
            decreases j - i,
        {
            if same_text(&items[i].base_label, &items[j].base_label) && same_text(
                &items[i].path,
                &items[j].path,
            ) {
                assert(keys[i as int] == keys[j as int]);
                return false;
            }
            i = i + 1;
        }
        j = j + 1;
    }
    true
}

/// Whether no two of `roots` have the same label.
fn labels_distinct(roots: &Vec<Root>) -> (r: bool)
    ensures
        r == distinct(root_labels(roots_view(roots@))),
{
    let ghost labels = root_labels(roots_view(roots@));
    let mut j: usize = 0;
    while j < roots.len()
        invariant
            j <= roots@.len(),
            labels == root_labels(roots_view(roots@)),
            forall|a: int, b: int| 0 <= a < b < j ==> labels[a] != labels[b],
        decreases roots@.len() - j,
    {
        let mut i: usize = 0;
        while i < j
            invariant
                i <= j < roots@.len(),
                labels == root_labels(roots_view(roots@)),
                forall|a: int| 0 <= a < i ==> labels[a] != labels[j as int],
            decreases j - i,
        {
            if same_text(&roots[i].label, &roots[j].label) {
                assert(labels[i as int] == labels[j as int]);
                return false;
            }
            i = i + 1;
        }
        j = j + 1;
    }
    true
}

/// The id of the item `path` of the root `base_label`, if there is one.
pub fn find_item(catalog: &Catalog, base_label: &str, path: &str) -> (r: Option<i64>)
    requires
        catalog.wf(),
    ensures
        match r {
            Some(id) => has_item(catalog@, base_label@, path@) && item_at(
                catalog@,
                base_label@,
                path@,
            ).id == id,
            None => !has_item(catalog@, base_label@, path@),
        },
{
    let label = base_label.to_owned();
    let text = path.to_owned();
    match catalog.find_key(&label, &text) {
        Some(i) => Some(catalog.items[i].id),
        None => None,
    }
}

/// An item whose mark was cleared is gone after the next sweep, and the
/// sweep takes no marked item along.
pub proof fn lemma_unmarked_is_swept(v: CatalogView, id: int)
    requires
        catalog_wf(v),
    ensures
        catalog_wf(swept(unmarked_by_id(v, id))),
        id_position(swept(unmarked_by_id(v, id)), id) == swept(unmarked_by_id(v, id)).items.len(),
        forall|k: int|
            0 <= k < v.items.len() && (#[trigger] v.items[k]).checked && v.items[k].id != id
                ==> has_item(swept(unmarked_by_id(v, id)), v.items[k].base_label, v.items[k].path),
{
    let u = unmarked_by_id(v, id);
    let r = swept(u);
    let ids_v = item_ids(v.items);
    lemma_position(ids_v, id);
    let at = id_position(v, id);
    assert(item_keys(u.items) =~= item_keys(v.items));
    assert(item_ids(u.items) =~= ids_v);
    assert forall|k: int| 0 <= k < u.items.len() implies 1 <= (#[trigger] u.items[k]).id
        < u.next_id by {
        assert(u.items[k].id == v.items[k].id);
    }
    assert forall|a: int, b: int| 0 <= a < b < u.items.len() implies (#[trigger] u.items[a]).id < (
    #[trigger] u.items[b]).id by {
        assert(u.items[a].id == v.items[a].id);
        assert(u.items[b].id == v.items[b].id);
    }
    lemma_sweep_keeps_wf(u);
    let marks = item_marks(u.items);
    lemma_kept(u.items, marks);
    let ids_r = item_ids(r.items);
    assert forall|k: int| 0 <= k < ids_r.len() implies ids_r[k] != id by {
        let i = kept_source(u.items, marks, k);
        assert(r.items[k] == u.items[i]);
        assert(marks[i]);
        if u.items[i].id == id {
            assert(ids_v[i] == id);
            if i != at {
                if i < at {
                    assert(v.items[i].id < v.items[at].id);
                } else {
                    assert(v.items[at].id < v.items[i].id);
                }
            }
        }
    }
    lemma_position_unique(ids_r, id, ids_r.len() as int);
    assert forall|k: int|
        0 <= k < v.items.len() && (#[trigger] v.items[k]).checked && v.items[k].id
            != id implies has_item(r, v.items[k].base_label, v.items[k].path) by {
        assert(ids_v[k] != id);
        assert(u.items[k] == v.items[k]);
        assert(marks[k]);
        let q = choose|q: int| 0 <= q < r.items.len() && kept_source(u.items, marks, q) == k;
        assert(item_keys(r.items)[q] == (v.items[k].base_label, v.items[k].path));
        lemma_position(item_keys(r.items), (v.items[k].base_label, v.items[k].path));
    }
}

} // verus!
