//! What recording one entry does to the catalog, whether it succeeds or not.

use crate::catalog::{
    catalog_wf, full_sighting, has_item, item_at, item_keys, item_position,
    lemma_extends_keeps_item, lemma_extends_transitive, lemma_recorded, name_from_path,
    plain_sighting, recorded, recorded_id, CatalogView, Sighting,
};
use crate::paths::parent_of;
use crate::seqs::lemma_position;
use crate::sync::{entry_key, entry_recorded, entry_recorded_id, is_leaf, EntryView};
use crate::sync_present::placed;
use vstd::prelude::*;

verus! {

/// The item `path` of the root `label` is in the catalog and marked.
pub open spec fn marked_at(c: CatalogView, label: Seq<char>, path: Seq<char>) -> bool {
    has_item(c, label, path) && item_at(c, label, path).checked
}

/// Whether recording `e` on `v` records the item of `e`: the entry has a
/// key, and an id is there for every item that is to be made.
pub open spec fn ran(
    v: CatalogView,
    extensions: Seq<Seq<char>>,
    label: Seq<char>,
    base: Seq<char>,
    e: EntryView,
) -> bool {
    entry_recorded_id(v, extensions, label, base, e) is Some
}

/// Whether the catalog `c` holds the item of `e`, and the item one level up.
pub open spec fn live(
    c: CatalogView,
    extensions: Seq<Seq<char>>,
    label: Seq<char>,
    base: Seq<char>,
    e: EntryView,
) -> bool {
    entry_key(extensions, base, e) matches Some(rel) && has_item(c, label, rel) && (rel.len() > 0
        ==> has_item(c, label, parent_of(rel)))
}

/// Whether recording `e` marks the item `path` of the root `at_label`: as
/// the item one level up, or as the item of `e` where that is recorded.
pub open spec fn touches(
    v: CatalogView,
    extensions: Seq<Seq<char>>,
    label: Seq<char>,
    base: Seq<char>,
    e: EntryView,
    at_label: Seq<char>,
    path: Seq<char>,
) -> bool {
    label == at_label && (entry_key(extensions, base, e) matches Some(rel) && ((rel.len() > 0
        && parent_of(rel) == path) || (rel == path && ran(v, extensions, label, base, e))))
}

/// What recording an entry that has a key does.
///
/// Where it succeeds, the item of the entry is placed and, for a model
/// file, has the content identity of the file. Where it fails, no id is
/// left, the item of the entry or the item one level up is missing, and no
/// item that was there has another parent or content identity than before.
/// Either way, a mark is new only on an item that the entry touches.
pub proof fn lemma_entry_effect(
    v: CatalogView,
    extensions: Seq<Seq<char>>,
    label: Seq<char>,
    base: Seq<char>,
    e: EntryView,
)
    requires
        catalog_wf(v),
        entry_key(extensions, base, e) is Some,
    ensures
        ({
            let w = entry_recorded(v, extensions, label, base, e);
            let rel = entry_key(extensions, base, e)->0;
            let up = parent_of(rel);
            let ok = ran(v, extensions, label, base, e);
            &&& ok ==> placed(w, label, rel)
            &&& ok && is_leaf(extensions, e) ==> item_at(w, label, rel).hash == e.identity
            &&& !ok ==> w.next_id == i64::MAX
            &&& !ok ==> (rel.len() > 0 && !has_item(w, label, up)) || !has_item(w, label, rel)
            &&& !ok ==> forall|j: int|
                0 <= j < v.items.len() ==> (#[trigger] w.items[j]).hash == v.items[j].hash
                    && w.items[j].parent == v.items[j].parent
            &&& rel.len() > 0 && has_item(v, label, up) ==> marked_at(w, label, up)
            &&& forall|j: int|
                0 <= j < w.items.len() && (#[trigger] w.items[j]).checked ==> (j < v.items.len()
                    && v.items[j].checked) || touches(
                    v,
                    extensions,
                    label,
                    base,
                    e,
                    w.items[j].base_label,
                    w.items[j].path,
                )
        }),
{
    let w = entry_recorded(v, extensions, label, base, e);
    let rel = entry_key(extensions, base, e)->0;
    let leaf = is_leaf(extensions, e);
    let hash = if leaf {
        e.identity
    } else {
        None
    };
    let model_name = if leaf {
        e.model_name
    } else {
        None
    };
    let name = name_from_path(e.path);
    let own = full_sighting(None, rel, label, None, None, None);
    if rel.len() == 0 {
        let full = full_sighting(name, rel, label, None, hash, model_name);
        lemma_recorded(v, full);
        lemma_position(item_keys(v.items), (label, rel));
        lemma_position(item_keys(w.items), (label, rel));
        assert(recorded_id(v, full) == recorded_id(v, own));
        assert forall|j: int| 0 <= j < w.items.len() && (#[trigger] w.items[j]).checked implies (j
            < v.items.len() && v.items[j].checked) || touches(
            v,
            extensions,
            label,
            base,
            e,
            w.items[j].base_label,
            w.items[j].path,
        ) by {
            if j == item_position(v, label, rel) {
                assert(item_keys(w.items)[j] == (label, rel));
            }
        }
    } else {
        let up = plain_sighting(label, parent_of(rel));
        lemma_recorded(v, up);
        let v1 = recorded(v, up);
        lemma_position(item_keys(v.items), (label, parent_of(rel)));
        if recorded_id(v, up) is Some {
            let pid = recorded_id(v, up)->0;
            let full = full_sighting(name, rel, label, Some(pid), hash, model_name);
            lemma_recorded(v1, full);
            lemma_extends_transitive(v, v1, w);
            assert(recorded_id(v1, full) == recorded_id(v1, own));
            lemma_extends_keeps_item(v1, w, label, parent_of(rel));
            let u = item_position(v1, label, parent_of(rel));
            lemma_position(item_keys(v1.items), (label, parent_of(rel)));
            lemma_position(item_keys(v1.items), (label, rel));
            lemma_position(item_keys(w.items), (label, rel));
            assert(w.items[u].id == v1.items[u].id);
            assert(v1.items[u].checked ==> w.items[u].checked);
            assert forall|j: int|
                0 <= j < w.items.len() && (#[trigger] w.items[j]).checked implies (j
                < v.items.len() && v.items[j].checked) || touches(
                v,
                extensions,
                label,
                base,
                e,
                w.items[j].base_label,
                w.items[j].path,
            ) by {
                if recorded_id(v1, full) is Some && j == item_position(v1, label, rel) {
                    assert(item_keys(w.items)[j] == (label, rel));
                } else {
                    assert(w.items[j] == v1.items[j]);
                    if j == item_position(v, label, parent_of(rel)) {
                        assert(item_keys(v1.items)[j] == (label, parent_of(rel)));
                    } else {
                        assert(v1.items[j] == v.items[j]);
                    }
                }
            }
            if recorded_id(v1, full) is None {
                assert forall|j: int| 0 <= j < v.items.len() implies (#[trigger] w.items[j]).hash
                    == v.items[j].hash && w.items[j].parent == v.items[j].parent by {
                    if j != item_position(v, label, parent_of(rel)) {
                        assert(v1.items[j] == v.items[j]);
                    }
                }
            }
        }
    }
}

/// Whether recording `e` for the root `label` may write the content
/// identity of the item `at_rel` of the root `at_label`.
pub open spec fn writes_hash(
    extensions: Seq<Seq<char>>,
    label: Seq<char>,
    base: Seq<char>,
    e: EntryView,
    at_label: Seq<char>,
    at_rel: Seq<char>,
) -> bool {
    is_leaf(extensions, e) && label == at_label && entry_key(extensions, base, e) == Some(at_rel)
}

/// Recording a sighting for another item, or one without a content
/// identity, leaves the content identity of an item as it is.
pub proof fn lemma_recorded_keeps_hash(
    v: CatalogView,
    s: Sighting,
    label: Seq<char>,
    rel: Seq<char>,
)
    requires
        catalog_wf(v),
        has_item(v, label, rel),
        !(s.label == label && s.path == rel) || s.hash is None,
    ensures
        has_item(recorded(v, s), label, rel),
        item_at(recorded(v, s), label, rel).hash == item_at(v, label, rel).hash,
{
    let w = recorded(v, s);
    lemma_recorded(v, s);
    lemma_extends_keeps_item(v, w, label, rel);
    let keys = item_keys(v.items);
    lemma_position(keys, (label, rel));
    lemma_position(keys, (s.label, s.path));
    let at = item_position(v, label, rel);
    let i = item_position(v, s.label, s.path);
    assert(keys[at] == (label, rel));
    if i < v.items.len() {
        assert(keys[i] == (s.label, s.path));
    }
    if at != i {
        assert(w.items[at] == v.items[at]);
    }
}

/// Recording an entry that does not write the content identity of an item
/// leaves it as it is.
pub proof fn lemma_entry_keeps_hash(
    v: CatalogView,
    extensions: Seq<Seq<char>>,
    label: Seq<char>,
    base: Seq<char>,
    e: EntryView,
    at_label: Seq<char>,
    at_rel: Seq<char>,
)
    requires
        catalog_wf(v),
        has_item(v, at_label, at_rel),
        !writes_hash(extensions, label, base, e, at_label, at_rel),
    ensures
        has_item(entry_recorded(v, extensions, label, base, e), at_label, at_rel),
        item_at(entry_recorded(v, extensions, label, base, e), at_label, at_rel).hash == item_at(
            v,
            at_label,
            at_rel,
        ).hash,
{
    match entry_key(extensions, base, e) {
        None => {},
        Some(rel) => {
            let leaf = is_leaf(extensions, e);
            let hash = if leaf {
                e.identity
            } else {
                None
            };
            let model_name = if leaf {
                e.model_name
            } else {
                None
            };
            let name = name_from_path(e.path);
            if rel.len() == 0 {
                let full = full_sighting(name, rel, label, None, hash, model_name);
                lemma_recorded_keeps_hash(v, full, at_label, at_rel);
            } else {
                let up = plain_sighting(label, parent_of(rel));
                lemma_recorded(v, up);
                lemma_recorded_keeps_hash(v, up, at_label, at_rel);
                if recorded_id(v, up) is Some {
                    let pid = recorded_id(v, up)->0;
                    let v1 = recorded(v, up);
                    let full = full_sighting(name, rel, label, Some(pid), hash, model_name);
                    lemma_recorded_keeps_hash(v1, full, at_label, at_rel);
                }
            }
        },
    }
}

} // verus!
