//! What a walk has seen is in the catalog after the pass, under its parent.

use crate::catalog::{
    catalog_wf, full_sighting, has_item, item_at, item_keys, item_position,
    lemma_extends_keeps_item, lemma_recorded, lemma_reset_keeps_wf, name_from_path, plain_sighting,
    recorded, recorded_id, reset_marks, swept, CatalogView, Sighting,
};
use crate::paths::parent_of;
use crate::seqs::lemma_position;
use crate::sync::{entry_key, entry_recorded, is_leaf, reconciled, EntryView, ScanView};
use crate::sync_entry::live;
use crate::sync_first::{lemma_live_ran, lemma_missing_means_full, pass_result};
use crate::sync_proofs::{entry_count, lemma_scans_marks, lemma_swept_keeps_marked};
use crate::sync_steps::{lemma_entry_has_step, lemma_scans_are_steps, walk_steps};
use vstd::prelude::*;

verus! {

/// The parent that the item `rel` of the root `label` is to have: none for
/// the root's own node, else the item one level up.
pub open spec fn due_parent(c: CatalogView, label: Seq<char>, rel: Seq<char>) -> Option<int> {
    if rel.len() == 0 {
        None
    } else {
        Some(item_at(c, label, parent_of(rel)).id)
    }
}

/// The item `rel` of the root `label` is in the catalog, and so is the item
/// one level up, to which it points as its parent.
pub open spec fn linked(c: CatalogView, label: Seq<char>, rel: Seq<char>) -> bool {
    &&& has_item(c, label, rel)
    &&& rel.len() > 0 ==> has_item(c, label, parent_of(rel))
    &&& item_at(c, label, rel).parent == due_parent(c, label, rel)
}

/// The item `rel` of the root `label` is linked, and it and the item one
/// level up are marked.
pub open spec fn placed(c: CatalogView, label: Seq<char>, rel: Seq<char>) -> bool {
    &&& linked(c, label, rel)
    &&& item_at(c, label, rel).checked
    &&& rel.len() > 0 ==> item_at(c, label, parent_of(rel)).checked
}

/// Whether `s` leaves the parent of the item `rel` of the root `label` as
/// it is due: `s` is for another item, or sets no parent, or sets the due one.
pub open spec fn keeps_link(v: CatalogView, s: Sighting, label: Seq<char>, rel: Seq<char>) -> bool {
    (s.label == label && s.path == rel) ==> match s.parent {
        Some(p) => p == due_parent(v, label, rel),
        None => true,
    }
}

/// An item that is placed stays placed when a sighting is recorded that
/// keeps its link.
pub proof fn lemma_recorded_keeps_placed(
    v: CatalogView,
    s: Sighting,
    label: Seq<char>,
    rel: Seq<char>,
)
    requires
        catalog_wf(v),
        linked(v, label, rel),
        keeps_link(v, s, label, rel),
    ensures
        linked(recorded(v, s), label, rel),
        placed(v, label, rel) ==> placed(recorded(v, s), label, rel),
        item_at(recorded(v, s), label, rel).id == item_at(v, label, rel).id,
        (s.label == label && s.path == rel) ==> item_at(recorded(v, s), label, rel).checked
            || recorded_id(v, s) is None,
{
    let w = recorded(v, s);
    lemma_recorded(v, s);
    let i = item_position(v, s.label, s.path);
    let at = item_position(v, label, rel);
    lemma_extends_keeps_item(v, w, label, rel);
    lemma_position(item_keys(v.items), (label, rel));
    lemma_position(item_keys(v.items), (s.label, s.path));
    assert(item_keys(v.items)[at] == (label, rel));
    if i < v.items.len() {
        assert(item_keys(v.items)[i] == (s.label, s.path));
    }
    if rel.len() > 0 {
        let up = item_position(v, label, parent_of(rel));
        lemma_position(item_keys(v.items), (label, parent_of(rel)));
        lemma_extends_keeps_item(v, w, label, parent_of(rel));
        assert(w.items[up].id == v.items[up].id);
        assert(v.items[up].checked ==> w.items[up].checked);
    }
    if at != i {
        assert(w.items[at] == v.items[at]);
    }
}

/// An item that is linked stays linked, and one that is placed stays
/// placed, whatever entry is recorded, of whatever root.
pub proof fn lemma_entry_keeps_placed(
    v: CatalogView,
    extensions: Seq<Seq<char>>,
    label: Seq<char>,
    base: Seq<char>,
    e: EntryView,
    at_label: Seq<char>,
    at_rel: Seq<char>,
)
    requires
        catalog_wf(v),
        linked(v, at_label, at_rel),
    ensures
        linked(entry_recorded(v, extensions, label, base, e), at_label, at_rel),
        placed(v, at_label, at_rel) ==> placed(
            entry_recorded(v, extensions, label, base, e),
            at_label,
            at_rel,
        ),
        item_at(entry_recorded(v, extensions, label, base, e), at_label, at_rel).id == item_at(
            v,
            at_label,
            at_rel,
        ).id,
{
    match entry_key(extensions, base, e) {
        None => {},
        Some(rel) => {
            let leaf = is_leaf(extensions, e);
            let hash = if leaf {
                e.identity
            } else {
                None
            };
            let model_name = if leaf {
                e.model_name
            } else {
                None
            };
            let name = name_from_path(e.path);
            if rel.len() == 0 {
                let full = full_sighting(name, rel, label, None, hash, model_name);
                lemma_recorded_keeps_placed(v, full, at_label, at_rel);
            } else {
                let up = plain_sighting(label, parent_of(rel));
                lemma_recorded(v, up);
                lemma_recorded_keeps_placed(v, up, at_label, at_rel);
                if recorded_id(v, up) is Some {
                    let pid = recorded_id(v, up)->0;
                    let v1 = recorded(v, up);
                    let full = full_sighting(name, rel, label, Some(pid), hash, model_name);
                    assert(keeps_link(v1, full, at_label, at_rel));
                    lemma_recorded_keeps_placed(v1, full, at_label, at_rel);
                }
            }
        },
    }
}

/// A sweep leaves a placed item placed.
pub proof fn lemma_sweep_keeps_placed(w: CatalogView, label: Seq<char>, rel: Seq<char>)
    requires
        catalog_wf(w),
        placed(w, label, rel),
    ensures
        placed(swept(w), label, rel),
        item_at(swept(w), label, rel) == item_at(w, label, rel),
{
    let keys = item_keys(w.items);
    lemma_position(keys, (label, rel));
    let i = item_position(w, label, rel);
    assert(keys[i] == (label, rel));
    lemma_swept_keeps_marked(w, i);
    if rel.len() > 0 {
        lemma_position(keys, (label, parent_of(rel)));
        let u = item_position(w, label, parent_of(rel));
        assert(keys[u] == (label, parent_of(rel)));
        lemma_swept_keeps_marked(w, u);
    }
}

/// After a pass, every entry that the walk met under its root is in the
/// catalog, marked, under the item one level up, which is in the catalog
/// and marked too; or else the catalog has no id left.
pub proof fn lemma_pass_places_or_is_full(
    v: CatalogView,
    extensions: Seq<Seq<char>>,
    scans: Seq<ScanView>,
    a: int,
    b: int,
)
    requires
        catalog_wf(v),
        0 <= a < scans.len(),
        0 <= b < scans[a].entries.len(),
        entry_key(extensions, scans[a].base_path, scans[a].entries[b]) is Some,
    ensures
        placed(
            reconciled(v, extensions, scans),
            scans[a].label,
            entry_key(extensions, scans[a].base_path, scans[a].entries[b])->0,
        ) || reconciled(v, extensions, scans).next_id == i64::MAX,
{
    let steps = walk_steps(scans);
    let v0 = reset_marks(v);
    lemma_reset_keeps_wf(v);
    lemma_scans_are_steps(v0, extensions, scans);
    let i = lemma_entry_has_step(scans, a, b);
    let c = pass_result(v0, extensions, steps);
    if live(c, extensions, scans[a].label, scans[a].base_path, scans[a].entries[b]) {
        lemma_live_ran(v0, extensions, steps, i);
    } else {
        lemma_missing_means_full(v0, extensions, steps, i);
    }
}

/// After a pass, every entry that the walk met under its root is in the
/// catalog, marked, under the item one level up, which is in the catalog
/// and marked too. This holds where the catalog has more than two ids left
/// for each entry of the walk. An entry of a model file whose content could
/// not be read has no key and is passed over.
pub proof fn lemma_pass_keeps_seen(
    v: CatalogView,
    extensions: Seq<Seq<char>>,
    scans: Seq<ScanView>,
    a: int,
    b: int,
)
    requires
        catalog_wf(v),
        v.next_id + 2 * entry_count(scans) < i64::MAX,
        0 <= a < scans.len(),
        0 <= b < scans[a].entries.len(),
        entry_key(extensions, scans[a].base_path, scans[a].entries[b]) is Some,
    ensures
        placed(
            reconciled(v, extensions, scans),
            scans[a].label,
            entry_key(extensions, scans[a].base_path, scans[a].entries[b])->0,
        ),
{
    lemma_reset_keeps_wf(v);
    lemma_scans_marks(reset_marks(v), extensions, scans);
    lemma_pass_places_or_is_full(v, extensions, scans, a, b);
}

} // verus!
