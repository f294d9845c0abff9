//! What a synchronisation pass guarantees.
//!
//! The statements are about the spec functions of `sync` and `catalog`, which
//! the executable pass is verified against: they hold of every catalog and
//! of every walk.

use crate::catalog::{
    catalog_wf, extends, full_sighting, has_item, item_at, item_keys, item_marks, item_position,
    lemma_extends_keeps_root, lemma_extends_transitive, lemma_recorded, lemma_reset_keeps_wf,
    lemma_sweep_keeps_wf, name_from_path, plain_sighting, recorded, recorded_id, reset_marks,
    root_labels, root_marked, root_marked_at, root_marks, root_position, swept, CatalogView,
};
use crate::paths::parent_of;
use crate::seqs::{kept_source, lemma_kept, lemma_position, lemma_position_unique, position};
use crate::sync::{
    entries_recorded, entry_key, entry_recorded, is_leaf, reconciled, scans_recorded, EntryView,
    ScanView,
};
use vstd::prelude::*;

verus! {

/// Whether recording `e` touches the item at `path`: as the item of the
/// entry itself, or as the item one level up.
pub open spec fn sights(
    extensions: Seq<Seq<char>>,
    base: Seq<char>,
    e: EntryView,
    path: Seq<char>,
) -> bool {
    match entry_key(extensions, base, e) {
        Some(rel) => rel == path || (rel.len() > 0 && parent_of(rel) == path),
        None => false,
    }
}

/// Whether recording one of `entries` touches the item at `path`.
pub open spec fn seen_in(
    extensions: Seq<Seq<char>>,
    base: Seq<char>,
    entries: Seq<EntryView>,
    path: Seq<char>,
) -> bool {
    exists|b: int| 0 <= b < entries.len() && sights(extensions, base, #[trigger] entries[b], path)
}

/// Whether the walks `scans` have seen the item at `path` under the root
/// `label`, itself or something directly below it.
pub open spec fn seen(
    extensions: Seq<Seq<char>>,
    scans: Seq<ScanView>,
    label: Seq<char>,
    path: Seq<char>,
) -> bool {
    exists|a: int|
        0 <= a < scans.len() && (#[trigger] scans[a]).label == label && seen_in(
            extensions,
            scans[a].base_path,
            scans[a].entries,
            path,
        )
}

/// Whether one of the walks `scans` is a walk of the root `label`.
pub open spec fn walked(scans: Seq<ScanView>, label: Seq<char>) -> bool {
    exists|a: int| 0 <= a < scans.len() && (#[trigger] scans[a]).label == label
}

/// Every mark that `w` holds was held by `v` already, or stands on an item
/// of the root `label` that satisfies `touched`.
pub open spec fn marks_from(
    v: CatalogView,
    w: CatalogView,
    label: Seq<char>,
    touched: spec_fn(Seq<char>) -> bool,
) -> bool {
    forall|k: int|
        0 <= k < w.items.len() && (#[trigger] w.items[k]).checked ==> (k < v.items.len()
            && v.items[k].checked) || (w.items[k].base_label == label && touched(w.items[k].path))
}

/// Recording an entry marks no item but those it touches.
pub proof fn lemma_entry_marks(
    v: CatalogView,
    extensions: Seq<Seq<char>>,
    label: Seq<char>,
    base: Seq<char>,
    e: EntryView,
)
    requires
        catalog_wf(v),
    ensures
        catalog_wf(entry_recorded(v, extensions, label, base, e)),
        extends(v, entry_recorded(v, extensions, label, base, e)),
        entry_recorded(v, extensions, label, base, e).roots == v.roots,
        entry_recorded(v, extensions, label, base, e).next_id <= v.next_id + 2,
        marks_from(
            v,
            entry_recorded(v, extensions, label, base, e),
            label,
            |p: Seq<char>| sights(extensions, base, e, p),
        ),
{
    let w = entry_recorded(v, extensions, label, base, e);
    match entry_key(extensions, base, e) {
        None => {},
        Some(rel) => {
            let leaf = is_leaf(extensions, e);
            let hash = if leaf {
                e.identity
            } else {
                None
            };
            let model_name = if leaf {
                e.model_name
            } else {
                None
            };
            let name = name_from_path(e.path);
            if rel.len() == 0 {
                let full = full_sighting(name, rel, label, None, hash, model_name);
                lemma_recorded(v, full);
                lemma_position(item_keys(w.items), (label, rel));
                assert forall|k: int|
                    0 <= k < w.items.len() && (#[trigger] w.items[k]).checked implies (k
                    < v.items.len() && v.items[k].checked) || (w.items[k].base_label == label
                    && sights(extensions, base, e, w.items[k].path)) by {
                    if k == item_position(v, label, rel) {
                        assert(item_keys(w.items)[k] == (label, rel));
                    }
                }
            } else {
                let up = plain_sighting(label, parent_of(rel));
                lemma_recorded(v, up);
                if recorded_id(v, up) is Some {
                    let pid = recorded_id(v, up)->0;
                    let v1 = recorded(v, up);
                    let full = full_sighting(name, rel, label, Some(pid), hash, model_name);
                    lemma_recorded(v1, full);
                    lemma_extends_transitive(v, v1, w);
                    lemma_position(item_keys(w.items), (label, rel));
                    lemma_position(item_keys(v1.items), (label, parent_of(rel)));
                    assert forall|k: int|
                        0 <= k < w.items.len() && (#[trigger] w.items[k]).checked implies (k
                        < v.items.len() && v.items[k].checked) || (w.items[k].base_label == label
                        && sights(extensions, base, e, w.items[k].path)) by {
                        if k == item_position(v1, label, rel) {
                            assert(item_keys(w.items)[k] == (label, rel));
                        } else {
                            assert(w.items[k] == v1.items[k]);
                            if k == item_position(v, label, parent_of(rel)) {
                                assert(item_keys(v1.items)[k] == (label, parent_of(rel)));
                            } else {
                                assert(v1.items[k] == v.items[k]);
                            }
                        }
                    }
                }
            }
        },
    }
}

/// Recording the entries of a walk marks no item but those that the walk
/// has seen.
pub proof fn lemma_entries_marks(
    v: CatalogView,
    extensions: Seq<Seq<char>>,
    label: Seq<char>,
    base: Seq<char>,
    entries: Seq<EntryView>,
)
    requires
        catalog_wf(v),
    ensures
        catalog_wf(entries_recorded(v, extensions, label, base, entries)),
        extends(v, entries_recorded(v, extensions, label, base, entries)),
        entries_recorded(v, extensions, label, base, entries).roots == v.roots,
        entries_recorded(v, extensions, label, base, entries).next_id <= v.next_id + 2
            * entries.len(),
        marks_from(
            v,
            entries_recorded(v, extensions, label, base, entries),
            label,
            |p: Seq<char>| seen_in(extensions, base, entries, p),
        ),
    decreases entries.len(),
{
    let w = entries_recorded(v, extensions, label, base, entries);
    if entries.len() > 0 {
        let head = entries.drop_last();
        let e = entries.last();
        let m = entries_recorded(v, extensions, label, base, head);
        lemma_entries_marks(v, extensions, label, base, head);
        lemma_entry_marks(m, extensions, label, base, e);
        lemma_extends_transitive(v, m, w);
        assert forall|k: int| 0 <= k < w.items.len() && (#[trigger] w.items[k]).checked implies (k
            < v.items.len() && v.items[k].checked) || (w.items[k].base_label == label && seen_in(
            extensions,
            base,
            entries,
            w.items[k].path,
        )) by {
            let path = w.items[k].path;
            if k < m.items.len() && m.items[k].checked {
                assert(m.items[k].path == path);
                if !(k < v.items.len() && v.items[k].checked) {
                    assert(seen_in(extensions, base, head, path));
                    let b = choose|b: int|
                        0 <= b < head.len() && sights(extensions, base, #[trigger] head[b], path);
                    assert(entries[b] == head[b]);
                }
            } else {
                assert(sights(extensions, base, entries[entries.len() - 1], path));
            }
        }
    }
}

/// Marking a root keeps the items and the other roots as they are.
pub proof fn lemma_root_marked(v: CatalogView, label: Seq<char>)
    requires
        catalog_wf(v),
    ensures
        catalog_wf(root_marked(v, label)),
        extends(v, root_marked(v, label)),
        root_marked(v, label).items == v.items,
        root_marked(v, label).next_id == v.next_id,
        root_position(root_marked(v, label), label) < root_marked(v, label).roots.len(),
        root_marked(v, label).roots[root_position(root_marked(v, label), label)].checked,
        forall|r: int|
            0 <= r < root_marked(v, label).roots.len() && (#[trigger] root_marked(
                v,
                label,
            ).roots[r]).checked ==> (r < v.roots.len() && v.roots[r].checked) || root_marked(
                v,
                label,
            ).roots[r].label == label,
{
    let w = root_marked(v, label);
    let lv = root_labels(v.roots);
    let lw = root_labels(w.roots);
    lemma_position(lv, label);
    let i = position(lv, label);
    if i < v.roots.len() {
        assert(lw =~= lv);
    } else {
        assert forall|a: int, b: int| 0 <= a < b < lw.len() implies lw[a] != lw[b] by {
            assert(lw[a] == lv[a]);
            if b < lv.len() {
                assert(lw[b] == lv[b]);
            }
        }
        assert forall|j: int| 0 <= j < i implies lw[j] != label by {
            assert(lw[j] == lv[j]);
        }
        assert(lw[i] == label);
        lemma_position_unique(lw, label, i);
    }
    lemma_position(lw, label);
    assert forall|r: int| 0 <= r < w.roots.len() && (#[trigger] w.roots[r]).checked implies (r
        < v.roots.len() && v.roots[r].checked) || w.roots[r].label == label by {
        if r == i {
            assert(lw[r] == label);
        }
    }
}

/// Every mark that `w` holds was held by `v` already, or stands on an item
/// that the walks `scans` have seen, or on a root that they have walked.
pub open spec fn marks_seen(
    v: CatalogView,
    w: CatalogView,
    extensions: Seq<Seq<char>>,
    scans: Seq<ScanView>,
) -> bool {
    &&& forall|k: int|
        0 <= k < w.items.len() && (#[trigger] w.items[k]).checked ==> (k < v.items.len()
            && v.items[k].checked) || seen(
            extensions,
            scans,
            w.items[k].base_label,
            w.items[k].path,
        )
    &&& forall|r: int|
        0 <= r < w.roots.len() && (#[trigger] w.roots[r]).checked ==> (r < v.roots.len()
            && v.roots[r].checked) || walked(scans, w.roots[r].label)
}

/// Number of entries in all of `scans`.
pub open spec fn entry_count(scans: Seq<ScanView>) -> int
    decreases scans.len(),
{
    if scans.len() == 0 {
        0
    } else {
        entry_count(scans.drop_last()) + scans.last().entries.len()
    }
}

/// Recording the walks of all roots marks nothing but what they have seen.
pub proof fn lemma_scans_marks(v: CatalogView, extensions: Seq<Seq<char>>, scans: Seq<ScanView>)
    requires
        catalog_wf(v),
    ensures
        catalog_wf(scans_recorded(v, extensions, scans)),
        extends(v, scans_recorded(v, extensions, scans)),
        scans_recorded(v, extensions, scans).next_id <= v.next_id + 2 * entry_count(scans),
        entry_count(scans) >= 0,
        marks_seen(v, scans_recorded(v, extensions, scans), extensions, scans),
    decreases scans.len(),
{
    let w = scans_recorded(v, extensions, scans);
    if scans.len() > 0 {
        let head = scans.drop_last();
        let scan = scans.last();
        let m = scans_recorded(v, extensions, head);
        lemma_scans_marks(v, extensions, head);
        let m1 = root_marked(m, scan.label);
        lemma_root_marked(m, scan.label);
        lemma_entries_marks(m1, extensions, scan.label, scan.base_path, scan.entries);
        lemma_extends_transitive(m, m1, w);
        lemma_extends_transitive(v, m, w);
        let last = scans.len() - 1;
        assert forall|k: int| 0 <= k < w.items.len() && (#[trigger] w.items[k]).checked implies (k
            < v.items.len() && v.items[k].checked) || seen(
            extensions,
            scans,
            w.items[k].base_label,
            w.items[k].path,
        ) by {
            let path = w.items[k].path;
            let lab = w.items[k].base_label;
            if k < m1.items.len() && m1.items[k].checked {
                assert(m.items[k] == m1.items[k]);
                assert(w.items[k].path == m.items[k].path);
                if !(k < v.items.len() && v.items[k].checked) {
                    assert(seen(extensions, head, lab, path));
                    let a = choose|a: int|
                        0 <= a < head.len() && (#[trigger] head[a]).label == lab && seen_in(
                            extensions,
                            head[a].base_path,
                            head[a].entries,
                            path,
                        );
                    assert(scans[a] == head[a]);
                }
            } else {
                assert(scans[last].label == lab);
                assert(seen_in(extensions, scans[last].base_path, scans[last].entries, path));
            }
        }
        assert forall|r: int| 0 <= r < w.roots.len() && (#[trigger] w.roots[r]).checked implies (r
            < v.roots.len() && v.roots[r].checked) || walked(scans, w.roots[r].label) by {
            let lab = w.roots[r].label;
            assert(w.roots[r] == m1.roots[r]);
            if r < m.roots.len() && m.roots[r].checked {
                assert(m1.roots[r].label == m.roots[r].label);
                if !(r < v.roots.len() && v.roots[r].checked) {
                    assert(walked(head, lab));
                    let a = choose|a: int| 0 <= a < head.len() && (#[trigger] head[a]).label == lab;
                    assert(scans[a] == head[a]);
                }
            } else {
                assert(scans[last].label == lab);
            }
        }
    }
}

/// What a sweep leaves was there before, and was marked.
pub proof fn lemma_swept_items(w: CatalogView)
    requires
        catalog_wf(w),
    ensures
        catalog_wf(swept(w)),
        forall|k: int|
            0 <= k < swept(w).items.len() ==> {
                let i = kept_source(w.items, item_marks(w.items), k);
                &&& 0 <= i < w.items.len()
                &&& w.items[i].checked
                &&& (#[trigger] swept(w).items[k]) == w.items[i]
            },
        forall|k: int|
            0 <= k < swept(w).roots.len() ==> {
                let i = kept_source(w.roots, root_marks(w.roots), k);
                &&& 0 <= i < w.roots.len()
                &&& w.roots[i].checked
                &&& (#[trigger] swept(w).roots[k]) == w.roots[i]
            },
{
    let r = swept(w);
    let im = item_marks(w.items);
    let rm = root_marks(w.roots);
    lemma_sweep_keeps_wf(w);
    lemma_kept(w.items, im);
    lemma_kept(w.roots, rm);
    assert forall|k: int| 0 <= k < r.items.len() implies {
        let i = kept_source(w.items, im, k);
        &&& 0 <= i < w.items.len()
        &&& w.items[i].checked
        &&& (#[trigger] r.items[k]) == w.items[i]
    } by {
        let i = kept_source(w.items, im, k);
        assert(im[i]);
    }
    assert forall|k: int| 0 <= k < r.roots.len() implies {
        let i = kept_source(w.roots, rm, k);
        &&& 0 <= i < w.roots.len()
        &&& w.roots[i].checked
        &&& (#[trigger] r.roots[k]) == w.roots[i]
    } by {
        let i = kept_source(w.roots, rm, k);
        assert(rm[i]);
    }
}

/// A sweep keeps a marked item as it was.
pub proof fn lemma_swept_keeps_marked(w: CatalogView, i: int)
    requires
        catalog_wf(w),
        0 <= i < w.items.len(),
        w.items[i].checked,
    ensures
        has_item(swept(w), w.items[i].base_label, w.items[i].path),
        item_at(swept(w), w.items[i].base_label, w.items[i].path) == w.items[i],
{
    let r = swept(w);
    let im = item_marks(w.items);
    lemma_sweep_keeps_wf(w);
    lemma_kept(w.items, im);
    assert(im[i]);
    let k = choose|k: int| 0 <= k < r.items.len() && kept_source(w.items, im, k) == i;
    let keys = item_keys(r.items);
    assert(r.items[k] == w.items[i]);
    assert(keys[k] == (w.items[i].base_label, w.items[i].path));
    assert forall|j: int| 0 <= j < k implies keys[j] != keys[k] by {}
    lemma_position_unique(keys, keys[k], k);
}

/// No mark is left once the marks were cleared.
pub proof fn lemma_reset_unmarks(v: CatalogView)
    ensures
        forall|k: int|
            0 <= k < reset_marks(v).items.len() ==> !(#[trigger] reset_marks(v).items[k]).checked,
        forall|k: int|
            0 <= k < reset_marks(v).roots.len() ==> !(#[trigger] reset_marks(v).roots[k]).checked,
{
}

/// Where `v` holds no mark, what is left of a later state `w` after a sweep
/// was seen by the walks that lie between them.
pub proof fn lemma_swept_was_seen(
    v: CatalogView,
    w: CatalogView,
    extensions: Seq<Seq<char>>,
    scans: Seq<ScanView>,
)
    requires
        catalog_wf(w),
        marks_seen(v, w, extensions, scans),
        forall|k: int| 0 <= k < v.items.len() ==> !(#[trigger] v.items[k]).checked,
        forall|k: int| 0 <= k < v.roots.len() ==> !(#[trigger] v.roots[k]).checked,
    ensures
        forall|k: int|
            0 <= k < swept(w).items.len() ==> {
                let x = #[trigger] swept(w).items[k];
                x.checked && seen(extensions, scans, x.base_label, x.path)
            },
        forall|r: int|
            0 <= r < swept(w).roots.len() ==> {
                let x = #[trigger] swept(w).roots[r];
                x.checked && walked(scans, x.label)
            },
{
    let r = swept(w);
    lemma_swept_items(w);
    assert forall|k: int| 0 <= k < r.items.len() implies {
        let x = #[trigger] r.items[k];
        x.checked && seen(extensions, scans, x.base_label, x.path)
    } by {
        let i = kept_source(w.items, item_marks(w.items), k);
        assert(swept(w).items[k] == w.items[i]);
        assert(w.items[i].checked);
        if i < v.items.len() {
            assert(!v.items[i].checked);
        }
    }
    assert forall|k: int| 0 <= k < r.roots.len() implies {
        let x = #[trigger] r.roots[k];
        x.checked && walked(scans, x.label)
    } by {
        let i = kept_source(w.roots, root_marks(w.roots), k);
        assert(swept(w).roots[k] == w.roots[i]);
        assert(w.roots[i].checked);
        if i < v.roots.len() {
            assert(!v.roots[i].checked);
        }
    }
}

/// After a pass, every item that the catalog holds is marked and was seen
/// by the walk, and every root that it holds is marked and was walked. So
/// an item that the walk has not seen is gone, whether the catalog held it
/// before the pass or not.
pub proof fn lemma_pass_sweeps_unseen(
    v: CatalogView,
    extensions: Seq<Seq<char>>,
    scans: Seq<ScanView>,
)
    requires
        catalog_wf(v),
    ensures
        catalog_wf(reconciled(v, extensions, scans)),
        forall|k: int|
            0 <= k < reconciled(v, extensions, scans).items.len() ==> {
                let x = #[trigger] reconciled(v, extensions, scans).items[k];
                x.checked && seen(extensions, scans, x.base_label, x.path)
            },
        forall|r: int|
            0 <= r < reconciled(v, extensions, scans).roots.len() ==> {
                let x = #[trigger] reconciled(v, extensions, scans).roots[r];
                x.checked && walked(scans, x.label)
            },
        forall|label: Seq<char>, path: Seq<char>|
            !seen(extensions, scans, label, path) ==> !#[trigger] has_item(
                reconciled(v, extensions, scans),
                label,
                path,
            ),
{
    let v0 = reset_marks(v);
    lemma_reset_keeps_wf(v);
    lemma_reset_unmarks(v);
    let w = scans_recorded(v0, extensions, scans);
    lemma_scans_marks(v0, extensions, scans);
    let r = swept(w);
    lemma_sweep_keeps_wf(w);
    lemma_swept_was_seen(v0, w, extensions, scans);
    assert forall|label: Seq<char>, path: Seq<char>|
        !seen(extensions, scans, label, path) implies !#[trigger] has_item(r, label, path) by {
        if has_item(r, label, path) {
            let keys = item_keys(r.items);
            lemma_position(keys, (label, path));
            let k = item_position(r, label, path);
            assert(keys[k] == (label, path));
            assert(r.items[k].checked);
        }
    }
}

/// Once the walks were recorded, the root of each walk is in the catalog
/// and marked.
pub proof fn lemma_scans_mark_walked(
    v: CatalogView,
    extensions: Seq<Seq<char>>,
    scans: Seq<ScanView>,
    a: int,
)
    requires
        catalog_wf(v),
        0 <= a < scans.len(),
    ensures
        root_marked_at(scans_recorded(v, extensions, scans), scans[a].label),
    decreases scans.len(),
{
    let head = scans.drop_last();
    let scan = scans.last();
    let m = scans_recorded(v, extensions, head);
    let w = scans_recorded(v, extensions, scans);
    lemma_scans_marks(v, extensions, head);
    lemma_root_marked(m, scan.label);
    let m1 = root_marked(m, scan.label);
    lemma_entries_marks(m1, extensions, scan.label, scan.base_path, scan.entries);
    if a < scans.len() - 1 {
        assert(head[a] == scans[a]);
        lemma_scans_mark_walked(v, extensions, head, a);
        lemma_extends_transitive(m, m1, w);
        lemma_extends_keeps_root(m, w, scans[a].label);
    }
}

/// A sweep keeps a marked root.
pub proof fn lemma_swept_keeps_root(w: CatalogView, label: Seq<char>)
    requires
        catalog_wf(w),
        root_marked_at(w, label),
    ensures
        root_marked_at(swept(w), label),
{
    let r = swept(w);
    let rm = root_marks(w.roots);
    lemma_sweep_keeps_wf(w);
    lemma_kept(w.roots, rm);
    lemma_position(root_labels(w.roots), label);
    let i = root_position(w, label);
    assert(rm[i]);
    let k = choose|k: int| 0 <= k < r.roots.len() && kept_source(w.roots, rm, k) == i;
    let labels = root_labels(r.roots);
    assert(r.roots[k] == w.roots[i]);
    assert(labels[k] == label);
    assert forall|j: int| 0 <= j < k implies labels[j] != labels[k] by {}
    lemma_position_unique(labels, label, k);
}

} // verus!
