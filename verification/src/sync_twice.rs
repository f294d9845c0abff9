//! A second pass over the same walks changes nothing.

use crate::catalog::{
    catalog_wf, extends, full_sighting, has_item, item_at, item_keys, item_marks, item_position,
    lemma_extends_keeps_root, lemma_extends_transitive, lemma_recorded, lemma_reset_keeps_wf,
    name_from_path, plain_sighting, recorded, recorded_id, reset_marks, root_labels, root_marked,
    root_marks, root_position, CatalogView,
};
use crate::paths::parent_of;
use crate::seqs::{lemma_kept_all, lemma_position, lemma_position_unique};
use crate::sync::{entry_key, entry_recorded, is_leaf, reconciled, EntryView, ScanView};
use crate::sync_entry::{live, ran};
use crate::sync_first::{
    lemma_last_writer, lemma_live_ran, lemma_marks_traced, lemma_missing_means_full,
    lemma_ran_is_live, lemma_swept_was_there, pass_result, some_step_touches, step_touches, writer,
};
use crate::sync_present::due_parent;
use crate::sync_proofs::{
    lemma_pass_sweeps_unseen, lemma_root_marked, lemma_scans_mark_walked, lemma_swept_keeps_root,
    walked,
};
use crate::sync_steps::{
    lemma_scans_are_steps, lemma_state_extends, lemma_steps_extend, state_at, steps_applied,
    walk_steps, Step,
};
use vstd::prelude::*;

verus! {

/// `b` holds the rows of `c`, but for marks and content identities.
pub open spec fn same_frame(b: CatalogView, c: CatalogView) -> bool {
    &&& b.next_id == c.next_id
    &&& b.items.len() == c.items.len()
    &&& b.roots.len() == c.roots.len()
    &&& forall|k: int|
        0 <= k < b.items.len() ==> {
            &&& (#[trigger] b.items[k]).id == c.items[k].id
            &&& b.items[k].name == c.items[k].name
            &&& b.items[k].path == c.items[k].path
            &&& b.items[k].base_label == c.items[k].base_label
            &&& b.items[k].parent == c.items[k].parent
            &&& b.items[k].model_name == c.items[k].model_name
        }
    &&& forall|k: int| 0 <= k < b.roots.len() ==> (#[trigger] b.roots[k]).label == c.roots[k].label
}

/// Catalogs with the same frame have the same keys, in the same order.
pub proof fn lemma_same_frame_keys(b: CatalogView, c: CatalogView)
    requires
        same_frame(b, c),
    ensures
        item_keys(b.items) == item_keys(c.items),
        root_labels(b.roots) == root_labels(c.roots),
{
    assert forall|k: int| 0 <= k < b.items.len() implies item_keys(b.items)[k] == item_keys(
        c.items,
    )[k] by {
        assert(b.items[k].path == c.items[k].path);
    }
    assert(item_keys(b.items) =~= item_keys(c.items));
    assert forall|k: int| 0 <= k < b.roots.len() implies root_labels(b.roots)[k] == root_labels(
        c.roots,
    )[k] by {
        assert(b.roots[k].label == c.roots[k].label);
    }
    assert(root_labels(b.roots) =~= root_labels(c.roots));
}

/// The catalog `c` is ready for the entry `e` to be recorded again: where
/// the item of `e` and the item one level up are there, the one points to
/// the other; where one is missing, no id is left to make it.
pub open spec fn entry_settled(
    c: CatalogView,
    extensions: Seq<Seq<char>>,
    label: Seq<char>,
    base: Seq<char>,
    e: EntryView,
) -> bool {
    entry_key(extensions, base, e) matches Some(rel) ==> {
        &&& !live(c, extensions, label, base, e) ==> c.next_id == i64::MAX
        &&& live(c, extensions, label, base, e) ==> item_at(c, label, rel).parent == due_parent(
            c,
            label,
            rel,
        )
    }
}

/// Recording an entry on a catalog with the frame of `c`, which is ready
/// for it, keeps the frame. It marks the item of the entry and the item one
/// level up as far as `c` holds them, and writes one content identity at
/// most: that of the entry's item, where the entry is a model file and live.
pub proof fn lemma_entry_again(
    b: CatalogView,
    c: CatalogView,
    extensions: Seq<Seq<char>>,
    label: Seq<char>,
    base: Seq<char>,
    e: EntryView,
)
    requires
        catalog_wf(b),
        catalog_wf(c),
        same_frame(b, c),
        entry_settled(c, extensions, label, base, e),
    ensures
        ({
            let w = entry_recorded(b, extensions, label, base, e);
            &&& catalog_wf(w)
            &&& same_frame(w, c)
            &&& extends(b, w)
            &&& w.roots == b.roots
            &&& entry_key(extensions, base, e) matches Some(rel) ==> {
                let writes = live(c, extensions, label, base, e) && is_leaf(extensions, e);
                &&& forall|j: int|
                    0 <= j < w.items.len() ==> (#[trigger] w.items[j]).hash == if writes && j
                        == item_position(c, label, rel) {
                        e.identity
                    } else {
                        b.items[j].hash
                    }
                &&& rel.len() > 0 && has_item(c, label, parent_of(rel)) ==> w.items[item_position(
                    c,
                    label,
                    parent_of(rel),
                )].checked
                &&& live(c, extensions, label, base, e) ==> w.items[item_position(
                    c,
                    label,
                    rel,
                )].checked
            }
        }),
{
    lemma_same_frame_keys(b, c);
    match entry_key(extensions, base, e) {
        None => {},
        Some(rel) => {
            let leaf = is_leaf(extensions, e);
            let hash = if leaf {
                e.identity
            } else {
                None
            };
            let model_name = if leaf {
                e.model_name
            } else {
                None
            };
            let name = name_from_path(e.path);
            let at = item_position(c, label, rel);
            lemma_position(item_keys(c.items), (label, rel));
            if rel.len() == 0 {
                let full = full_sighting(name, rel, label, None, hash, model_name);
                lemma_recorded(b, full);
                let w = recorded(b, full);
                assert forall|j: int| 0 <= j < w.items.len() implies (#[trigger] w.items[j]).id
                    == c.items[j].id && w.items[j].name == c.items[j].name && w.items[j].path
                    == c.items[j].path && w.items[j].base_label == c.items[j].base_label
                    && w.items[j].parent == c.items[j].parent && w.items[j].model_name
                    == c.items[j].model_name by {
                    assert(b.items[j].id == c.items[j].id);
                    if j != at {
                        assert(w.items[j] == b.items[j]);
                    }
                }
                assert forall|j: int| 0 <= j < w.items.len() implies (#[trigger] w.items[j]).hash
                    == if live(c, extensions, label, base, e) && leaf && j == at {
                    e.identity
                } else {
                    b.items[j].hash
                } by {
                    if j != at {
                        assert(w.items[j] == b.items[j]);
                    }
                }
            } else {
                let up_key = parent_of(rel);
                let up = plain_sighting(label, up_key);
                let up_at = item_position(c, label, up_key);
                lemma_position(item_keys(c.items), (label, up_key));
                lemma_recorded(b, up);
                let b1 = recorded(b, up);
                if recorded_id(b, up) is Some {
                    let pid = recorded_id(b, up)->0;
                    assert(b.items[up_at].id == c.items[up_at].id);
                    assert forall|j: int| 0 <= j < b1.items.len() implies (
                    #[trigger] b1.items[j]).id == c.items[j].id && b1.items[j].name
                        == c.items[j].name && b1.items[j].path == c.items[j].path
                        && b1.items[j].base_label == c.items[j].base_label && b1.items[j].parent
                        == c.items[j].parent && b1.items[j].model_name == c.items[j].model_name
                        && b1.items[j].hash == b.items[j].hash by {
                        assert(b.items[j].id == c.items[j].id);
                        if j != up_at {
                            assert(b1.items[j] == b.items[j]);
                        }
                    }
                    assert(same_frame(b1, c));
                    lemma_same_frame_keys(b1, c);
                    let full = full_sighting(name, rel, label, Some(pid), hash, model_name);
                    lemma_recorded(b1, full);
                    let w = recorded(b1, full);
                    lemma_extends_transitive(b, b1, w);
                    assert forall|j: int| 0 <= j < w.items.len() implies (
                    #[trigger] w.items[j]).id == c.items[j].id && w.items[j].name
                        == c.items[j].name && w.items[j].path == c.items[j].path
                        && w.items[j].base_label == c.items[j].base_label && w.items[j].parent
                        == c.items[j].parent && w.items[j].model_name == c.items[j].model_name by {
                        assert(b1.items[j].id == c.items[j].id);
                        if j != at {
                            assert(w.items[j] == b1.items[j]);
                        }
                    }
                    assert forall|j: int| 0 <= j < w.items.len() implies (
                    #[trigger] w.items[j]).hash == if live(c, extensions, label, base, e) && leaf
                        && j == at {
                        e.identity
                    } else {
                        b.items[j].hash
                    } by {
                        assert(b1.items[j].hash == b.items[j].hash);
                        if j != at {
                            assert(w.items[j] == b1.items[j]);
                        }
                    }
                    assert(b1.items[up_at].checked ==> w.items[up_at].checked);
                }
            }
        },
    }
}

/// Marking a root that the catalog `c` holds, on a catalog with the frame
/// of `c`, keeps the frame and leaves the items as they are.
pub proof fn lemma_root_again(b: CatalogView, c: CatalogView, label: Seq<char>)
    requires
        catalog_wf(b),
        same_frame(b, c),
        root_position(c, label) < c.roots.len(),
    ensures
        catalog_wf(root_marked(b, label)),
        extends(b, root_marked(b, label)),
        same_frame(root_marked(b, label), c),
        root_marked(b, label).items == b.items,
{
    lemma_same_frame_keys(b, c);
    lemma_root_marked(b, label);
    let w = root_marked(b, label);
    let i = root_position(b, label);
    assert(i == root_position(c, label));
    lemma_position(root_labels(b.roots), label);
    assert(w.roots == b.roots.update(i, w.roots[i]));
    assert forall|k: int| 0 <= k < w.roots.len() implies (#[trigger] w.roots[k]).label
        == c.roots[k].label by {
        assert(b.roots[k].label == c.roots[k].label);
    }
}

/// The catalog `c` is ready for `step` to be applied again.
pub open spec fn step_settled(c: CatalogView, extensions: Seq<Seq<char>>, step: Step) -> bool {
    match step {
        Step::Root { label } => root_position(c, label) < c.roots.len(),
        Step::Entry { label, base, entry } => entry_settled(c, extensions, label, base, entry),
    }
}

/// None of the steps from the index `k` on is a writer of the item `rel`
/// of the root `label`.
pub open spec fn no_writer_from(
    c: CatalogView,
    extensions: Seq<Seq<char>>,
    steps: Seq<Step>,
    k: int,
    label: Seq<char>,
    rel: Seq<char>,
) -> bool {
    forall|i: int| k <= i < steps.len() ==> !writer(c, extensions, #[trigger] steps[i], label, rel)
}

/// Where the step at `i` is the last writer of an item, the catalog `c`
/// holds for that item the content identity that the step writes.
pub open spec fn last_writer_settled(
    c: CatalogView,
    extensions: Seq<Seq<char>>,
    steps: Seq<Step>,
    i: int,
) -> bool {
    steps[i] matches Step::Entry { label, base, entry } ==> (entry_key(extensions, base, entry)
        matches Some(rel) ==> (writer(c, extensions, steps[i], label, rel) && no_writer_from(
        c,
        extensions,
        steps,
        i + 1,
        label,
        rel,
    ) ==> item_at(c, label, rel).hash == entry.identity))
}

/// The catalog `c` is ready for `steps` to be applied again.
pub open spec fn settled(c: CatalogView, extensions: Seq<Seq<char>>, steps: Seq<Step>) -> bool {
    &&& forall|i: int| 0 <= i < steps.len() ==> step_settled(c, extensions, #[trigger] steps[i])
    &&& forall|i: int|
        0 <= i < steps.len() ==> #[trigger] last_writer_settled(c, extensions, steps, i)
}

/// What a pass leaves is ready for its steps to be applied again.
pub proof fn lemma_pass_settled(v: CatalogView, extensions: Seq<Seq<char>>, steps: Seq<Step>)
    requires
        catalog_wf(v),
    ensures
        settled(pass_result(v, extensions, steps), extensions, steps),
{
    let c = pass_result(v, extensions, steps);
    let w = steps_applied(v, extensions, steps);
    lemma_steps_extend(v, extensions, steps);
    assert forall|i: int| 0 <= i < steps.len() implies step_settled(
        c,
        extensions,
        #[trigger] steps[i],
    ) by {
        match steps[i] {
            Step::Root { label } => {
                lemma_state_extends(v, extensions, steps, i);
                lemma_state_extends(v, extensions, steps, i + 1);
                let after = state_at(v, extensions, steps, i + 1);
                lemma_root_marked(state_at(v, extensions, steps, i), label);
                lemma_extends_keeps_root(after, w, label);
                lemma_swept_keeps_root(w, label);
            },
            Step::Entry { label, base, entry } => {
                if entry_key(extensions, base, entry) is Some {
                    if live(c, extensions, label, base, entry) {
                        lemma_live_ran(v, extensions, steps, i);
                    } else {
                        lemma_missing_means_full(v, extensions, steps, i);
                    }
                }
            },
        }
    }
    assert forall|i: int| 0 <= i < steps.len() implies #[trigger] last_writer_settled(
        c,
        extensions,
        steps,
        i,
    ) by {
        match steps[i] {
            Step::Root { label } => {},
            Step::Entry { label, base, entry } => {
                if entry_key(extensions, base, entry) is Some {
                    let rel = entry_key(extensions, base, entry)->0;
                    if writer(c, extensions, steps[i], label, rel) && no_writer_from(
                        c,
                        extensions,
                        steps,
                        i + 1,
                        label,
                        rel,
                    ) {
                        lemma_last_writer(v, extensions, steps, i);
                    }
                }
            },
        }
    }
}

/// While the steps are applied again, the catalog keeps the frame of `c`,
/// and an item that no later step writes holds the content identity that it
/// holds in `c`.
pub proof fn lemma_steps_again(
    b: CatalogView,
    c: CatalogView,
    extensions: Seq<Seq<char>>,
    steps: Seq<Step>,
    k: int,
)
    requires
        catalog_wf(b),
        catalog_wf(c),
        same_frame(b, c),
        forall|j: int| 0 <= j < b.items.len() ==> (#[trigger] b.items[j]).hash == c.items[j].hash,
        settled(c, extensions, steps),
        0 <= k <= steps.len(),
    ensures
        catalog_wf(state_at(b, extensions, steps, k)),
        same_frame(state_at(b, extensions, steps, k), c),
        forall|j: int|
            0 <= j < c.items.len() && no_writer_from(
                c,
                extensions,
                steps,
                k,
                c.items[j].base_label,
                c.items[j].path,
            ) ==> (#[trigger] state_at(b, extensions, steps, k).items[j]).hash == c.items[j].hash,
    decreases k,
{
    if k == 0 {
        assert(steps.take(0) == Seq::<Step>::empty());
    } else {
        let i = k - 1;
        let before = state_at(b, extensions, steps, i);
        let after = state_at(b, extensions, steps, k);
        lemma_steps_again(b, c, extensions, steps, i);
        lemma_state_extends(b, extensions, steps, i);
        assert(step_settled(c, extensions, steps[i]));
        assert(last_writer_settled(c, extensions, steps, i));
        match steps[i] {
            Step::Root { label } => {
                lemma_root_again(before, c, label);
                assert forall|j: int|
                    0 <= j < c.items.len() && no_writer_from(
                        c,
                        extensions,
                        steps,
                        k,
                        c.items[j].base_label,
                        c.items[j].path,
                    ) implies (#[trigger] after.items[j]).hash == c.items[j].hash by {
                    assert(no_writer_from(
                        c,
                        extensions,
                        steps,
                        i,
                        c.items[j].base_label,
                        c.items[j].path,
                    ));
                    assert(before.items[j].hash == c.items[j].hash);
                }
            },
            Step::Entry { label, base, entry } => {
                lemma_entry_again(before, c, extensions, label, base, entry);
                assert forall|j: int|
                    0 <= j < c.items.len() && no_writer_from(
                        c,
                        extensions,
                        steps,
                        k,
                        c.items[j].base_label,
                        c.items[j].path,
                    ) implies (#[trigger] after.items[j]).hash == c.items[j].hash by {
                    let at_label = c.items[j].base_label;
                    let at_path = c.items[j].path;
                    let keys = item_keys(c.items);
                    assert(keys[j] == (at_label, at_path));
                    assert forall|a: int| 0 <= a < j implies keys[a] != keys[j] by {}
                    lemma_position_unique(keys, (at_label, at_path), j);
                    if writer(c, extensions, steps[i], at_label, at_path) {
                        assert(after.items[j].hash == entry.identity);
                    } else {
                        assert(no_writer_from(c, extensions, steps, i, at_label, at_path));
                        assert(before.items[j].hash == c.items[j].hash);
                        if entry_key(extensions, base, entry) is Some {
                            let rel = entry_key(extensions, base, entry)->0;
                            if live(c, extensions, label, base, entry) && is_leaf(
                                extensions,
                                entry,
                            ) && j == item_position(c, label, rel) {
                                lemma_position(keys, (label, rel));
                                assert(keys[j] == (label, rel));
                            }
                        }
                    }
                }
            },
        }
    }
}

/// When the steps are applied again, the step at `i` marks again what it
/// marked: the item one level up from its entry, and the item of its entry
/// where that is live.
pub proof fn lemma_marked_again(
    b: CatalogView,
    c: CatalogView,
    extensions: Seq<Seq<char>>,
    steps: Seq<Step>,
    i: int,
    j: int,
)
    requires
        catalog_wf(b),
        catalog_wf(c),
        same_frame(b, c),
        forall|j: int| 0 <= j < b.items.len() ==> (#[trigger] b.items[j]).hash == c.items[j].hash,
        settled(c, extensions, steps),
        0 <= i < steps.len(),
        0 <= j < c.items.len(),
        steps[i] matches Step::Entry { label, base, entry } && label == c.items[j].base_label && (
        entry_key(extensions, base, entry) matches Some(rel) && ((rel.len() > 0 && parent_of(rel)
            == c.items[j].path) || (rel == c.items[j].path && live(
            c,
            extensions,
            label,
            base,
            entry,
        )))),
    ensures
        steps_applied(b, extensions, steps).items[j].checked,
{
    let before = state_at(b, extensions, steps, i);
    let after = state_at(b, extensions, steps, i + 1);
    let w = steps_applied(b, extensions, steps);
    lemma_steps_again(b, c, extensions, steps, i);
    lemma_state_extends(b, extensions, steps, i);
    lemma_state_extends(b, extensions, steps, i + 1);
    assert(step_settled(c, extensions, steps[i]));
    let keys = item_keys(c.items);
    assert(keys[j] == (c.items[j].base_label, c.items[j].path));
    assert forall|a: int| 0 <= a < j implies keys[a] != keys[j] by {}
    lemma_position_unique(keys, keys[j], j);
    match steps[i] {
        Step::Root { label } => {},
        Step::Entry { label, base, entry } => {
            lemma_entry_again(before, c, extensions, label, base, entry);
            assert(after.items[j].checked);
            assert(after.items[j].checked ==> w.items[j].checked);
        },
    }
}

/// Running a pass a second time over the same walks leaves the catalog as
/// the first pass left it: the same roots and items, with the same ids,
/// parents, content identities and marks.
pub proof fn lemma_second_pass_changes_nothing(
    v: CatalogView,
    extensions: Seq<Seq<char>>,
    scans: Seq<ScanView>,
)
    requires
        catalog_wf(v),
    ensures
        reconciled(reconciled(v, extensions, scans), extensions, scans) == reconciled(
            v,
            extensions,
            scans,
        ),
{
    let steps = walk_steps(scans);
    let v0 = reset_marks(v);
    lemma_reset_keeps_wf(v);
    let w1 = steps_applied(v0, extensions, steps);
    lemma_scans_are_steps(v0, extensions, scans);
    lemma_steps_extend(v0, extensions, steps);
    let c = reconciled(v, extensions, scans);
    assert(c == pass_result(v0, extensions, steps));
    lemma_pass_sweeps_unseen(v, extensions, scans);
    lemma_pass_settled(v0, extensions, steps);
    let b0 = reset_marks(c);
    lemma_reset_keeps_wf(c);
    assert(same_frame(b0, c));
    let w2 = steps_applied(b0, extensions, steps);
    lemma_scans_are_steps(b0, extensions, scans);
    let n = steps.len() as int;
    lemma_steps_again(b0, c, extensions, steps, n);
    assert(steps.take(n) == steps);
    lemma_same_frame_keys(w2, c);
    assert forall|j: int| 0 <= j < w2.items.len() implies (#[trigger] w2.items[j]) == c.items[j] by {
        let x = c.items[j];
        assert(x.checked);
        assert(no_writer_from(c, extensions, steps, n, x.base_label, x.path));
        assert(w2.items[j].hash == x.hash);
        let keys = item_keys(c.items);
        assert(keys[j] == (x.base_label, x.path));
        assert forall|a: int| 0 <= a < j implies keys[a] != keys[j] by {}
        lemma_position_unique(keys, keys[j], j);
        lemma_swept_was_there(w1, x.base_label, x.path);
        lemma_position(item_keys(w1.items), (x.base_label, x.path));
        let j1 = item_position(w1, x.base_label, x.path);
        assert(item_keys(w1.items)[j1] == (x.base_label, x.path));
        lemma_marks_traced(v0, extensions, steps, j1);
        if j1 < v0.items.len() {
            assert(!v0.items[j1].checked);
        }
        assert(some_step_touches(v0, extensions, steps, x.base_label, x.path));
        let i = choose|i: int|
            0 <= i < steps.len() && step_touches(
                #[trigger] state_at(v0, extensions, steps, i),
                extensions,
                steps[i],
                x.base_label,
                x.path,
            );
        match steps[i] {
            Step::Root { label } => {},
            Step::Entry { label, base, entry } => {
                let rel = entry_key(extensions, base, entry)->0;
                if rel == x.path && ran(
                    state_at(v0, extensions, steps, i),
                    extensions,
                    label,
                    base,
                    entry,
                ) {
                    lemma_ran_is_live(v0, extensions, steps, i);
                }
                lemma_marked_again(b0, c, extensions, steps, i, j);
            },
        }
        assert(w2.items[j].checked);
        assert(w2.items[j].id == x.id);
    }
    assert(w2.items =~= c.items);
    assert forall|r: int| 0 <= r < w2.roots.len() implies (#[trigger] w2.roots[r]) == c.roots[r] by {
        let x = c.roots[r];
        assert(x.checked && walked(scans, x.label));
        let a = choose|a: int| 0 <= a < scans.len() && (#[trigger] scans[a]).label == x.label;
        lemma_scans_mark_walked(b0, extensions, scans, a);
        let labels = root_labels(w2.roots);
        assert(labels[r] == x.label);
        assert forall|q: int| 0 <= q < r implies labels[q] != labels[r] by {}
        lemma_position_unique(labels, x.label, r);
        assert(w2.roots[r].checked);
        assert(w2.roots[r].label == c.roots[r].label);
    }
    assert(w2.roots =~= c.roots);
    assert(w2 == c);
    lemma_kept_all(w2.items, item_marks(w2.items));
    lemma_kept_all(w2.roots, root_marks(w2.roots));
}

} // verus!
