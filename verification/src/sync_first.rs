//! What a pass leaves behind: facts about the catalog after a pass that
//! tell what the same steps do when they are applied again.

use crate::catalog::{
    catalog_wf, has_item, item_at, item_keys, item_marks, item_position, lemma_extends_keeps_item,
    swept, CatalogView,
};
use crate::paths::parent_of;
use crate::seqs::{kept_source, lemma_position, lemma_position_unique};
use crate::sync::{entry_key, entry_recorded, is_leaf};
use crate::sync_entry::{
    lemma_entry_effect, lemma_entry_keeps_hash, live, marked_at, ran, touches, writes_hash,
};
use crate::sync_present::{lemma_entry_keeps_placed, lemma_sweep_keeps_placed, placed};
use crate::sync_proofs::lemma_swept_items;
use crate::sync_steps::{
    lemma_state_extends, lemma_step_extends, lemma_steps_append, lemma_steps_extend, state_at,
    step_applied, steps_applied, Step,
};
use vstd::prelude::*;

verus! {

/// Where no id is left, a step makes no item.
pub proof fn lemma_full_step(v: CatalogView, extensions: Seq<Seq<char>>, step: Step)
    requires
        catalog_wf(v),
        v.next_id == i64::MAX,
    ensures
        item_keys(step_applied(v, extensions, step).items) == item_keys(v.items),
        step_applied(v, extensions, step).next_id == i64::MAX,
{
    match step {
        Step::Root { label } => {},
        Step::Entry { label, base, entry } => {
            match entry_key(extensions, base, entry) {
                None => {},
                Some(rel) => {
                    let w = entry_recorded(v, extensions, label, base, entry);
                    lemma_step_extends(v, extensions, step);
                    assert(w.items.len() == v.items.len());
                    assert forall|j: int| 0 <= j < w.items.len() implies item_keys(w.items)[j]
                        == item_keys(v.items)[j] by {
                        assert(w.items[j].path == v.items[j].path);
                    }
                    assert(item_keys(w.items) =~= item_keys(v.items));
                },
            }
        },
    }
}

/// Where no id is left, steps make no item.
pub proof fn lemma_full_steps(v: CatalogView, extensions: Seq<Seq<char>>, steps: Seq<Step>)
    requires
        catalog_wf(v),
        v.next_id == i64::MAX,
    ensures
        item_keys(steps_applied(v, extensions, steps).items) == item_keys(v.items),
        steps_applied(v, extensions, steps).next_id == i64::MAX,
    decreases steps.len(),
{
    if steps.len() > 0 {
        lemma_full_steps(v, extensions, steps.drop_last());
        lemma_steps_extend(v, extensions, steps.drop_last());
        lemma_full_step(
            steps_applied(v, extensions, steps.drop_last()),
            extensions,
            steps.last(),
        );
    }
}

/// What a sweep leaves was there before, as it is, and marked.
pub proof fn lemma_swept_was_there(w: CatalogView, label: Seq<char>, path: Seq<char>)
    requires
        catalog_wf(w),
        has_item(swept(w), label, path),
    ensures
        marked_at(w, label, path),
        item_at(swept(w), label, path) == item_at(w, label, path),
{
    let r = swept(w);
    lemma_swept_items(w);
    lemma_position(item_keys(r.items), (label, path));
    let k = item_position(r, label, path);
    let i = kept_source(w.items, item_marks(w.items), k);
    assert(r.items[k] == w.items[i]);
    assert(item_keys(r.items)[k] == (label, path));
    let keys = item_keys(w.items);
    assert(keys[i] == (label, path));
    assert forall|j: int| 0 <= j < i implies keys[j] != keys[i] by {}
    lemma_position_unique(keys, (label, path), i);
}

/// An item that is placed stays placed under every step.
pub proof fn lemma_steps_keep_placed(
    v: CatalogView,
    extensions: Seq<Seq<char>>,
    steps: Seq<Step>,
    label: Seq<char>,
    rel: Seq<char>,
)
    requires
        catalog_wf(v),
        placed(v, label, rel),
    ensures
        placed(steps_applied(v, extensions, steps), label, rel),
    decreases steps.len(),
{
    if steps.len() > 0 {
        let m = steps_applied(v, extensions, steps.drop_last());
        lemma_steps_keep_placed(v, extensions, steps.drop_last(), label, rel);
        lemma_steps_extend(v, extensions, steps.drop_last());
        match steps.last() {
            Step::Root { label: l } => {},
            Step::Entry { label: l, base, entry } => {
                lemma_entry_keeps_placed(m, extensions, l, base, entry, label, rel);
            },
        }
    }
}

/// Whether the step `step`, applied to `v`, marks the item `path` of the
/// root `label`.
pub open spec fn step_touches(
    v: CatalogView,
    extensions: Seq<Seq<char>>,
    step: Step,
    label: Seq<char>,
    path: Seq<char>,
) -> bool {
    step matches Step::Entry { label: l, base, entry } && touches(
        v,
        extensions,
        l,
        base,
        entry,
        label,
        path,
    )
}

/// Whether one of `steps`, applied in its turn from `v` on, marks the item
/// `path` of the root `label`.
pub open spec fn some_step_touches(
    v: CatalogView,
    extensions: Seq<Seq<char>>,
    steps: Seq<Step>,
    label: Seq<char>,
    path: Seq<char>,
) -> bool {
    exists|i: int|
        0 <= i < steps.len() && step_touches(
            #[trigger] state_at(v, extensions, steps, i),
            extensions,
            steps[i],
            label,
            path,
        )
}

/// A mark that stands after the steps stood before them, or was set by one
/// of them.
pub proof fn lemma_marks_traced(
    v: CatalogView,
    extensions: Seq<Seq<char>>,
    steps: Seq<Step>,
    j: int,
)
    requires
        catalog_wf(v),
        0 <= j < steps_applied(v, extensions, steps).items.len(),
        steps_applied(v, extensions, steps).items[j].checked,
    ensures
        (j < v.items.len() && v.items[j].checked) || some_step_touches(
            v,
            extensions,
            steps,
            steps_applied(v, extensions, steps).items[j].base_label,
            steps_applied(v, extensions, steps).items[j].path,
        ),
    decreases steps.len(),
{
    if steps.len() > 0 {
        let head = steps.drop_last();
        let n = steps.len() - 1;
        let m = steps_applied(v, extensions, head);
        let w = steps_applied(v, extensions, steps);
        let label = w.items[j].base_label;
        let path = w.items[j].path;
        lemma_steps_extend(v, extensions, head);
        lemma_step_extends(m, extensions, steps.last());
        assert(steps.take(n) == head);
        let was = j < m.items.len() && m.items[j].checked;
        if !was {
            match steps.last() {
                Step::Root { label: l } => {},
                Step::Entry { label: l, base, entry } => {
                    if entry_key(extensions, base, entry) is Some {
                        lemma_entry_effect(m, extensions, l, base, entry);
                    }
                    assert(step_touches(
                        state_at(v, extensions, steps, n),
                        extensions,
                        steps[n],
                        label,
                        path,
                    ));
                },
            }
        } else {
            assert(m.items[j].path == path && m.items[j].base_label == label);
            lemma_marks_traced(v, extensions, head, j);
            if !(j < v.items.len() && v.items[j].checked) {
                let i = choose|i: int|
                    0 <= i < head.len() && step_touches(
                        #[trigger] state_at(v, extensions, head, i),
                        extensions,
                        head[i],
                        label,
                        path,
                    );
                assert(head.take(i) == steps.take(i));
                assert(head[i] == steps[i]);
                assert(step_touches(
                    state_at(v, extensions, steps, i),
                    extensions,
                    steps[i],
                    label,
                    path,
                ));
            }
        }
    }
}

/// The catalog that a pass leaves: what the steps make of `v`, swept.
pub open spec fn pass_result(
    v: CatalogView,
    extensions: Seq<Seq<char>>,
    steps: Seq<Step>,
) -> CatalogView {
    swept(steps_applied(v, extensions, steps))
}

/// An entry that was recorded in a pass is live in what the pass leaves.
pub proof fn lemma_ran_is_live(v: CatalogView, extensions: Seq<Seq<char>>, steps: Seq<Step>, i: int)
    requires
        catalog_wf(v),
        0 <= i < steps.len(),
        steps[i] matches Step::Entry { label, base, entry } && ran(
            state_at(v, extensions, steps, i),
            extensions,
            label,
            base,
            entry,
        ),
    ensures
        steps[i] matches Step::Entry { label, base, entry } && live(
            pass_result(v, extensions, steps),
            extensions,
            label,
            base,
            entry,
        ) && placed(
            pass_result(v, extensions, steps),
            label,
            entry_key(extensions, base, entry)->0,
        ) && (is_leaf(extensions, entry) ==> item_at(
            state_at(v, extensions, steps, i + 1),
            label,
            entry_key(extensions, base, entry)->0,
        ).hash == entry.identity),
{
    match steps[i] {
        Step::Root { label } => {},
        Step::Entry { label, base, entry } => {
            let before = state_at(v, extensions, steps, i);
            let after = state_at(v, extensions, steps, i + 1);
            let w = steps_applied(v, extensions, steps);
            let rel = entry_key(extensions, base, entry)->0;
            lemma_state_extends(v, extensions, steps, i);
            lemma_state_extends(v, extensions, steps, i + 1);
            lemma_entry_effect(before, extensions, label, base, entry);
            assert(steps.take(i + 1) + steps.skip(i + 1) == steps);
            lemma_steps_append(v, extensions, steps.take(i + 1), steps.skip(i + 1));
            lemma_steps_keep_placed(after, extensions, steps.skip(i + 1), label, rel);
            lemma_steps_extend(v, extensions, steps);
            lemma_sweep_keeps_placed(w, label, rel);
        },
    }
}

/// Where the item of an entry, or the item one level up, is missing after
/// a pass that met the entry, the catalog has no id left.
pub proof fn lemma_missing_means_full(
    v: CatalogView,
    extensions: Seq<Seq<char>>,
    steps: Seq<Step>,
    i: int,
)
    requires
        catalog_wf(v),
        0 <= i < steps.len(),
        steps[i] matches Step::Entry { label, base, entry } && entry_key(extensions, base, entry)
            is Some && !live(pass_result(v, extensions, steps), extensions, label, base, entry),
    ensures
        pass_result(v, extensions, steps).next_id == i64::MAX,
        steps[i] matches Step::Entry { label, base, entry } && !ran(
            state_at(v, extensions, steps, i),
            extensions,
            label,
            base,
            entry,
        ),
{
    match steps[i] {
        Step::Root { label } => {},
        Step::Entry { label, base, entry } => {
            let before = state_at(v, extensions, steps, i);
            if ran(before, extensions, label, base, entry) {
                lemma_ran_is_live(v, extensions, steps, i);
            } else {
                lemma_state_extends(v, extensions, steps, i);
                lemma_state_extends(v, extensions, steps, i + 1);
                lemma_entry_effect(before, extensions, label, base, entry);
                lemma_steps_extend(v, extensions, steps);
            }
        },
    }
}

/// An entry that is live in what a pass leaves was recorded in the pass,
/// and its item is placed.
pub proof fn lemma_live_ran(v: CatalogView, extensions: Seq<Seq<char>>, steps: Seq<Step>, i: int)
    requires
        catalog_wf(v),
        0 <= i < steps.len(),
        steps[i] matches Step::Entry { label, base, entry } && live(
            pass_result(v, extensions, steps),
            extensions,
            label,
            base,
            entry,
        ),
    ensures
        steps[i] matches Step::Entry { label, base, entry } && ran(
            state_at(v, extensions, steps, i),
            extensions,
            label,
            base,
            entry,
        ) && placed(
            pass_result(v, extensions, steps),
            label,
            entry_key(extensions, base, entry)->0,
        ),
{
    match steps[i] {
        Step::Root { label } => {},
        Step::Entry { label, base, entry } => {
            let before = state_at(v, extensions, steps, i);
            let after = state_at(v, extensions, steps, i + 1);
            let w = steps_applied(v, extensions, steps);
            let rel = entry_key(extensions, base, entry)->0;
            if ran(before, extensions, label, base, entry) {
                lemma_ran_is_live(v, extensions, steps, i);
            } else {
                lemma_state_extends(v, extensions, steps, i);
                lemma_state_extends(v, extensions, steps, i + 1);
                lemma_entry_effect(before, extensions, label, base, entry);
                assert(steps.take(i + 1) + steps.skip(i + 1) == steps);
                lemma_steps_append(v, extensions, steps.take(i + 1), steps.skip(i + 1));
                lemma_full_steps(after, extensions, steps.skip(i + 1));
                assert(item_keys(w.items) == item_keys(after.items));
                lemma_steps_extend(v, extensions, steps);
                lemma_swept_was_there(w, label, rel);
                if rel.len() > 0 {
                    lemma_swept_was_there(w, label, parent_of(rel));
                }
            }
        },
    }
}

/// Whether the step writes the content identity of the item `rel` of the
/// root `label` when it is applied on the way to the catalog `c`: it
/// records a model file at that place, and the file's item is live in `c`.
pub open spec fn writer(
    c: CatalogView,
    extensions: Seq<Seq<char>>,
    step: Step,
    label: Seq<char>,
    rel: Seq<char>,
) -> bool {
    step matches Step::Entry { label: l, base, entry } && l == label && entry_key(
        extensions,
        base,
        entry,
    ) == Some(rel) && is_leaf(extensions, entry) && live(c, extensions, l, base, entry)
}

/// The content identity of an item stays as it is through steps that are
/// no writers of it.
pub proof fn lemma_hash_stays(
    v: CatalogView,
    extensions: Seq<Seq<char>>,
    steps: Seq<Step>,
    from: int,
    to: int,
    label: Seq<char>,
    rel: Seq<char>,
)
    requires
        catalog_wf(v),
        0 <= from <= to <= steps.len(),
        has_item(state_at(v, extensions, steps, from), label, rel),
        forall|k: int|
            from <= k < steps.len() ==> !writer(
                pass_result(v, extensions, steps),
                extensions,
                #[trigger] steps[k],
                label,
                rel,
            ),
    ensures
        has_item(state_at(v, extensions, steps, to), label, rel),
        item_at(state_at(v, extensions, steps, to), label, rel).hash == item_at(
            state_at(v, extensions, steps, from),
            label,
            rel,
        ).hash,
    decreases to - from,
{
    if from < to {
        let k = to - 1;
        lemma_hash_stays(v, extensions, steps, from, k, label, rel);
        let before = state_at(v, extensions, steps, k);
        let after = state_at(v, extensions, steps, to);
        lemma_state_extends(v, extensions, steps, k);
        lemma_step_extends(before, extensions, steps[k]);
        lemma_extends_keeps_item(before, after, label, rel);
        assert(!writer(pass_result(v, extensions, steps), extensions, steps[k], label, rel));
        match steps[k] {
            Step::Root { label: l } => {},
            Step::Entry { label: l, base, entry } => {
                if entry_key(extensions, base, entry) is Some {
                    lemma_entry_effect(before, extensions, l, base, entry);
                    if ran(before, extensions, l, base, entry) {
                        lemma_ran_is_live(v, extensions, steps, k);
                        assert(!writes_hash(extensions, l, base, entry, label, rel));
                        lemma_entry_keeps_hash(before, extensions, l, base, entry, label, rel);
                    } else {
                        lemma_position(item_keys(before.items), (label, rel));
                        let at = item_position(before, label, rel);
                        assert(after.items[at].hash == before.items[at].hash);
                    }
                }
            },
        }
    }
}

/// After a pass, an item holds the content identity that its last writer
/// gave it.
pub proof fn lemma_last_writer(v: CatalogView, extensions: Seq<Seq<char>>, steps: Seq<Step>, i: int)
    requires
        catalog_wf(v),
        0 <= i < steps.len(),
        steps[i] matches Step::Entry { label, base, entry } && writer(
            pass_result(v, extensions, steps),
            extensions,
            steps[i],
            label,
            entry_key(extensions, base, entry)->0,
        ) && forall|k: int|
            i < k < steps.len() ==> !writer(
                pass_result(v, extensions, steps),
                extensions,
                #[trigger] steps[k],
                label,
                entry_key(extensions, base, entry)->0,
            ),
    ensures
        steps[i] matches Step::Entry { label, base, entry } && item_at(
            pass_result(v, extensions, steps),
            label,
            entry_key(extensions, base, entry)->0,
        ).hash == entry.identity,
{
    match steps[i] {
        Step::Root { label } => {},
        Step::Entry { label, base, entry } => {
            let rel = entry_key(extensions, base, entry)->0;
            let w = steps_applied(v, extensions, steps);
            lemma_live_ran(v, extensions, steps, i);
            lemma_ran_is_live(v, extensions, steps, i);
            lemma_state_extends(v, extensions, steps, i);
            lemma_entry_effect(
                state_at(v, extensions, steps, i),
                extensions,
                label,
                base,
                entry,
            );
            lemma_hash_stays(v, extensions, steps, i + 1, steps.len() as int, label, rel);
            assert(steps.take(steps.len() as int) == steps);
            lemma_steps_extend(v, extensions, steps);
            lemma_swept_was_there(w, label, rel);
        },
    }
}

} // verus!
