//! A pass as one sequence of steps.
//!
//! Recording the walks of all roots is marking a root, recording its
//! entries, marking the next root, and so on. Here the steps stand in one
//! sequence, so that a statement about a pass can speak of the step at an
//! index and of the catalog before it.

use crate::catalog::{catalog_wf, extends, lemma_extends_transitive, root_marked, CatalogView};
use crate::sync::{entries_recorded, entry_recorded, scans_recorded, EntryView, ScanView};
use crate::sync_proofs::{lemma_entry_marks, lemma_root_marked};
use vstd::prelude::*;

verus! {

/// One step of a pass.
pub enum Step {
    /// The root `label` is found or made, and marked.
    Root { label: Seq<char> },
    /// The entry `entry` of the root `label` at `base` is recorded.
    Entry { label: Seq<char>, base: Seq<char>, entry: EntryView },
}

/// The catalog after one step.
pub open spec fn step_applied(
    v: CatalogView,
    extensions: Seq<Seq<char>>,
    step: Step,
) -> CatalogView {
    match step {
        Step::Root { label } => root_marked(v, label),
        Step::Entry { label, base, entry } => entry_recorded(v, extensions, label, base, entry),
    }
}

/// The catalog after `steps`, one after the other.
pub open spec fn steps_applied(
    v: CatalogView,
    extensions: Seq<Seq<char>>,
    steps: Seq<Step>,
) -> CatalogView
    decreases steps.len(),
{
    if steps.len() == 0 {
        v
    } else {
        step_applied(steps_applied(v, extensions, steps.drop_last()), extensions, steps.last())
    }
}

/// The catalog before the step at index `i`.
pub open spec fn state_at(
    v: CatalogView,
    extensions: Seq<Seq<char>>,
    steps: Seq<Step>,
    i: int,
) -> CatalogView {
    steps_applied(v, extensions, steps.take(i))
}

/// The steps that record `entries` for the root `label` at `base`.
pub open spec fn entry_steps(
    label: Seq<char>,
    base: Seq<char>,
    entries: Seq<EntryView>,
) -> Seq<Step> {
    Seq::new(entries.len(), |i: int| Step::Entry { label, base, entry: entries[i] })
}

/// The steps that record one walk.
pub open spec fn scan_steps(scan: ScanView) -> Seq<Step> {
    seq![Step::Root { label: scan.label }] + entry_steps(scan.label, scan.base_path, scan.entries)
}

/// The steps that record `scans`.
pub open spec fn walk_steps(scans: Seq<ScanView>) -> Seq<Step>
    decreases scans.len(),
{
    if scans.len() == 0 {
        Seq::empty()
    } else {
        walk_steps(scans.drop_last()) + scan_steps(scans.last())
    }
}

/// Steps in two parts are applied part by part.
pub proof fn lemma_steps_append(
    v: CatalogView,
    extensions: Seq<Seq<char>>,
    first: Seq<Step>,
    second: Seq<Step>,
)
    ensures
        steps_applied(v, extensions, first + second) == steps_applied(
            steps_applied(v, extensions, first),
            extensions,
            second,
        ),
    decreases second.len(),
{
    if second.len() == 0 {
        assert(first + second == first);
    } else {
        assert((first + second).drop_last() == first + second.drop_last());
        lemma_steps_append(v, extensions, first, second.drop_last());
    }
}

/// Recording entries is applying their steps.
pub proof fn lemma_entries_are_steps(
    v: CatalogView,
    extensions: Seq<Seq<char>>,
    label: Seq<char>,
    base: Seq<char>,
    entries: Seq<EntryView>,
)
    ensures
        entries_recorded(v, extensions, label, base, entries) == steps_applied(
            v,
            extensions,
            entry_steps(label, base, entries),
        ),
    decreases entries.len(),
{
    if entries.len() > 0 {
        let steps = entry_steps(label, base, entries);
        assert(steps.drop_last() == entry_steps(label, base, entries.drop_last()));
        lemma_entries_are_steps(v, extensions, label, base, entries.drop_last());
    }
}

/// Recording walks is applying their steps.
pub proof fn lemma_scans_are_steps(v: CatalogView, extensions: Seq<Seq<char>>, scans: Seq<ScanView>)
    ensures
        scans_recorded(v, extensions, scans) == steps_applied(v, extensions, walk_steps(scans)),
    decreases scans.len(),
{
    if scans.len() > 0 {
        let head = scans.drop_last();
        let scan = scans.last();
        let m = steps_applied(v, extensions, walk_steps(head));
        let mark = seq![Step::Root { label: scan.label }];
        let rest = entry_steps(scan.label, scan.base_path, scan.entries);
        lemma_scans_are_steps(v, extensions, head);
        lemma_steps_append(v, extensions, walk_steps(head), scan_steps(scan));
        lemma_steps_append(m, extensions, mark, rest);
        assert(mark.drop_last() == Seq::<Step>::empty());
        assert(steps_applied(m, extensions, mark.drop_last()) == m);
        assert(mark.last() == Step::Root { label: scan.label });
        assert(steps_applied(m, extensions, mark) == root_marked(m, scan.label));
        lemma_entries_are_steps(
            root_marked(m, scan.label),
            extensions,
            scan.label,
            scan.base_path,
            scan.entries,
        );
    }
}

/// A step leaves a later state of the catalog.
pub proof fn lemma_step_extends(v: CatalogView, extensions: Seq<Seq<char>>, step: Step)
    requires
        catalog_wf(v),
    ensures
        catalog_wf(step_applied(v, extensions, step)),
        extends(v, step_applied(v, extensions, step)),
{
    match step {
        Step::Root { label } => {
            lemma_root_marked(v, label);
        },
        Step::Entry { label, base, entry } => {
            lemma_entry_marks(v, extensions, label, base, entry);
        },
    }
}

/// Steps leave a later state of the catalog.
pub proof fn lemma_steps_extend(v: CatalogView, extensions: Seq<Seq<char>>, steps: Seq<Step>)
    requires
        catalog_wf(v),
    ensures
        catalog_wf(steps_applied(v, extensions, steps)),
        extends(v, steps_applied(v, extensions, steps)),
    decreases steps.len(),
{
    if steps.len() > 0 {
        let m = steps_applied(v, extensions, steps.drop_last());
        lemma_steps_extend(v, extensions, steps.drop_last());
        lemma_step_extends(m, extensions, steps.last());
        lemma_extends_transitive(v, m, steps_applied(v, extensions, steps));
    }
}

/// The catalog after all steps is a later state of the catalog before any of them.
pub proof fn lemma_state_extends(
    v: CatalogView,
    extensions: Seq<Seq<char>>,
    steps: Seq<Step>,
    i: int,
)
    requires
        catalog_wf(v),
        0 <= i <= steps.len(),
    ensures
        catalog_wf(state_at(v, extensions, steps, i)),
        extends(v, state_at(v, extensions, steps, i)),
        extends(state_at(v, extensions, steps, i), steps_applied(v, extensions, steps)),
        i < steps.len() ==> state_at(v, extensions, steps, i + 1) == step_applied(
            state_at(v, extensions, steps, i),
            extensions,
            steps[i],
        ),
{
    lemma_steps_extend(v, extensions, steps.take(i));
    assert(steps.take(i) + steps.skip(i) == steps);
    lemma_steps_append(v, extensions, steps.take(i), steps.skip(i));
    lemma_steps_extend(state_at(v, extensions, steps, i), extensions, steps.skip(i));
    if i < steps.len() {
        assert(steps.take(i + 1).drop_last() == steps.take(i));
    }
}

/// Each entry of each walk has its step.
pub proof fn lemma_entry_has_step(scans: Seq<ScanView>, a: int, b: int) -> (i: int)
    requires
        0 <= a < scans.len(),
        0 <= b < scans[a].entries.len(),
    ensures
        0 <= i < walk_steps(scans).len(),
        walk_steps(scans)[i] == (Step::Entry {
            label: scans[a].label,
            base: scans[a].base_path,
            entry: scans[a].entries[b],
        }),
    decreases scans.len(),
{
    let head = scans.drop_last();
    let scan = scans.last();
    if a == scans.len() - 1 {
        walk_steps(head).len() + 1 + b
    } else {
        assert(head[a] == scans[a]);
        lemma_entry_has_step(head, a, b)
    }
}

} // verus!
