//! A synchronisation pass: what a walk over the roots has seen is brought
//! into the catalog, and what it has not seen is deleted.
//!
//! The walk itself is done by the caller. It hands over, for each root, the
//! entries it met; a pass then runs in three steps that never interleave:
//! every mark is cleared, every entry of every root is recorded, and the
//! rows that were not marked are swept.

use crate::catalog::{
    clean, find_or_create, find_or_create_root, full_sighting, insert_or_update, mark_obsolete_all,
    name_from_path, plain_sighting, recorded, recorded_id, reset_marks, root_marked, swept, Catalog,
    CatalogView,
};
use crate::config::Config;
use crate::paths::{
    extension, extension_of, get_relative_path, parent, parent_of, plain_file_name, relative_to,
};
use crate::seqs::occurs;
use crate::text::{find_text, opt_text, texts};
use vstd::prelude::*;
use vstd::string::*;

verus! {

/// One entry that a walk has met below a root.
#[derive(Debug, Clone, PartialEq, Eq)]
pub struct ScannedEntry {
    /// Absolute path of the entry.
    pub path: String,
    /// Whether the entry is a file, or a link to one, rather than a directory.
    pub is_file: bool,
    /// Content identity of the file. A file with an accepted extension that
    /// comes without one could not be read, and is passed over.
    pub identity: Option<String>,
    /// Model name from the file's metadata sidecar, where there is one.
    pub model_name: Option<String>,
}

/// What a walk has met below one root.
#[derive(Debug, Clone, PartialEq, Eq)]
pub struct RootScan {
    pub label: String,
    /// Absolute path of the root.
    pub base_path: String,
    pub entries: Vec<ScannedEntry>,
}

/// A `ScannedEntry` in contracts.
pub struct EntryView {
    pub path: Seq<char>,
    pub is_file: bool,
    pub identity: Option<Seq<char>>,
    pub model_name: Option<Seq<char>>,
}

/// A `RootScan` in contracts.
pub struct ScanView {
    pub label: Seq<char>,
    pub base_path: Seq<char>,
    pub entries: Seq<EntryView>,
}

impl View for ScannedEntry {
    type V = EntryView;

    open spec fn view(&self) -> EntryView {
        EntryView {
            path: self.path@,
            is_file: self.is_file,
            identity: opt_text(self.identity),
            model_name: opt_text(self.model_name),
        }
    }
}

/// The views of `entries`, in order.
pub open spec fn entries_view(entries: Seq<ScannedEntry>) -> Seq<EntryView> {
    Seq::new(entries.len(), |i: int| entries[i]@)
}

impl View for RootScan {
    type V = ScanView;

    open spec fn view(&self) -> ScanView {
        ScanView {
            label: self.label@,
            base_path: self.base_path@,
            entries: entries_view(self.entries@),
        }
    }
}

/// The views of `scans`, in order.
pub open spec fn scans_view(scans: Seq<RootScan>) -> Seq<ScanView> {
    Seq::new(scans.len(), |i: int| scans[i]@)
}

/// The extension of `path`, or the empty string where it has none.
pub open spec fn extension_or_empty(path: Seq<char>) -> Seq<char> {
    match extension_of(path) {
        Some(e) => e,
        None => Seq::empty(),
    }
}

/// Whether the extension of `path` is one of `extensions`.
pub open spec fn is_accepted(extensions: Seq<Seq<char>>, path: Seq<char>) -> bool {
    occurs(extensions, extension_or_empty(path))
}

/// Whether `e` is a model file: a file with an accepted extension.
pub open spec fn is_leaf(extensions: Seq<Seq<char>>, e: EntryView) -> bool {
    e.is_file && is_accepted(extensions, e.path)
}

/// The relative path under which `e` is recorded for a root at `base`, if it
/// is recorded: `e` lies under `base`, and if it is a model file, its
/// content identity is known.
pub open spec fn entry_key(extensions: Seq<Seq<char>>, base: Seq<char>, e: EntryView) -> Option<
    Seq<char>,
> {
    if is_leaf(extensions, e) && e.identity is None {
        None
    } else {
        relative_to(base, e.path)
    }
}

/// The catalog after the entry `e` of the root `label` at `base` was recorded.
///
/// An entry that has no key leaves the catalog as it is. For any other, the
/// item one level up is found or made first, unless the entry is the root's
/// own node; then the item of the entry is updated or added, with that
/// parent and, for a model file, its content identity and model name. Where
/// no id is left for the parent, nothing is recorded.
pub open spec fn entry_recorded(
    v: CatalogView,
    extensions: Seq<Seq<char>>,
    label: Seq<char>,
    base: Seq<char>,
    e: EntryView,
) -> CatalogView {
    match entry_key(extensions, base, e) {
        None => v,
        Some(rel) => {
            let leaf = is_leaf(extensions, e);
            let hash = if leaf {
                e.identity
            } else {
                None
            };
            let model_name = if leaf {
                e.model_name
            } else {
                None
            };
            let name = name_from_path(e.path);
            if rel.len() == 0 {
                recorded(v, full_sighting(name, rel, label, None, hash, model_name))
            } else {
                let up = plain_sighting(label, parent_of(rel));
                match recorded_id(v, up) {
                    None => v,
                    Some(pid) => recorded(
                        recorded(v, up),
                        full_sighting(name, rel, label, Some(pid), hash, model_name),
                    ),
                }
            }
        },
    }
}

/// The id of the item that stands for `e` once it was recorded, if it was.
pub open spec fn entry_recorded_id(
    v: CatalogView,
    extensions: Seq<Seq<char>>,
    label: Seq<char>,
    base: Seq<char>,
    e: EntryView,
) -> Option<int> {
    match entry_key(extensions, base, e) {
        None => None,
        Some(rel) => {
            let own = full_sighting(None, rel, label, None, None, None);
            if rel.len() == 0 {
                recorded_id(v, own)
            } else {
                let up = plain_sighting(label, parent_of(rel));
                if recorded_id(v, up) is None {
                    None
                } else {
                    recorded_id(recorded(v, up), own)
                }
            }
        },
    }
}

/// The catalog after `entries` were recorded, one after the other.
pub open spec fn entries_recorded(
    v: CatalogView,
    extensions: Seq<Seq<char>>,
    label: Seq<char>,
    base: Seq<char>,
    entries: Seq<EntryView>,
) -> CatalogView
    decreases entries.len(),
{
    if entries.len() == 0 {
        v
    } else {
        entry_recorded(
            entries_recorded(v, extensions, label, base, entries.drop_last()),
            extensions,
            label,
            base,
            entries.last(),
        )
    }
}

/// The catalog after the walk of one root was recorded: the root is found or
/// made and marked, then its entries are recorded.
pub open spec fn scan_recorded(
    v: CatalogView,
    extensions: Seq<Seq<char>>,
    scan: ScanView,
) -> CatalogView {
    entries_recorded(
        root_marked(v, scan.label),
        extensions,
        scan.label,
        scan.base_path,
        scan.entries,
    )
}

/// The catalog after the walks of all roots were recorded, in order.
pub open spec fn scans_recorded(
    v: CatalogView,
    extensions: Seq<Seq<char>>,
    scans: Seq<ScanView>,
) -> CatalogView
    decreases scans.len(),
{
    if scans.len() == 0 {
        v
    } else {
        scan_recorded(scans_recorded(v, extensions, scans.drop_last()), extensions, scans.last())
    }
}

/// The catalog after a whole pass over `scans`.
pub open spec fn reconciled(
    v: CatalogView,
    extensions: Seq<Seq<char>>,
    scans: Seq<ScanView>,
) -> CatalogView {
    swept(scans_recorded(reset_marks(v), extensions, scans))
}

/// Whether the extension of `path` is one of `extensions`. A path without
/// an extension is accepted where the empty string is among them.
pub fn has_accepted_extension(extensions: &Vec<String>, path: &str) -> (r: bool)
    ensures
        r == is_accepted(texts(extensions@), path@),
{
    let ext = match extension(path) {
        Some(e) => e,
        None => String::new(),
    };
    find_text(extensions, &ext).is_some()
}

/// Records one entry of a walk of the root `label` at `base_path`.
/// Returns the id of the item that stands for the entry, or `None` where
/// the entry was passed over.
pub fn record_entry(
    catalog: &mut Catalog,
    extensions: &Vec<String>,
    label: &str,
    base_path: &str,
    entry: &ScannedEntry,
) -> (r: Option<i64>)
    requires
        old(catalog).wf(),
    ensures
        final(catalog).wf(),
        final(catalog)@ == entry_recorded(
            old(catalog)@,
            texts(extensions@),
            label@,
            base_path@,
            entry@,
        ),
        match r {
            Some(id) => entry_recorded_id(
                old(catalog)@,
                texts(extensions@),
                label@,
                base_path@,
                entry@,
            ) == Some(id as int),
            None => entry_recorded_id(
                old(catalog)@,
                texts(extensions@),
                label@,
                base_path@,
                entry@,
            ) is None,
        },
{
    let leaf = entry.is_file && has_accepted_extension(extensions, entry.path.as_str());
    if leaf && entry.identity.is_none() {
        return None;
    }
    let rel = match get_relative_path(base_path, entry.path.as_str()) {
        Ok(rel) => rel,
        Err(_) => {
            return None;
        },
    };
    let name = plain_file_name(entry.path.as_str());
    let name_ref: Option<&str> = match &name {
        Some(n) => Some(n.as_str()),
        None => None,
    };
    let hash: Option<&str> = match &entry.identity {
        Some(h) => if leaf {
            Some(h.as_str())
        } else {
            None
        },
        None => None,
    };
    let model_name: Option<&str> = match &entry.model_name {
        Some(m) => if leaf {
            Some(m.as_str())
        } else {
            None
        },
        None => None,
    };
    let parent_id: Option<i64> = if rel.as_str().unicode_len() == 0 {
        None
    } else {
        let up = parent(rel.as_str());
        match find_or_create(catalog, label, up.as_str()) {
            Ok(pid) => Some(pid),
            Err(_) => {
                return None;
            },
        }
    };
    match insert_or_update(catalog, name_ref, rel.as_str(), label, parent_id, hash, model_name) {
        Ok(id) => Some(id),
        Err(_) => None,
    }
}

/// Records the walk of one root: marks the root, then records its entries
/// in order. An entry that is passed over does not stop the others.
pub fn record_scan(catalog: &mut Catalog, extensions: &Vec<String>, scan: &RootScan)
    requires
        old(catalog).wf(),
    ensures
        final(catalog).wf(),
        final(catalog)@ == scan_recorded(old(catalog)@, texts(extensions@), scan@),
{
    find_or_create_root(catalog, scan.label.as_str());
    let ghost start = catalog@;
    let ghost exts = texts(extensions@);
    let ghost entries = scan@.entries;
    let mut i: usize = 0;
    while i < scan.entries.len()
        invariant
            i <= scan.entries@.len(),
            catalog.wf(),
            exts == texts(extensions@),
            entries == scan@.entries,
            catalog@ == entries_recorded(
                start,
                exts,
                scan.label@,
                scan.base_path@,
                entries.take(i as int),
            ),
        decreases scan.entries@.len() - i,
    {
        assert(entries.take(i + 1).drop_last() == entries.take(i as int));
        assert(entries.take(i + 1).last() == scan.entries@[i as int]@);
        let _ = record_entry(
            catalog,
            extensions,
            scan.label.as_str(),
            scan.base_path.as_str(),
            &scan.entries[i],
        );
        i = i + 1;
    }
    assert(entries.take(i as int) == entries);
}

/// Runs a whole pass: clears every mark, records the walks of all roots,
/// and only then sweeps. Returns the number of items that the sweep deleted.
pub fn reload_from_disk(catalog: &mut Catalog, config: &Config, scans: &Vec<RootScan>) -> (deleted:
    u64)
    requires
        old(catalog).wf(),
    ensures
        final(catalog).wf(),
        final(catalog)@ == reconciled(old(catalog)@, texts(config.extensions@), scans_view(scans@)),
        deleted == scans_recorded(
            reset_marks(old(catalog)@),
            texts(config.extensions@),
            scans_view(scans@),
        ).items.len() - final(catalog)@.items.len(),
{
    mark_obsolete_all(catalog);
    let ghost start = catalog@;
    let ghost exts = texts(config.extensions@);
    let ghost all = scans_view(scans@);
    let mut i: usize = 0;
    while i < scans.len()
        invariant
            i <= scans@.len(),
            catalog.wf(),
            exts == texts(config.extensions@),
            all == scans_view(scans@),
            catalog@ == scans_recorded(start, exts, all.take(i as int)),
        decreases scans@.len() - i,
    {
        assert(all.take(i + 1).drop_last() == all.take(i as int));
        assert(all.take(i + 1).last() == scans@[i as int]@);
        record_scan(catalog, &config.extensions, &scans[i]);
        i = i + 1;
    }
    assert(all.take(i as int) == all);
    clean(catalog)
}

} // verus!
