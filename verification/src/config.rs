//! The settings that the catalog's rules read.

use crate::seqs::{lemma_position_unique, position};
use crate::text::same_text;
use vstd::prelude::*;

verus! {

/// A root directory as configuration names it.
#[derive(Debug, Clone, PartialEq, Eq)]
pub struct ModelPath {
    pub label: String,
    /// Absolute path of the directory.
    pub base_path: String,
}

/// Settings of a running instance.
#[derive(Debug, Clone, PartialEq, Eq)]
pub struct Config {
    /// The roots, each under its label.
    pub model_paths: Vec<ModelPath>,
    /// Extensions of the files that are catalogued as models.
    pub extensions: Vec<String>,
    /// Upper bound on the workers of a directory walk.
    pub walkdir_parallel: usize,
    /// Items on a page where a request names no count.
    pub per_page: u32,
    /// Credential for the registry.
    pub api_key: String,
    /// Whether an existing preview is fetched again.
    pub overwrite_thumbnail: bool,
}

/// The label of each configured root.
pub open spec fn path_labels(paths: Seq<ModelPath>) -> Seq<Seq<char>> {
    Seq::new(paths.len(), |i: int| paths[i].label@)
}

/// The base path that is configured for `label`: that of the first root
/// with this label.
pub open spec fn base_of(paths: Seq<ModelPath>, label: Seq<char>) -> Option<Seq<char>> {
    let i = position(path_labels(paths), label);
    if i < paths.len() {
        Some(paths[i].base_path@)
    } else {
        None
    }
}

impl Config {
    /// The base path configured for `label`.
    pub fn base_path(&self, label: &str) -> (r: Option<&String>)
        ensures
            match r {
                Some(base) => base_of(self.model_paths@, label@) == Some(base@),
                None => base_of(self.model_paths@, label@) is None,
            },
    {
        let ghost labels = path_labels(self.model_paths@);
        let label_text = label.to_owned();
        let mut i: usize = 0;
        while i < self.model_paths.len()
            invariant
                i <= self.model_paths@.len(),
                labels == path_labels(self.model_paths@),
                label_text@ == label@,
                forall|j: int| 0 <= j < i ==> labels[j] != label@,
            decreases self.model_paths@.len() - i,
        {
            if same_text(&self.model_paths[i].label, &label_text) {
                proof {
                    lemma_position_unique(labels, label@, i as int);
                }
                return Some(&self.model_paths[i].base_path);
            }
            i = i + 1;
        }
        proof {
            lemma_position_unique(labels, label@, i as int);
        }
        None
    }
}

} // verus!
