//! The set of paths that the user has selected.

use crate::path_map::{string_views, strictly_sorted, PathSet};
use vstd::prelude::*;

verus! {

/// The selected paths: a set, so a path is in it once however often it was
/// added. The owner shares it between callers behind a lock of its own.
pub struct SelectedFiles {
    paths: PathSet,
}

impl View for SelectedFiles {
    type V = Set<Seq<char>>;

    closed spec fn view(&self) -> Set<Seq<char>> {
        self.paths@
    }
}

impl SelectedFiles {
    /// The empty selection.
    pub fn new() -> (s: SelectedFiles)
        ensures
            s@ == Set::<Seq<char>>::empty(),
    {
        SelectedFiles { paths: PathSet::new() }
    }

    /// Selects `path`. Selecting a path that is selected already changes
    /// nothing.
    pub fn add_path(&mut self, path: String)
        ensures
            final(self)@ == old(self)@.insert(path@),
    {
        self.paths.insert(path);
    }

    /// Takes `path` out of the selection, if it is in it.
    pub fn remove_path(&mut self, path: &str)
        ensures
            final(self)@ == old(self)@.remove(path@),
    {
        self.paths.remove(path);
    }

    /// Empties the selection.
    pub fn clear(&mut self)
        ensures
            final(self)@ == Set::<Seq<char>>::empty(),
    {
        self.paths.clear();
    }

    /// Whether `path` is selected.
    pub fn contains(&self, path: &str) -> (r: bool)
        ensures
            r == self@.contains(path@),
    {
        self.paths.contains(path)
    }

    /// The number of selected paths.
    pub fn len(&self) -> (n: usize)
        ensures
            self@.finite(),
            n == self@.len(),
    {
        self.paths.len()
    }

    /// Every selected path, each once, in ascending order.
    pub fn list(&self) -> (out: Vec<String>)
        ensures
            string_views(out@).to_set() == self@,
            string_views(out@).no_duplicates(),
            strictly_sorted(string_views(out@)),
    {
        self.paths.to_vec()
    }
}

impl Default for SelectedFiles {
    fn default() -> (s: SelectedFiles)
        ensures
            s@ == Set::<Seq<char>>::empty(),
    {
        SelectedFiles::new()
    }
}

} // verus!
