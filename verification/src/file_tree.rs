//! The plain tree of a directory: names and sizes, without any status.

use crate::path::{resolve_segments, seg_views, split_path};
use crate::sidecar::base_name;
use crate::text::string_of;
use vstd::prelude::*;

verus! {

/// One entry of a directory tree. A directory has children, a file has none.
#[derive(Debug)]
pub struct FileNode {
    pub name: String,
    pub size: u64,
    pub is_directory: bool,
    pub children: Option<Vec<FileNode>>,
}

/// The name of the entry at `path`: its last segment, or the whole path
/// where it has none.
pub open spec fn node_name(path: Seq<char>) -> Seq<char> {
    if base_name(path).len() > 0 {
        base_name(path)
    } else {
        path
    }
}

impl FileNode {
    /// The node of the entry at `path`. It is a directory exactly when
    /// `children` are given.
    pub fn new(path: &str, size: u64, children: Option<Vec<FileNode>>) -> (node: FileNode)
        ensures
            node.name@ == node_name(path@),
            node.size == size,
            node.is_directory == children is Some,
            node.children == children,
    {
        let parts = split_path(path);
        let start: Vec<Vec<char>> = Vec::new();
        assert(seg_views(start@) =~= Seq::<Seq<char>>::empty());
        let name = match resolve_segments(start, &parts) {
            Some(segs) => {
                if segs.len() > 0 && segs[segs.len() - 1].len() > 0 {
                    string_of(&segs[segs.len() - 1])
                } else {
                    path.to_owned()
                }
            },
            None => path.to_owned(),
        };
        let is_directory = children.is_some();
        FileNode { name, size, is_directory, children }
    }
}

} // verus!
