//! The reportable unit of a scan: one first-layer file or directory.

use vstd::prelude::*;

verus! {

/// One row of the report: a direct child of the scanned root with its
/// computed size and classification.
pub struct Entry {
    /// The child's name, relative to the scanned root.
    pub path: String,
    /// Whether the child is a directory; then `size` is a full subtree total.
    pub is_directory: bool,
    /// Byte count: the file's length, or the directory's accumulated total.
    pub size: u64,
    /// The classification tag shown in the `Type` column.
    pub file_type: String,
}

/// The mathematical picture of an `Entry`.
pub struct EntryV {
    pub path: Seq<char>,
    pub is_directory: bool,
    pub size: u64,
    pub file_type: Seq<char>,
}

impl View for Entry {
    type V = EntryV;

    open spec fn view(&self) -> EntryV {
        EntryV {
            path: self.path@,
            is_directory: self.is_directory,
            size: self.size,
            file_type: self.file_type@,
        }
    }
}

impl DeepView for Entry {
    type V = EntryV;

    open spec fn deep_view(&self) -> EntryV {
        self.view()
    }
}

/// An identical entry: same path, directory flag, size and tag.
pub fn clone_entry(e: &Entry) -> (r: Entry)
    ensures
        r == *e,
{
    Entry {
        path: e.path.clone(),
        is_directory: e.is_directory,
        size: e.size,
        file_type: e.file_type.clone(),
    }
}

} // verus!
