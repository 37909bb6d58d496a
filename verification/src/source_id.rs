//! The handle type that a registry gives out for each registered source.

use crate::filesystem::{FileSystem, SourceView};
use vstd::prelude::*;

verus! {

/// An identifier for a [`crate::Source`]. The integer 0 is the null
/// identifier, which refers to no source; real handles start at 1 and are
/// allocated densely by the registry.
#[derive(PartialEq, Eq, Clone, Copy, Hash, Debug, Structural)]
pub struct SourceId(pub u16);

impl SourceId {
    /// Registers `content` under `path` in `filesystem` and returns the
    /// handle that refers to it.
    pub fn new<FS: FileSystem>(filesystem: &mut FS, path: String, content: String) -> (r: SourceId)
        requires
            old(filesystem).wf(),
            old(filesystem).sources().len() + 1 <= u16::MAX,
        ensures
            final(filesystem).wf(),
            final(filesystem).sources() =~= old(filesystem).sources().push(
                SourceView { path: path@, content: content@ },
            ),
            r.0 as int == old(filesystem).sources().len() + 1,
    {
        filesystem.new_source_id(path, content)
    }
}

} // verus!
