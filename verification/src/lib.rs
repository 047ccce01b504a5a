use vstd::prelude::*;

pub mod binary;
pub mod bytes;
pub mod object_id;
pub mod object_type;
pub mod sha1;
pub mod text;
pub mod myers;
pub mod diff3;
pub mod time;
pub mod signature;
pub mod fields;
pub mod commit;
pub mod blob;
pub mod tree;
pub mod tag;
pub mod object_db;
pub mod index;

verus! {

pub const GIT_MODE_BLOB: u32 = 0o100644;

pub const GIT_MODE_BLOB_EXECUTABLE: u32 = 0o100755;

pub const GIT_MODE_TREE: u32 = 0o040000;

pub const GIT_MODE_LINK: u32 = 0o120000;

pub const GIT_MODE_COMMIT: u32 = 0o160000;

/// The kinds of entry a tree holds.
#[derive(Debug, Clone, Copy, PartialEq, Eq, Structural)]
pub enum FileMode {
    Blob,
    Executable,
    Tree,
    Link,
    Commit,
}

/// The mode number of each kind.
pub open spec fn mode_number(m: FileMode) -> u32 {
    match m {
        FileMode::Blob => GIT_MODE_BLOB,
        FileMode::Executable => GIT_MODE_BLOB_EXECUTABLE,
        FileMode::Tree => GIT_MODE_TREE,
        FileMode::Link => GIT_MODE_LINK,
        FileMode::Commit => GIT_MODE_COMMIT,
    }
}

impl FileMode {
    /// The kind of a regular file or a directory.
    pub fn from_mode(mode: u32) -> (r: FileMode)
        requires
            mode == GIT_MODE_BLOB || mode == GIT_MODE_TREE,
        ensures
            mode_number(r) == mode,
    {
        if mode == GIT_MODE_BLOB {
            FileMode::Blob
        } else {
            FileMode::Tree
        }
    }

    /// The mode number.
    pub fn to_mode(self) -> (r: u32)
        ensures
            r == mode_number(self),
    {
        match self {
            FileMode::Blob => GIT_MODE_BLOB,
            FileMode::Executable => GIT_MODE_BLOB_EXECUTABLE,
            FileMode::Tree => GIT_MODE_TREE,
            FileMode::Link => GIT_MODE_LINK,
            FileMode::Commit => GIT_MODE_COMMIT,
        }
    }

    pub fn is_tree(&self) -> (r: bool)
        ensures
            r == (*self == FileMode::Tree),
    {
        match self {
            FileMode::Tree => true,
            _ => false,
        }
    }
}

impl From<FileMode> for u32 {
    fn from(mode: FileMode) -> (r: u32) {
        mode.to_mode()
    }
}

impl vstd::std_specs::convert::FromSpecImpl<FileMode> for u32 {
    open spec fn obeys_from_spec() -> bool {
        true
    }

    open spec fn from_spec(v: FileMode) -> u32 {
        mode_number(v)
    }
}

/// Reading the number of a regular file or a directory gives its kind back.
pub proof fn lemma_mode_roundtrip(m: FileMode)
    requires
        m == FileMode::Blob || m == FileMode::Tree,
    ensures
        mode_number(m) == GIT_MODE_BLOB || mode_number(m) == GIT_MODE_TREE,
        forall|r: FileMode| mode_number(r) == mode_number(m) ==> r == m,
{
}

} // verus!
pub mod refs;
pub mod diff;
pub mod merge_base;
pub mod merge;
