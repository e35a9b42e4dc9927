//! The file system as the library sees it: an interface that the embedding
//! program implements.
use vstd::prelude::*;

verus! {

/// What a file system reports of a file: modification time (nanoseconds
/// since the Unix epoch) and length.
#[derive(Debug, Clone, Copy, PartialEq, Eq, Structural)]
pub struct VfsMetadata {
    pub mtime: u128,
    pub len: u64,
}

/// File system operations.  What a read, a listing or a metadata query
/// returns is only said to be one of the answers the file system may give:
/// the files may change at any time.
pub trait FileSystem {
    /// `content` is an answer the file system may give when the file at
    /// `path` is read as text (the file may change between reads).
    closed spec fn reads(&self, path: Seq<char>, content: Option<Seq<char>>) -> bool {
        true
    }

    /// `meta` is an answer the file system may give when asked what it
    /// reports of the file at `path`.
    closed spec fn reports(&self, path: Seq<char>, meta: Option<VfsMetadata>) -> bool {
        true
    }

    /// `files` is an answer the file system may give when asked for the
    /// files with extension `extension` under `root`.
    closed spec fn lists(&self, root: Seq<char>, extension: Seq<char>, files: Seq<Seq<char>>) -> bool {
        true
    }

    /// The whole file at `path` as text; `None` when it cannot be read.
    fn read_to_string(&self, path: &str) -> (r: Option<String>)
        ensures
            self.reads(path@, match r {
                Some(c) => Some(c@),
                None => None,
            }),
    ;

    /// The whole file at `path` as bytes; `None` when it cannot be read.
    fn read_all(&self, path: &str) -> Option<Vec<u8>>;

    /// Writes exactly `bytes` to the file at `path`, creating its directory
    /// when needed; the error is described in words.
    fn write_all(&self, path: &str, bytes: &[u8]) -> Result<(), String>;

    /// The paths of the files with extension `extension` anywhere under
    /// `root`.
    fn list_files(&self, root: &str, extension: &str) -> (r: Vec<String>)
        ensures
            self.lists(root@, extension@, r@.map_values(|f: String| f@)),
    ;

    /// What the file system reports of the file at `path`; `None` when it
    /// cannot tell.
    fn metadata(&self, path: &str) -> (r: Option<VfsMetadata>)
        ensures
            self.reports(path@, r),
    ;
}

} // verus!
