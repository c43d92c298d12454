//! The abstract storage capability the sync engine runs against.
//!
//! A filesystem is modelled as a finite map from file paths to file records
//! (content and modification time) together with a set of directory paths.
//! The [`FileSystem`] trait presents that model through a `state` spec
//! function and gives each operation a contract over it; the engine is
//! verified against those contracts alone. [`crate::mock::MockFileSystem`]
//! is an in-memory implementation proved to meet them; a real,
//! I/O-backed implementation lives outside the verified library.

use vstd::prelude::*;

use crate::paths::is_under;
use crate::paths::parent_of;

verus! {

/// A storage operation failure.
#[derive(Debug, Clone)]
pub enum FileSystemError {
    /// An underlying input/output failure, with its description.
    Io(String),
    /// A path could not be interpreted, with the reason.
    PathError(String),
    /// The named entry does not exist.
    NotFound(String),
}

/// The rendering of a [`FileSystemError`] as text.
pub open spec fn spec_error_message(e: FileSystemError) -> Seq<char> {
    match e {
        FileSystemError::Io(m) => "IO error: "@ + m@,
        FileSystemError::PathError(m) => "Path error: "@ + m@,
        FileSystemError::NotFound(p) => "Not found: "@ + p@,
    }
}

impl FileSystemError {
    /// Renders the error as text, naming its category and detail.
    pub fn message(&self) -> (r: String)
        ensures
            r@ == spec_error_message(*self),
    {
        match self {
            FileSystemError::Io(m) => {
                let mut s = "IO error: ".to_owned();
                s.append(m.as_str());
                s
            },
            FileSystemError::PathError(m) => {
                let mut s = "Path error: ".to_owned();
                s.append(m.as_str());
                s
            },
            FileSystemError::NotFound(p) => {
                let mut s = "Not found: ".to_owned();
                s.append(p.as_str());
                s
            },
        }
    }
}

/// What a filesystem records about one entry: its path, last-modified
/// timestamp, and whether it is a directory.
#[derive(Debug, Clone)]
pub struct EntryMetadata {
    pub path: String,
    pub modified: u64,
    pub is_directory: bool,
}

/// The model of one stored file.
pub struct FileModel {
    pub content: Seq<u8>,
    pub modified: u64,
}

/// The model of a filesystem: files keyed by path, and a set of directories.
pub struct FsModel {
    pub files: Map<Seq<char>, FileModel>,
    pub dirs: Set<Seq<char>>,
}

impl FsModel {
    /// True when some entry — file or directory — exists at `p`.
    pub open spec fn has_entry(self, p: Seq<char>) -> bool {
        self.files.dom().contains(p) || self.dirs.contains(p)
    }

    /// The model with the file at `p` set to the given content and time.
    pub open spec fn with_file(self, p: Seq<char>, content: Seq<u8>, modified: u64) -> FsModel {
        FsModel {
            files: self.files.insert(p, FileModel { content, modified }),
            dirs: self.dirs,
        }
    }

    /// The store is finite.
    pub open spec fn wf(self) -> bool {
        self.files.dom().finite() && self.dirs.finite()
    }
}

/// One listed entry is sound for a listing of `dir` in model `m`: it lies
/// directly under `dir` and reports its kind and time faithfully.
pub open spec fn entry_ok(m: FsModel, dir: Seq<char>, e: EntryMetadata) -> bool {
    &&& parent_of(e.path@) == dir
    &&& if e.is_directory {
        m.dirs.contains(e.path@)
    } else {
        m.files.dom().contains(e.path@) && e.modified == m.files[e.path@].modified
    }
}

/// A listing of `dir` is sound and complete for model `m`: every returned
/// entry is a faithful child of `dir`, no directory and no file is returned
/// twice, and every child of `dir` in the model is returned.
pub open spec fn listing_ok(m: FsModel, dir: Seq<char>, es: Seq<EntryMetadata>) -> bool {
    &&& forall|i: int| 0 <= i < es.len() ==> entry_ok(m, dir, #[trigger] es[i])
    &&& forall|i: int, j: int|
        0 <= i < j < es.len() && (#[trigger] es[i]).is_directory && (#[trigger] es[j]).is_directory
            ==> es[i].path@ != es[j].path@
    &&& forall|i: int, j: int|
        0 <= i < j < es.len() && !(#[trigger] es[i]).is_directory && !(
        #[trigger] es[j]).is_directory ==> es[i].path@ != es[j].path@
    &&& forall|p: Seq<char>|
        #[trigger] m.files.dom().contains(p) && parent_of(p) == dir ==> exists|i: int|
            0 <= i < es.len() && (#[trigger] es[i]).path@ == p && !es[i].is_directory
    &&& forall|p: Seq<char>|
        #[trigger] m.dirs.contains(p) && parent_of(p) == dir && p != dir ==> exists|i: int|
            0 <= i < es.len() && (#[trigger] es[i]).path@ == p && es[i].is_directory
}

/// A metadata answer for `p` is faithful to model `m`. A path that is both a
/// file and a directory is reported as the file.
pub open spec fn metadata_ok(m: FsModel, p: Seq<char>, e: EntryMetadata) -> bool {
    &&& e.path@ == p
    &&& if e.is_directory {
        m.dirs.contains(p) && !m.files.dom().contains(p)
    } else {
        m.files.dom().contains(p) && e.modified == m.files[p].modified
    }
}

/// The narrow storage capability the sync engine consumes: list, stat, copy,
/// create-directory, existence, set-modified-time, and a clock.
///
/// Every contract speaks about the abstract store `state()`. Operations may
/// fail (the engine's error policy decides what a failure aborts); whatever
/// an operation returns, it must have changed the store only as stated.
pub trait FileSystem: Sized {
    /// The abstract store this filesystem presents.
    spec fn state(&self) -> FsModel;

    /// Lists the entries directly inside the directory `path`.
    fn list_directory(&self, path: &str) -> (r: Result<Vec<EntryMetadata>, FileSystemError>)
        ensures
            r matches Ok(entries) ==> listing_ok(self.state(), path@, entries@),
    ;

    /// Reports the metadata of the entry at `path`.
    fn get_metadata(&self, path: &str) -> (r: Result<EntryMetadata, FileSystemError>)
        ensures
            r matches Ok(e) ==> metadata_ok(self.state(), path@, e),
    ;

    /// Copies the file at `from` to `to`, overwriting any file there. The
    /// copy keeps the content; its recorded time is implementation-chosen.
    fn copy_file(&mut self, from: &str, to: &str) -> (r: Result<(), FileSystemError>)
        ensures
            match r {
                Ok(_) => old(self).state().files.dom().contains(from@) && exists|t: u64|
                    final(self).state() == old(self).state().with_file(
                        to@,
                        old(self).state().files[from@].content,
                        t,
                    ),
                Err(_) => final(self).state() == old(self).state(),
            },
    ;

    /// Creates the directory `path`, and any missing intermediate segments;
    /// idempotent. Files are untouched; every new directory is `path` itself
    /// or one of its ancestors.
    fn create_directory(&mut self, path: &str) -> (r: Result<(), FileSystemError>)
        ensures
            match r {
                Ok(_) => {
                    &&& final(self).state().files == old(self).state().files
                    &&& final(self).state().dirs.contains(path@)
                    &&& old(self).state().dirs.subset_of(final(self).state().dirs)
                    &&& forall|d: Seq<char>|
                        final(self).state().dirs.contains(d) && !old(
                            self,
                        ).state().dirs.contains(d) ==> d == path@ || is_under(path@, d)
                    &&& old(self).state().dirs.finite() ==> final(self).state().dirs.finite()
                },
                Err(_) => final(self).state() == old(self).state(),
            },
    ;

    /// Reports whether any entry exists at `path`.
    fn path_exists(&self, path: &str) -> (r: Result<bool, FileSystemError>)
        ensures
            r matches Ok(b) ==> b == self.state().has_entry(path@),
    ;

    /// Sets the modified time of the file at `path`.
    fn set_modified_time(&mut self, path: &str, time: u64) -> (r: Result<(), FileSystemError>)
        ensures
            match r {
                Ok(_) => old(self).state().files.dom().contains(path@) && final(self).state()
                    == old(self).state().with_file(
                    path@,
                    old(self).state().files[path@].content,
                    time,
                ),
                Err(_) => final(self).state() == old(self).state(),
            },
    ;

    /// The current time. Nothing is promised of the value.
    fn current_time(&self) -> u64;
}

} // verus!
