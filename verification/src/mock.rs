//! An in-memory filesystem, verified against the [`FileSystem`] contracts.
//!
//! The store is a vector of path-keyed file records plus a vector of
//! directory paths, both free of duplicates; its abstract state is the map
//! and set they spell out. Tests drive the sync engine through this
//! implementation, and the engine's generic proofs apply to it unchanged.

use vstd::prelude::*;

use crate::filesystem::entry_ok;
use crate::filesystem::EntryMetadata;
use crate::filesystem::FileModel;
use crate::filesystem::FileSystem;
use crate::filesystem::FileSystemError;
use crate::filesystem::FsModel;
use crate::paths::parent_dir;
use crate::paths::parent_of;
use crate::paths::str_eq;

verus! {

/// One stored file: its bytes and its last-modified time.
#[derive(Debug)]
struct MockFile {
    content: Vec<u8>,
    modified: u64,
}

/// The spec-level record of one stored file.
spec fn file_model_of(f: MockFile) -> FileModel {
    FileModel { content: f.content@, modified: f.modified }
}

/// No two stored files share a path.
spec fn distinct_keys(s: Seq<(String, MockFile)>) -> bool {
    forall|i: int, j: int|
        0 <= i < j < s.len() ==> (#[trigger] s[i]).0@ != (#[trigger] s[j]).0@
}

/// No directory path is stored twice.
spec fn distinct_strs(s: Seq<String>) -> bool {
    forall|i: int, j: int| 0 <= i < j < s.len() ==> (#[trigger] s[i])@ != (#[trigger] s[j])@
}

/// The file map spelled out by a stored sequence; later entries win.
spec fn files_model(s: Seq<(String, MockFile)>) -> Map<Seq<char>, FileModel>
    decreases s.len(),
{
    if s.len() == 0 {
        Map::empty()
    } else {
        files_model(s.drop_last()).insert(s.last().0@, file_model_of(s.last().1))
    }
}

/// The directory set spelled out by a stored sequence.
spec fn dirs_model(s: Seq<String>) -> Set<Seq<char>>
    decreases s.len(),
{
    if s.len() == 0 {
        Set::empty()
    } else {
        dirs_model(s.drop_last()).insert(s.last()@)
    }
}

/// The file map is finite and holds exactly the stored keys.
proof fn lemma_files_model(s: Seq<(String, MockFile)>)
    ensures
        files_model(s).dom().finite(),
        forall|k: Seq<char>| #[trigger]
            files_model(s).dom().contains(k) <==> exists|i: int|
                0 <= i < s.len() && (#[trigger] s[i]).0@ == k,
    decreases s.len(),
{
    if s.len() > 0 {
        lemma_files_model(s.drop_last());
        assert forall|k: Seq<char>| #[trigger]
            files_model(s).dom().contains(k) implies exists|i: int|
            0 <= i < s.len() && (#[trigger] s[i]).0@ == k by {
            if k == s.last().0@ {
                assert(s[s.len() - 1].0@ == k);
            } else {
                let i = choose|i: int| 0 <= i < s.drop_last().len() && (#[trigger] s.drop_last()[i]).0@ == k;
                assert(s[i].0@ == k);
            }
        }
        assert forall|k: Seq<char>|
            (exists|i: int| 0 <= i < s.len() && (#[trigger] s[i]).0@ == k) implies #[trigger]
            files_model(s).dom().contains(k) by {
            let i = choose|i: int| 0 <= i < s.len() && (#[trigger] s[i]).0@ == k;
            if i < s.len() - 1 {
                assert(s.drop_last()[i].0@ == k);
            }
        }
    }
}

/// With distinct keys, each stored entry is in the map with its own record.
proof fn lemma_files_model_value(s: Seq<(String, MockFile)>, i: int)
    requires
        distinct_keys(s),
        0 <= i < s.len(),
    ensures
        files_model(s).dom().contains(s[i].0@),
        files_model(s)[s[i].0@] == file_model_of(s[i].1),
    decreases s.len(),
{
    if i == s.len() - 1 {
    } else {
        assert(s.drop_last()[i] == s[i]);
        lemma_files_model_value(s.drop_last(), i);
        assert(s[i].0@ != s.last().0@);
    }
}

/// Replacing the entry at `i` by one with the same key updates the map at
/// that key alone.
proof fn lemma_files_model_update(s: Seq<(String, MockFile)>, i: int, v: (String, MockFile))
    requires
        distinct_keys(s),
        0 <= i < s.len(),
        v.0@ == s[i].0@,
    ensures
        distinct_keys(s.update(i, v)),
        files_model(s.update(i, v)) == files_model(s).insert(v.0@, file_model_of(v.1)),
{
    let s2 = s.update(i, v);
    assert forall|a: int, b: int| 0 <= a < b < s2.len() implies (#[trigger] s2[a]).0@ != (
    #[trigger] s2[b]).0@ by {
        assert(s2[a].0@ == s[a].0@);
        assert(s2[b].0@ == s[b].0@);
    }
    lemma_files_model(s);
    lemma_files_model(s2);
    let m1 = files_model(s2);
    let m2 = files_model(s).insert(v.0@, file_model_of(v.1));
    assert forall|k: Seq<char>| m1.dom().contains(k) implies m2.dom().contains(k) && m1[k]
        == m2[k] by {
        let a = choose|a: int| 0 <= a < s2.len() && (#[trigger] s2[a]).0@ == k;
        lemma_files_model_value(s2, a);
        if k == v.0@ {
            assert(a == i);
        } else {
            assert(s[a].0@ == k);
            lemma_files_model_value(s, a);
        }
    }
    assert forall|k: Seq<char>| m2.dom().contains(k) implies m1.dom().contains(k) by {
        if k == v.0@ {
            assert(s2[i].0@ == k);
        } else {
            let a = choose|a: int| 0 <= a < s.len() && (#[trigger] s[a]).0@ == k;
            assert(s2[a].0@ == k);
        }
    }
    assert(m1 =~= m2);
}

/// Appending an entry inserts its record into the map.
proof fn lemma_files_model_push(s: Seq<(String, MockFile)>, v: (String, MockFile))
    ensures
        files_model(s.push(v)) == files_model(s).insert(v.0@, file_model_of(v.1)),
{
    assert(s.push(v).drop_last() =~= s);
    assert(s.push(v).last() == v);
}

/// The directory set is finite and holds exactly the stored paths.
proof fn lemma_dirs_model(s: Seq<String>)
    ensures
        dirs_model(s).finite(),
        forall|d: Seq<char>| #[trigger]
            dirs_model(s).contains(d) <==> exists|i: int|
                0 <= i < s.len() && (#[trigger] s[i])@ == d,
    decreases s.len(),
{
    if s.len() > 0 {
        lemma_dirs_model(s.drop_last());
        assert forall|d: Seq<char>| #[trigger]
            dirs_model(s).contains(d) implies exists|i: int|
            0 <= i < s.len() && (#[trigger] s[i])@ == d by {
            if d == s.last()@ {
                assert(s[s.len() - 1]@ == d);
            } else {
                let i = choose|i: int| 0 <= i < s.drop_last().len() && (#[trigger] s.drop_last()[i])@ == d;
                assert(s[i]@ == d);
            }
        }
        assert forall|d: Seq<char>|
            (exists|i: int| 0 <= i < s.len() && (#[trigger] s[i])@ == d) implies #[trigger]
            dirs_model(s).contains(d) by {
            let i = choose|i: int| 0 <= i < s.len() && (#[trigger] s[i])@ == d;
            if i < s.len() - 1 {
                assert(s.drop_last()[i]@ == d);
            }
        }
    }
}

/// Some entry among the first `n` stored files has path `p`.
spec fn stored_file_before(s: Seq<(String, MockFile)>, n: int, p: Seq<char>) -> bool {
    exists|j: int| 0 <= j < n && (#[trigger] s[j]).0@ == p
}

/// A path stored among the first `n` files is stored among the first `m`,
/// for `n <= m`.
proof fn lemma_stored_file_before_mono(s: Seq<(String, MockFile)>, n: int, m: int, p: Seq<char>)
    requires
        stored_file_before(s, n, p),
        n <= m,
    ensures
        stored_file_before(s, m, p),
{
    let j = choose|j: int| 0 <= j < n && (#[trigger] s[j]).0@ == p;
    assert(0 <= j < m && s[j].0@ == p);
}

/// Appending a directory inserts its path into the set.
proof fn lemma_dirs_model_push(s: Seq<String>, v: String)
    ensures
        dirs_model(s.push(v)) == dirs_model(s).insert(v@),
{
    assert(s.push(v).drop_last() =~= s);
    assert(s.push(v).last() == v);
}

/// An in-memory filesystem holding files and directories as plain vectors.
#[derive(Debug)]
pub struct MockFileSystem {
    files: Vec<(String, MockFile)>,
    directories: Vec<String>,
    clock: u64,
}

impl MockFileSystem {
    /// Stored paths never repeat.
    #[verifier::type_invariant]
    spec fn type_inv(self) -> bool {
        distinct_keys(self.files@) && distinct_strs(self.directories@)
    }

    /// Creates an empty store.
    pub fn new() -> (fs: MockFileSystem)
        ensures
            fs.state() == (FsModel {
                files: Map::<Seq<char>, FileModel>::empty(),
                dirs: Set::<Seq<char>>::empty(),
            }),
    {
        MockFileSystem { files: Vec::new(), directories: Vec::new(), clock: 1_700_000_000 }
    }

    /// Index of the stored file at `path`, if any.
    fn find_file_index(&self, path: &str) -> (r: Option<usize>)
        ensures
            match r {
                Some(i) => i < self.files@.len() && self.files@[i as int].0@ == path@,
                None => forall|j: int|
                    0 <= j < self.files@.len() ==> (#[trigger] self.files@[j]).0@ != path@,
            },
    {
        let mut i: usize = 0;
        while i < self.files.len()
            invariant
                0 <= i <= self.files@.len(),
                forall|j: int| 0 <= j < i ==> (#[trigger] self.files@[j]).0@ != path@,
            decreases self.files@.len() - i,
        {
            if str_eq(self.files[i].0.as_str(), path) {
                return Some(i);
            }
            i = i + 1;
        }
        None
    }

    /// Whether the directory `path` is stored.
    fn contains_dir(&self, path: &str) -> (r: bool)
        ensures
            r == self.state().dirs.contains(path@),
    {
        proof {
            lemma_dirs_model(self.directories@);
        }
        let mut i: usize = 0;
        while i < self.directories.len()
            invariant
                0 <= i <= self.directories@.len(),
                forall|j: int| 0 <= j < i ==> (#[trigger] self.directories@[j])@ != path@,
            decreases self.directories@.len() - i,
        {
            if str_eq(self.directories[i].as_str(), path) {
                proof {
                    lemma_dirs_model(self.directories@);
                    assert((#[trigger] self.directories@[i as int])@ == path@);
                }
                return true;
            }
            i = i + 1;
        }
        false
    }

    /// Stores `file` at `path`, replacing any file already there.
    fn insert_file(&mut self, path: &str, file: MockFile)
        ensures
            final(self).state() == old(self).state().with_file(path@, file.content@, file.modified),
            final(self).clock == old(self).clock,
    {
        proof {
            use_type_invariant(&*self);
        }
        let ghost old_files = self.files@;
        let idx = self.find_file_index(path);
        let mut files: Vec<(String, MockFile)> = Vec::new();
        core::mem::swap(&mut files, &mut self.files);
        match idx {
            Some(i) => {
                let v = (path.to_owned(), file);
                proof {
                    lemma_files_model_update(old_files, i as int, v);
                }
                files[i] = v;
            },
            None => {
                let v = (path.to_owned(), file);
                proof {
                    lemma_files_model_push(old_files, v);
                    assert forall|a: int, b: int|
                        0 <= a < b < old_files.push(v).len() implies (#[trigger] old_files.push(
                            v,
                        )[a]).0@ != (#[trigger] old_files.push(v)[b]).0@ by {
                        if b < old_files.len() {
                            assert(old_files[a].0@ != old_files[b].0@);
                        } else {
                            assert(old_files[a].0@ != path@);
                        }
                    }
                }
                files.push(v);
            },
        }
        core::mem::swap(&mut files, &mut self.files);
    }

    /// Adds (or replaces) the file at `path` with the given content and time.
    pub fn add_file(&mut self, path: &str, content: Vec<u8>, modified: u64)
        ensures
            final(self).state() == old(self).state().with_file(path@, content@, modified),
    {
        let ghost c = content@;
        self.insert_file(path, MockFile { content, modified });
    }

    /// Adds the directory `path`; already-present directories are kept once.
    pub fn add_directory(&mut self, path: &str)
        ensures
            final(self).state() == (FsModel {
                files: old(self).state().files,
                dirs: old(self).state().dirs.insert(path@),
            }),
    {
        proof {
            use_type_invariant(&*self);
            lemma_dirs_model(self.directories@);
        }
        if !self.contains_dir(path) {
            let ghost old_dirs = self.directories@;
            let owned = path.to_owned();
            proof {
                lemma_dirs_model_push(old_dirs, owned);
                assert forall|a: int, b: int|
                    0 <= a < b < old_dirs.push(owned).len() implies (#[trigger] old_dirs.push(
                        owned,
                    )[a])@ != (#[trigger] old_dirs.push(owned)[b])@ by {
                    if b < old_dirs.len() {
                        assert(old_dirs[a]@ != old_dirs[b]@);
                    } else {
                        assert(old_dirs[a]@ != path@);
                    }
                }
            }
            let mut directories: Vec<String> = Vec::new();
            core::mem::swap(&mut directories, &mut self.directories);
            directories.push(owned);
            core::mem::swap(&mut directories, &mut self.directories);
        } else {
            proof {
                assert(old(self).state().dirs.insert(path@) =~= old(self).state().dirs);
            }
        }
    }

    /// The content of the file at `path`, if one is stored.
    pub fn get_file_content(&self, path: &str) -> (r: Option<Vec<u8>>)
        ensures
            match r {
                Some(c) => self.state().files.dom().contains(path@) && c@
                    == self.state().files[path@].content,
                None => !self.state().files.dom().contains(path@),
            },
    {
        proof {
            use_type_invariant(&*self);
            lemma_files_model(self.files@);
        }
        match self.find_file_index(path) {
            Some(i) => {
                proof {
                    lemma_files_model_value(self.files@, i as int);
                }
                let c = self.files[i].1.content.clone();
                proof {
                    assert(c@ =~= self.files@[i as int].1.content@);
                }
                Some(c)
            },
            None => None,
        }
    }

    /// The paths of every stored file.
    pub fn list_all_files(&self) -> (r: Vec<String>)
        ensures
            forall|i: int|
                0 <= i < r@.len() ==> self.state().files.dom().contains((#[trigger] r@[i])@),
            forall|k: Seq<char>| #[trigger]
                self.state().files.dom().contains(k) ==> exists|i: int|
                    0 <= i < r@.len() && (#[trigger] r@[i])@ == k,
    {
        proof {
            use_type_invariant(&*self);
            lemma_files_model(self.files@);
        }
        let mut r: Vec<String> = Vec::new();
        let mut i: usize = 0;
        while i < self.files.len()
            invariant
                0 <= i <= self.files@.len(),
                r@.len() == i,
                forall|j: int| 0 <= j < i ==> (#[trigger] r@[j])@ == self.files@[j].0@,
            decreases self.files@.len() - i,
        {
            r.push(self.files[i].0.clone());
            i = i + 1;
        }
        proof {
            assert forall|k: Seq<char>| #[trigger]
                self.state().files.dom().contains(k) implies exists|i: int|
                0 <= i < r@.len() && (#[trigger] r@[i])@ == k by {
                let j = choose|j: int| 0 <= j < self.files@.len() && (#[trigger] self.files@[j]).0@ == k;
                assert(r@[j]@ == k);
            }
            assert forall|i: int|
                0 <= i < r@.len() implies self.state().files.dom().contains(
                (#[trigger] r@[i])@) by {
                assert(self.files@[i].0@ == r@[i]@);
            }
        }
        r
    }
}

impl FileSystem for MockFileSystem {
    closed spec fn state(&self) -> FsModel {
        FsModel { files: files_model(self.files@), dirs: dirs_model(self.directories@) }
    }

    fn list_directory(&self, path: &str) -> (r: Result<Vec<EntryMetadata>, FileSystemError>)
        ensures
            r is Ok <==> (path@.len() == 0 || self.state().dirs.contains(path@)),
            r matches Err(e) ==> (e matches FileSystemError::NotFound(p) && p@ == path@),
    {
        proof {
            use_type_invariant(&*self);
            lemma_files_model(self.files@);
            lemma_dirs_model(self.directories@);
        }
        if !path.is_empty() && !self.contains_dir(path) {
            return Err(FileSystemError::NotFound(path.to_owned()));
        }
        let ghost m = self.state();
        let mut results: Vec<EntryMetadata> = Vec::new();
        let mut i: usize = 0;
        while i < self.files.len()
            invariant
                0 <= i <= self.files@.len(),
                m == self.state(),
                distinct_keys(self.files@),
                forall|k: int|
                    0 <= k < results@.len() ==> entry_ok(m, path@, #[trigger] results@[k])
                        && !results@[k].is_directory,
                forall|k: int|
                    0 <= k < results@.len() ==> stored_file_before(
                        self.files@,
                        i as int,
                        (#[trigger] results@[k]).path@,
                    ),
                forall|k1: int, k2: int|
                    0 <= k1 < k2 < results@.len() ==> (#[trigger] results@[k1]).path@ != (
                    #[trigger] results@[k2]).path@,
                forall|j: int|
                    0 <= j < i && parent_of((#[trigger] self.files@[j]).0@) == path@
                        ==> exists|k: int|
                        0 <= k < results@.len() && (#[trigger] results@[k]).path@
                            == self.files@[j].0@ && !results@[k].is_directory,
            decreases self.files@.len() - i,
        {
            let key_parent = parent_dir(self.files[i].0.as_str());
            if str_eq(key_parent.as_str(), path) {
                proof {
                    lemma_files_model_value(self.files@, i as int);
                }
                let e = EntryMetadata {
                    path: self.files[i].0.clone(),
                    modified: self.files[i].1.modified,
                    is_directory: false,
                };
                let ghost pre = results@;
                results.push(e);
                proof {
                    let k = results@.len() - 1;
                    assert(forall|k2: int| 0 <= k2 < pre.len() ==> results@[k2] == pre[k2]);
                    assert(results@[k].path@ == (#[trigger] self.files@[i as int]).0@);
                    assert(entry_ok(m, path@, results@[k]));
                    assert(stored_file_before(self.files@, i as int + 1, results@[k].path@));
                    assert forall|k2: int|
                        0 <= k2 < k implies (#[trigger] results@[k2]).path@ != results@[k].path@ by {
                        assert(stored_file_before(self.files@, i as int, results@[k2].path@));
                        let j = choose|j: int|
                            0 <= j < i && (#[trigger] self.files@[j]).0@ == results@[k2].path@;
                        assert(self.files@[j].0@ != self.files@[i as int].0@);
                    }
                }
            }
            proof {
                assert forall|k: int|
                    0 <= k < results@.len() implies stored_file_before(
                    self.files@,
                    i as int + 1,
                    (#[trigger] results@[k]).path@,
                ) by {
                    if stored_file_before(self.files@, i as int, results@[k].path@) {
                        lemma_stored_file_before_mono(
                            self.files@,
                            i as int,
                            i as int + 1,
                            results@[k].path@,
                        );
                    }
                }
            }
            i = i + 1;
        }
        let ghost file_count = results@.len();
        let mut d: usize = 0;
        while d < self.directories.len()
            invariant
                0 <= d <= self.directories@.len(),
                m == self.state(),
                distinct_keys(self.files@),
                distinct_strs(self.directories@),
                file_count <= results@.len(),
                forall|k: int|
                    0 <= k < results@.len() ==> entry_ok(m, path@, #[trigger] results@[k]),
                forall|k: int|
                    0 <= k < file_count ==> !(#[trigger] results@[k]).is_directory,
                forall|k1: int, k2: int|
                    0 <= k1 < k2 < file_count ==> (#[trigger] results@[k1]).path@ != (
                    #[trigger] results@[k2]).path@,
                forall|j: int|
                    0 <= j < self.files@.len() && parent_of((#[trigger] self.files@[j]).0@)
                        == path@ ==> exists|k: int|
                        0 <= k < results@.len() && (#[trigger] results@[k]).path@
                            == self.files@[j].0@ && !results@[k].is_directory,
                forall|k: int|
                    file_count <= k < results@.len() ==> (#[trigger] results@[k]).is_directory
                        && exists|j: int|
                        0 <= j < d && (#[trigger] self.directories@[j])@ == results@[k].path@,
                forall|k1: int, k2: int|
                    file_count <= k1 < k2 < results@.len() ==> (#[trigger] results@[k1]).path@
                        != (#[trigger] results@[k2]).path@,
                forall|j: int|
                    0 <= j < d && parent_of((#[trigger] self.directories@[j])@) == path@
                        && self.directories@[j]@ != path@ ==> exists|k: int|
                        0 <= k < results@.len() && (#[trigger] results@[k]).path@
                            == self.directories@[j]@ && results@[k].is_directory,
            decreases self.directories@.len() - d,
        {
            let dir_parent = parent_dir(self.directories[d].as_str());
            if str_eq(dir_parent.as_str(), path) && !str_eq(
                self.directories[d].as_str(),
                path,
            ) {
                let e = EntryMetadata {
                    path: self.directories[d].clone(),
                    modified: self.clock,
                    is_directory: true,
                };
                let ghost pre = results@;
                results.push(e);
                proof {
                    lemma_dirs_model(self.directories@);
                    let k = results@.len() - 1;
                    assert(forall|k2: int| 0 <= k2 < pre.len() ==> results@[k2] == pre[k2]);
                    assert(results@[k].path@ == (#[trigger] self.directories@[d as int])@);
                    assert(m.dirs.contains(results@[k].path@));
                    assert(entry_ok(m, path@, results@[k]));
                }
            }
            d = d + 1;
        }
        proof {
            assert forall|k1: int, k2: int|
                0 <= k1 < k2 < results@.len() && (#[trigger] results@[k1]).is_directory && (
                #[trigger] results@[k2]).is_directory implies results@[k1].path@
                != results@[k2].path@ by {
                assert(file_count <= k1);
            }
            assert forall|k1: int, k2: int|
                0 <= k1 < k2 < results@.len() && !(#[trigger] results@[k1]).is_directory && !(
                #[trigger] results@[k2]).is_directory implies results@[k1].path@
                != results@[k2].path@ by {
                assert(k2 < file_count);
            }
            assert forall|p: Seq<char>| #[trigger]
                m.files.dom().contains(p) && parent_of(p) == path@ implies exists|k: int|
                0 <= k < results@.len() && (#[trigger] results@[k]).path@ == p
                    && !results@[k].is_directory by {
                let j = choose|j: int| 0 <= j < self.files@.len() && (#[trigger] self.files@[j]).0@ == p;
                assert(parent_of(self.files@[j].0@) == path@);
            }
            assert forall|p: Seq<char>| #[trigger]
                m.dirs.contains(p) && parent_of(p) == path@ && p != path@ implies exists|k: int|
                0 <= k < results@.len() && (#[trigger] results@[k]).path@ == p
                    && results@[k].is_directory by {
                let j = choose|j: int|
                    0 <= j < self.directories@.len() && (#[trigger] self.directories@[j])@ == p;
                assert(parent_of(self.directories@[j]@) == path@);
            }
        }
        Ok(results)
    }

    fn get_metadata(&self, path: &str) -> (r: Result<EntryMetadata, FileSystemError>)
        ensures
            r is Ok <==> self.state().has_entry(path@),
            r matches Err(e) ==> (e matches FileSystemError::NotFound(p) && p@ == path@),
    {
        proof {
            use_type_invariant(&*self);
            lemma_files_model(self.files@);
            lemma_dirs_model(self.directories@);
        }
        match self.find_file_index(path) {
            Some(i) => {
                proof {
                    lemma_files_model_value(self.files@, i as int);
                }
                Ok(
                    EntryMetadata {
                        path: path.to_owned(),
                        modified: self.files[i].1.modified,
                        is_directory: false,
                    },
                )
            },
            None => {
                if self.contains_dir(path) {
                    Ok(
                        EntryMetadata {
                            path: path.to_owned(),
                            modified: self.clock,
                            is_directory: true,
                        },
                    )
                } else {
                    Err(FileSystemError::NotFound(path.to_owned()))
                }
            },
        }
    }

    fn copy_file(&mut self, from: &str, to: &str) -> (r: Result<(), FileSystemError>)
        ensures
            r is Ok <==> old(self).state().files.dom().contains(from@),
            // The copy keeps the source's modified time along with its bytes.
            r matches Ok(_) ==> final(self).state() == old(self).state().with_file(
                to@,
                old(self).state().files[from@].content,
                old(self).state().files[from@].modified,
            ),
            r matches Err(e) ==> (e matches FileSystemError::NotFound(p) && p@ == from@),
    {
        proof {
            use_type_invariant(&*self);
            lemma_files_model(self.files@);
        }
        match self.find_file_index(from) {
            Some(i) => {
                proof {
                    lemma_files_model_value(self.files@, i as int);
                }
                let content = self.files[i].1.content.clone();
                let modified = self.files[i].1.modified;
                proof {
                    assert(content@ =~= self.files@[i as int].1.content@);
                }
                self.insert_file(to, MockFile { content, modified });
                proof {
                    assert(self.state() == old(self).state().with_file(
                        to@,
                        old(self).state().files[from@].content,
                        modified,
                    ));
                }
                Ok(())
            },
            None => Err(FileSystemError::NotFound(from.to_owned())),
        }
    }

    fn create_directory(&mut self, path: &str) -> (r: Result<(), FileSystemError>)
        ensures
            r is Ok,
    {
        let ghost m0 = self.state();
        self.add_directory(path);
        let mut cur = parent_dir(path);
        proof {
            crate::paths::lemma_last_pos(path@, '/');
            if cur@.len() > 0 {
                crate::paths::lemma_child_is_under(path@, cur@);
            }
        }
        while !cur.as_str().is_empty()
            invariant
                self.state().files == m0.files,
                m0.dirs.subset_of(self.state().dirs),
                self.state().dirs.contains(path@),
                forall|dd: Seq<char>|
                    self.state().dirs.contains(dd) && !m0.dirs.contains(dd) ==> dd == path@
                        || crate::paths::is_under(path@, dd),
                cur@.len() > 0 ==> crate::paths::is_under(path@, cur@),
            decreases cur@.len(),
        {
            self.add_directory(cur.as_str());
            let par = parent_dir(cur.as_str());
            proof {
                crate::paths::lemma_last_pos(cur@, '/');
                if par@.len() > 0 {
                    crate::paths::lemma_child_is_under(cur@, par@);
                    crate::paths::lemma_under_transitive(path@, cur@, par@);
                }
            }
            cur = par;
        }
        proof {
            lemma_dirs_model(self.directories@);
        }
        Ok(())
    }

    fn path_exists(&self, path: &str) -> (r: Result<bool, FileSystemError>)
        ensures
            r is Ok,
    {
        proof {
            use_type_invariant(&*self);
            lemma_files_model(self.files@);
            lemma_dirs_model(self.directories@);
        }
        match self.find_file_index(path) {
            Some(_) => Ok(true),
            None => Ok(self.contains_dir(path)),
        }
    }

    fn set_modified_time(&mut self, path: &str, time: u64) -> (r: Result<(), FileSystemError>)
        ensures
            r is Ok <==> old(self).state().files.dom().contains(path@),
            r matches Err(e) ==> (e matches FileSystemError::NotFound(p) && p@ == path@),
    {
        proof {
            use_type_invariant(&*self);
            lemma_files_model(self.files@);
        }
        match self.find_file_index(path) {
            Some(i) => {
                proof {
                    lemma_files_model_value(self.files@, i as int);
                }
                let key = self.files[i].0.clone();
                let content = self.files[i].1.content.clone();
                proof {
                    assert(content@ =~= self.files@[i as int].1.content@);
                }
                let v = (key, MockFile { content, modified: time });
                proof {
                    lemma_files_model_update(self.files@, i as int, v);
                }
                let mut files: Vec<(String, MockFile)> = Vec::new();
                core::mem::swap(&mut files, &mut self.files);
                files[i] = v;
                core::mem::swap(&mut files, &mut self.files);
                Ok(())
            },
            None => Err(FileSystemError::NotFound(path.to_owned())),
        }
    }

    fn current_time(&self) -> u64 {
        self.clock
    }
}

} // verus!
