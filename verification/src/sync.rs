//! The incremental sync engine.
//!
//! [`SessionSyncer::sync`] walks the subtrees of a source root whose names
//! start with an identifier prefix, rewrites each path's leading segment
//! through the hyphen-to-separator converter, and copies every stale file to
//! the mirrored location under a target root. The engine is generic over the
//! storage capability and is verified against the [`FileSystem`] contracts:
//! a run never removes an entry, touches files outside the target subtree,
//! or — in dry-run mode — changes the store at all.

use std::collections::VecDeque;

use vstd::prelude::*;

use crate::file_path_converter::expand_char;
use crate::filesystem::FileSystem;
use crate::filesystem::FileSystemError;
use crate::filesystem::FsModel;
use crate::paths::find_char;
use crate::paths::first_pos;
use crate::paths::is_under;
use crate::paths::join_paths;
use crate::paths::last_pos;
use crate::paths::last_slash;
use crate::paths::lemma_last_pos;
use crate::paths::lemma_prefix_comparable;
use crate::paths::lemma_under_transitive;
use crate::paths::parent_dir;
use crate::paths::parent_of;
use crate::paths::push_char;
use crate::paths::str_starts_with;
use crate::paths::tail_from;

verus! {

/// Configuration for one sync run.
#[derive(Debug, Clone)]
pub struct SyncOptions {
    /// Compute and count every action, but perform no filesystem mutation.
    pub dry_run: bool,
    /// Report per-action detail. Never affects control flow or results.
    pub verbose: bool,
}

impl Default for SyncOptions {
    /// Both flags off.
    fn default() -> (d: Self)
        ensures
            !d.dry_run,
            !d.verbose,
    {
        SyncOptions { dry_run: false, verbose: false }
    }
}

/// The outcome of one sync run: counters and the per-file soft failures.
#[derive(Debug)]
pub struct SyncResult {
    pub files_copied: usize,
    pub files_skipped: usize,
    pub directories_created: usize,
    pub errors: Vec<String>,
}

impl Default for SyncResult {
    /// All counters zero, no errors.
    fn default() -> (d: Self)
        ensures
            d.files_copied == 0,
            d.files_skipped == 0,
            d.directories_created == 0,
            d.errors@.len() == 0,
    {
        SyncResult { files_copied: 0, files_skipped: 0, directories_created: 0, errors: Vec::new() }
    }
}

/// The staleness rule on the model: copy when no entry exists at the target,
/// or when the source file's modified time is strictly greater.
pub open spec fn spec_should_copy(m: FsModel, source: Seq<char>, target: Seq<char>) -> bool {
    if !m.has_entry(target) {
        true
    } else {
        m.files[source].modified > m.files[target].modified
    }
}

/// Law: the staleness rule copies exactly the stale files. For files
/// `source` and `target`, an absent target always demands a copy; a target
/// older than the source demands a copy; a target at least as new as the
/// source is skipped.
pub proof fn lemma_staleness_rule(m: FsModel, source: Seq<char>, target: Seq<char>)
    requires
        m.files.dom().contains(source),
    ensures
        !m.has_entry(target) ==> spec_should_copy(m, source, target),
        m.files.dom().contains(target) && m.files[target].modified < m.files[source].modified
            ==> spec_should_copy(m, source, target),
        m.files.dom().contains(target) && m.files[target].modified >= m.files[source].modified
            ==> !spec_should_copy(m, source, target),
{
}

/// One flattened segment, converted: every hyphen becomes a separator, and a
/// leading separator that this produces is stripped.
pub open spec fn spec_convert_segment(s: Seq<char>) -> Seq<char> {
    let m = s.map_values(|c: char| expand_char(c));
    if m.len() > 0 && m[0] == '/' {
        m.skip(1)
    } else {
        m
    }
}

/// A source-relative path, converted: its leading segment goes through
/// [`spec_convert_segment`], the rest is kept as it is.
pub open spec fn spec_convert_directory_name(rel: Seq<char>) -> Seq<char> {
    let cut = first_pos(rel, '/');
    if cut < 0 {
        spec_convert_segment(rel)
    } else {
        spec_convert_segment(rel.take(cut)) + rel.skip(cut)
    }
}

/// `d` belongs to the target subtree: it is the target root itself, lies
/// below it, or is one of its ancestors (created as an intermediate segment).
pub open spec fn dir_in_target_scope(d: Seq<char>, target: Seq<char>) -> bool {
    d == target || is_under(d, target) || is_under(target, d)
}

/// How one sync step may change the store: nothing is removed, files change
/// only below the target root, new files lie below the target root, new
/// directories lie in the target subtree, and finiteness is kept.
pub open spec fn evolves_within(m0: FsModel, m1: FsModel, target: Seq<char>) -> bool {
    &&& m0.files.dom().subset_of(m1.files.dom())
    &&& m0.dirs.subset_of(m1.dirs)
    &&& (forall|p: Seq<char>|
        m0.files.dom().contains(p) && !is_under(p, target) ==> m1.files[p] == m0.files[p])
    &&& (forall|p: Seq<char>|
        m1.files.dom().contains(p) && !m0.files.dom().contains(p) ==> is_under(p, target))
    &&& (forall|d: Seq<char>|
        m1.dirs.contains(d) && !m0.dirs.contains(d) ==> dir_in_target_scope(d, target))
    &&& (m0.wf() ==> m1.wf())
}

/// A store evolves within the target scope when nothing changed.
pub proof fn lemma_evolves_refl(m: FsModel, target: Seq<char>)
    ensures
        evolves_within(m, m, target),
{
}

/// Evolving within the target scope composes.
pub proof fn lemma_evolves_trans(a: FsModel, b: FsModel, c: FsModel, target: Seq<char>)
    requires
        evolves_within(a, b, target),
        evolves_within(b, c, target),
    ensures
        evolves_within(a, c, target),
{
    assert forall|p: Seq<char>|
        a.files.dom().contains(p) && !is_under(p, target) implies c.files[p] == a.files[p] by {
        assert(b.files.dom().contains(p));
    }
}

/// Two directories that one path lies strictly below are equal or nested.
pub proof fn lemma_boundary_prefixes(p: Seq<char>, a: Seq<char>, b: Seq<char>)
    requires
        is_under(p, a),
        is_under(p, b),
        a.len() <= b.len(),
    ensures
        a == b || is_under(b, a),
{
    lemma_prefix_comparable(p, a + seq!['/'], b + seq!['/']);
    if a.len() == b.len() {
        assert((b + seq!['/']).take(a.len() as int + 1) =~= b + seq!['/']);
        assert(a =~= (a + seq!['/']).take(a.len() as int));
        assert(b =~= (b + seq!['/']).take(b.len() as int));
    } else {
        assert(b.take(a.len() as int + 1) =~= a + seq!['/']);
    }
}

/// An ancestor (or the path itself) of a directory in the target subtree is
/// in the target scope.
pub proof fn lemma_ancestor_in_scope(d: Seq<char>, x: Seq<char>, target: Seq<char>)
    requires
        d == x || is_under(x, d),
        x == target || is_under(x, target),
    ensures
        dir_in_target_scope(d, target),
{
    if d == x {
    } else if x == target {
    } else {
        if d.len() <= target.len() {
            lemma_boundary_prefixes(x, d, target);
        } else {
            lemma_boundary_prefixes(x, target, d);
        }
    }
}

/// When source and target subtrees do not overlap, nothing in the target
/// scope lies strictly below the source root.
pub proof fn lemma_scope_not_under_source(d: Seq<char>, source: Seq<char>, target: Seq<char>)
    requires
        dir_in_target_scope(d, target),
        target != source,
        !is_under(target, source),
        !is_under(source, target),
    ensures
        !is_under(d, source),
{
    if is_under(d, source) {
        if d == target {
        } else if is_under(d, target) {
            if source.len() <= target.len() {
                lemma_boundary_prefixes(d, source, target);
            } else {
                lemma_boundary_prefixes(d, target, source);
            }
        } else {
            lemma_under_transitive(target, d, source);
        }
    }
}

/// The parent of a path strictly below `t` is `t` itself or strictly below.
pub proof fn lemma_parent_in_scope(p: Seq<char>, t: Seq<char>)
    requires
        is_under(p, t),
    ensures
        parent_of(p) == t || is_under(parent_of(p), t),
        last_slash(p) >= t.len(),
{
    lemma_last_pos(p, '/');
    assert(p.take(t.len() as int + 1)[t.len() as int] == '/');
    assert(p[t.len() as int] == '/');
    let ls = last_slash(p);
    if ls == t.len() {
        assert(p.take(ls) =~= t);
    } else {
        assert(p.take(ls).take(t.len() as int + 1) =~= t + seq!['/']);
    }
}

/// Adds one, stopping at the machine's largest counter value.
fn bump(c: usize) -> (r: usize)
    ensures
        r == (if c < usize::MAX {
            (c + 1) as usize
        } else {
            c
        }),
{
    if c < usize::MAX {
        c + 1
    } else {
        c
    }
}

/// Whether one of the strings in `v` equals `s`.
fn vec_contains_str(v: &Vec<String>, s: &str) -> (r: bool)
    ensures
        r == (exists|i: int| 0 <= i < v@.len() && (#[trigger] v@[i])@ == s@),
{
    let mut i: usize = 0;
    while i < v.len()
        invariant
            0 <= i <= v@.len(),
            forall|j: int| 0 <= j < i ==> (#[trigger] v@[j])@ != s@,
        decreases v@.len() - i,
    {
        if crate::paths::str_eq(v[i].as_str(), s) {
            proof {
                assert((#[trigger] v@[i as int])@ == s@);
            }
            return true;
        }
        i = i + 1;
    }
    false
}

/// Builds a soft-failure report: the action, the path, and the error.
fn soft_failure_message(action: &str, path: &str, e: &FileSystemError) -> (r: String)
    ensures
        r@ == action@ + path@ + ": "@ + crate::filesystem::spec_error_message(*e),
{
    let mut s = action.to_owned();
    s.append(path);
    s.append(": ");
    let m = e.message();
    s.append(m.as_str());
    s
}

/// Some directory entry among the first `n` of a listing has path `p`.
spec fn listed_dir_before(es: Seq<crate::filesystem::EntryMetadata>, n: int, p: Seq<char>) -> bool {
    exists|j2: int| 0 <= j2 < n && (#[trigger] es[j2]).is_directory && es[j2].path@ == p
}

/// A path listed among the first `n` entries is listed among the first `m`,
/// for `n <= m`.
proof fn lemma_listed_dir_before_mono(
    es: Seq<crate::filesystem::EntryMetadata>,
    n: int,
    m: int,
    p: Seq<char>,
)
    requires
        listed_dir_before(es, n, p),
        n <= m,
    ensures
        listed_dir_before(es, m, p),
{
    let j2 = choose|j2: int| 0 <= j2 < n && (#[trigger] es[j2]).is_directory && es[j2].path@ == p;
    assert(0 <= j2 < m && es[j2].is_directory && es[j2].path@ == p);
}

/// A listed child of a traversed directory is an original source directory:
/// it lies strictly below the source root, and — because everything this run
/// creates stays in the target scope — it was present before the run began.
proof fn lemma_child_in_source_dirs(
    c: Seq<char>,
    cur: Seq<char>,
    m0: FsModel,
    m_list: FsModel,
    src: Seq<char>,
    tgt: Seq<char>,
)
    requires
        evolves_within(m0, m_list, tgt),
        m_list.dirs.contains(c),
        parent_of(c) == cur,
        cur.len() > 0,
        cur == src || is_under(cur, src),
        src != tgt,
        !is_under(src, tgt),
        !is_under(tgt, src),
    ensures
        m0.dirs.contains(c),
        is_under(c, src),
        is_under(c, cur),
        c.len() > cur.len(),
{
    if last_slash(c) < 0 {
        assert(parent_of(c).len() == 0);
    }
    crate::paths::lemma_child_is_under(c, cur);
    if cur != src {
        lemma_under_transitive(c, cur, src);
    }
    if !m0.dirs.contains(c) {
        lemma_scope_not_under_source(c, src, tgt);
    }
}

/// The sync engine: owns its storage capability and copies stale files.
pub struct SessionSyncer<FS: FileSystem> {
    /// The storage capability the engine operates on.
    pub filesystem: FS,
}

impl<FS: FileSystem> SessionSyncer<FS> {
    /// Wraps a storage capability.
    pub fn new(filesystem: FS) -> (s: Self)
        ensures
            s.filesystem == filesystem,
    {
        SessionSyncer { filesystem }
    }

    /// Decides the staleness rule for one file: copy when the target does
    /// not exist, or when the source's modified time is strictly greater
    /// than the target's; equal timestamps mean up to date.
    pub fn should_copy_file(&self, source: &str, target: &str) -> (r: Result<
        bool,
        FileSystemError,
    >)
        ensures
            r matches Ok(b) ==> {
                &&& !self.filesystem.state().has_entry(target@) ==> b
                &&& (self.filesystem.state().files.dom().contains(source@)
                    && self.filesystem.state().files.dom().contains(target@)) ==> b
                    == spec_should_copy(self.filesystem.state(), source@, target@)
            },
    {
        let target_found = match self.filesystem.path_exists(target) {
            Ok(b) => b,
            Err(e) => {
                return Err(e);
            },
        };
        if !target_found {
            return Ok(true);
        }
        let source_meta = match self.filesystem.get_metadata(source) {
            Ok(m) => m,
            Err(e) => {
                return Err(e);
            },
        };
        let target_meta = match self.filesystem.get_metadata(target) {
            Ok(m) => m,
            Err(e) => {
                return Err(e);
            },
        };
        Ok(source_meta.modified > target_meta.modified)
    }

    /// Converts one flattened directory name: hyphens become separators, a
    /// leading separator is stripped. The recognized domain-like suffixes
    /// survive unchanged — the conversion rewrites only hyphens, and no
    /// recognized suffix contains one.
    pub fn convert_hyphenated_path(&self, name: &str) -> (r: String)
        ensures
            r@ == spec_convert_segment(name@),
    {
        let len = name.unicode_len();
        let start: usize = if len > 0 && (name.get_char(0) == '-' || name.get_char(0) == '/') {
            1
        } else {
            0
        };
        let mut out = String::new();
        let mut i: usize = start;
        while i < len
            invariant
                start <= i <= len,
                len == name@.len(),
                out@.len() == i - start,
                forall|j: int|
                    start <= j < i ==> out@[j - start] == expand_char(name@[j]),
            decreases len - i,
        {
            let c = name.get_char(i);
            if c == '-' {
                push_char(&mut out, '/');
            } else {
                push_char(&mut out, c);
            }
            i = i + 1;
        }
        proof {
            assert(out@ =~= spec_convert_segment(name@));
        }
        out
    }

    /// Rewrites a source-relative path for the target tree: the leading
    /// segment is converted, everything after the first separator is kept.
    ///
    /// The conversion is total and performs no path hygiene: a dot or
    /// dot-dot segment passes through unchanged. Callers own the validity
    /// of what they hand in; the engine only ever converts paths taken from
    /// a sound listing, whose entries are plain children of a listed
    /// directory.
    pub fn convert_directory_name(&self, path: &str) -> (r: String)
        ensures
            r@ == spec_convert_directory_name(path@),
    {
        let len = path.unicode_len();
        match find_char(path, '/') {
            None => self.convert_hyphenated_path(path),
            Some(cut) => {
                let lead = path.substring_char(0, cut);
                let rest = path.substring_char(cut, len);
                let mut out = self.convert_hyphenated_path(lead);
                out.append(rest);
                proof {
                    assert(lead@ =~= path@.take(cut as int));
                    assert(rest@ =~= path@.skip(cut as int));
                }
                out
            },
        }
    }

    /// Handles one source file: decides staleness, ensures the target's
    /// parent directory, copies, and stamps the copy with the current time.
    /// Every failure is recorded in `result` and stops only this file.
    fn sync_one_file(
        &mut self,
        source_path: &str,
        target_path: &str,
        target_dir: &str,
        dry_run: bool,
        created: &mut Vec<String>,
        result: &mut SyncResult,
    )
        requires
            is_under(target_path@, target_dir@),
            old(self).filesystem.state().wf(),
        ensures
            evolves_within(
                old(self).filesystem.state(),
                final(self).filesystem.state(),
                target_dir@,
            ),
            dry_run ==> final(self).filesystem.state() == old(self).filesystem.state(),
            final(result).files_copied >= old(result).files_copied,
            final(result).files_skipped >= old(result).files_skipped,
            final(result).files_copied == usize::MAX || final(self).filesystem.state().files.dom().len()
                + old(result).files_copied <= old(self).filesystem.state().files.dom().len()
                + final(result).files_copied,
            // One file, one outcome: copied, skipped, or one recorded error
            // (exact while the saturating counters have room).
            (old(result).files_copied < usize::MAX && old(result).files_skipped < usize::MAX)
                ==> final(result).files_copied + final(result).files_skipped
                + final(result).errors@.len() == old(result).files_copied
                + old(result).files_skipped + old(result).errors@.len() + 1,
            // A counted copy really lands: outside dry-run, the target file
            // afterwards holds the source's bytes.
            (!dry_run && final(result).files_copied > old(result).files_copied) ==> {
                &&& old(self).filesystem.state().files.dom().contains(source_path@)
                &&& final(self).filesystem.state().files.dom().contains(target_path@)
                &&& final(self).filesystem.state().files[target_path@].content == old(
                    self,
                ).filesystem.state().files[source_path@].content
            },
            // A copy is counted only when the staleness rule demanded one.
            (final(result).files_copied > old(result).files_copied && old(
                self,
            ).filesystem.state().files.dom().contains(source_path@) && old(
                self,
            ).filesystem.state().files.dom().contains(target_path@)) ==> spec_should_copy(
                old(self).filesystem.state(),
                source_path@,
                target_path@,
            ),
            // A skip means the target was present and up to date.
            final(result).files_skipped > old(result).files_skipped ==> {
                &&& old(self).filesystem.state().has_entry(target_path@)
                &&& (old(self).filesystem.state().files.dom().contains(source_path@) && old(
                    self,
                ).filesystem.state().files.dom().contains(target_path@)) ==> !spec_should_copy(
                    old(self).filesystem.state(),
                    source_path@,
                    target_path@,
                )
            },
    {
        let ghost m_in = self.filesystem.state();
        let ghost tgt = target_dir@;
        proof {
            lemma_evolves_refl(m_in, tgt);
        }
        let do_copy = match self.should_copy_file(source_path, target_path) {
            Ok(b) => b,
            Err(e) => {
                result.errors.push(soft_failure_message("Error checking file ", source_path, &e));
                return;
            },
        };
        if !do_copy {
            result.files_skipped = bump(result.files_skipped);
            return;
        }
        let parent = parent_dir(target_path);
        proof {
            lemma_parent_in_scope(target_path@, tgt);
        }
        let parent_found = match self.filesystem.path_exists(parent.as_str()) {
            Ok(b) => b,
            Err(e) => {
                result.errors.push(soft_failure_message("Error copying file ", source_path, &e));
                return;
            },
        };
        if !parent_found && !vec_contains_str(created, parent.as_str()) {
            if !dry_run {
                match self.filesystem.create_directory(parent.as_str()) {
                    Ok(_) => {
                        proof {
                            let m1 = self.filesystem.state();
                            assert forall|d: Seq<char>|
                                m1.dirs.contains(d) && !m_in.dirs.contains(d) implies
                            dir_in_target_scope(d, tgt) by {
                                lemma_ancestor_in_scope(d, parent@, tgt);
                            }
                        }
                    },
                    Err(e) => {
                        result.errors.push(
                            soft_failure_message("Error copying file ", source_path, &e),
                        );
                        return;
                    },
                }
            }
            created.push(parent);
            result.directories_created = bump(result.directories_created);
        }
        if !dry_run {
            let ghost m1 = self.filesystem.state();
            match self.filesystem.copy_file(source_path, target_path) {
                Ok(_) => {
                    proof {
                        let m2 = self.filesystem.state();
                        let t = choose|t: u64|
                            m2 == m1.with_file(target_path@, m1.files[source_path@].content, t);
                        lemma_evolves_trans(m_in, m1, m2, tgt);
                        assert(m2.files.dom() =~= m1.files.dom().insert(target_path@));
                        assert(m2.files.dom().len() <= m1.files.dom().len() + 1);
                    }
                },
                Err(e) => {
                    result.errors.push(
                        soft_failure_message("Error copying file ", source_path, &e),
                    );
                    return;
                },
            }
            let ghost m2 = self.filesystem.state();
            let now = self.filesystem.current_time();
            // A failure to stamp the fresh copy is deliberately swallowed:
            // the copy itself already succeeded.
            match self.filesystem.set_modified_time(target_path, now) {
                Ok(_) => {
                    proof {
                        let m3 = self.filesystem.state();
                        lemma_evolves_trans(m_in, m2, m3, tgt);
                        assert(m3.files.dom() =~= m2.files.dom().insert(target_path@));
                        assert(m3.files.dom().len() == m2.files.dom().len());
                    }
                },
                Err(_) => {},
            }
        }
        result.files_copied = bump(result.files_copied);
    }

    /// Synchronises the matching subtrees of `source_dir` into `target_dir`.
    ///
    /// The directory entries directly under `source_dir` whose names start
    /// with `identifier_prefix` seed the traversal; every file below them is
    /// copied to the equivalently named location under `target_dir` when the
    /// staleness rule demands it, with its leading path segment rewritten by
    /// the hyphen-to-separator converter. A listing failure skips that
    /// subtree; a per-file failure is recorded in the result's error list; a
    /// failed existence check or directory creation aborts the run, as does
    /// a listed directory whose path cannot be made relative to the source
    /// root (a path error, in either traversal pass). The two
    /// roots must be distinct, non-nested directories over a finite store —
    /// copying a tree into itself would not terminate.
    ///
    /// Whatever happens, the run never removes an entry, never changes a
    /// file outside the target subtree, creates directories only in the
    /// target subtree, and under `dry_run` leaves the store untouched.
    #[verifier::loop_isolation(false)]
    #[verifier::rlimit(50)]
    pub fn sync(
        &mut self,
        source_dir: &str,
        identifier_prefix: &str,
        target_dir: &str,
        options: &SyncOptions,
    ) -> (r: Result<SyncResult, FileSystemError>)
        requires
            old(self).filesystem.state().wf(),
            source_dir@.len() > 0,
            target_dir@.len() > 0,
            source_dir@ != target_dir@,
            !is_under(source_dir@, target_dir@),
            !is_under(target_dir@, source_dir@),
        ensures
            evolves_within(
                old(self).filesystem.state(),
                final(self).filesystem.state(),
                target_dir@,
            ),
            options.dry_run ==> final(self).filesystem.state() == old(self).filesystem.state(),
            r matches Ok(res) ==> res.files_copied == usize::MAX
                || final(self).filesystem.state().files.dom().len()
                <= old(self).filesystem.state().files.dom().len() + res.files_copied,
    {
        let ghost m0 = self.filesystem.state();
        let ghost src = source_dir@;
        let ghost tgt = target_dir@;
        let ghost sd = Set::new(|d: Seq<char>| m0.dirs.contains(d) && is_under(d, src));
        proof {
            vstd::set_lib::lemma_len_subset(sd, m0.dirs);
            lemma_evolves_refl(m0, tgt);
        }
        let mut result = SyncResult::default();
        let dry = options.dry_run;

        // Ensure the target root exists; the counter moves even in dry-run.
        let target_root_found = match self.filesystem.path_exists(target_dir) {
            Ok(b) => b,
            Err(e) => {
                return Err(e);
            },
        };
        if !target_root_found {
            if !dry {
                match self.filesystem.create_directory(target_dir) {
                    Ok(_) => {},
                    Err(e) => {
                        return Err(e);
                    },
                }
            }
            result.directories_created = bump(result.directories_created);
        }

        // Directories this run has created (or, in dry-run, would have):
        // each is counted exactly once.
        let mut created: Vec<String> = Vec::new();

        let source_slash = join_paths(source_dir, "");
        proof {
            reveal_strlit("");
            assert(source_slash@ =~= src + seq!['/']);
        }
        let source_slash_len = source_slash.as_str().unicode_len();

        // Seed the queue with the matching top-level directories.
        let mut queue: VecDeque<String> = VecDeque::new();
        let ghost mut visited: Set<Seq<char>> = Set::empty();
        let ghost mut unseen: Set<Seq<char>> = sd;

        let ghost m_seed = self.filesystem.state();
        match self.filesystem.list_directory(source_dir) {
            Err(_) => {
                // A failed listing is recovered locally: nothing to sync.
                return Ok(result);
            },
            Ok(entries) => {
                let mut i: usize = 0;
                while i < entries.len()
                    invariant
                        0 <= i <= entries@.len(),
                        forall|k: int|
                            0 <= k < queue@.len() ==> sd.contains((#[trigger] queue@[k])@),
                        forall|k: int|
                            0 <= k < queue@.len() ==> parent_of((#[trigger] queue@[k])@) == src,
                        forall|k1: int, k2: int|
                            0 <= k1 < k2 < queue@.len() ==> (#[trigger] queue@[k1])@ != (
                            #[trigger] queue@[k2])@,
                        forall|k: int|
                            0 <= k < queue@.len() ==> !unseen.contains((#[trigger] queue@[k])@),
                        forall|k: int|
                            0 <= k < queue@.len() ==> listed_dir_before(
                                entries@,
                                i as int,
                                (#[trigger] queue@[k])@,
                            ),
                        unseen.finite(),
                        forall|d: Seq<char>|
                            sd.contains(d) ==> (exists|k: int|
                                0 <= k < queue@.len() && (#[trigger] queue@[k])@ == d)
                                || unseen.contains(d),
                    decreases entries@.len() - i,
                {
                    let is_dir = entries[i].is_directory;
                    if is_dir {
                        if !str_starts_with(
                            entries[i].path.as_str(),
                            source_slash.as_str(),
                        ) {
                            let mut msg = "entry not under the source root: ".to_owned();
                            msg.append(entries[i].path.as_str());
                            return Err(FileSystemError::PathError(msg));
                        }
                        let name = tail_from(entries[i].path.as_str(), source_slash_len);
                        if str_starts_with(name.as_str(), identifier_prefix) {
                            let ghost c = entries@[i as int].path@;
                            let ghost unseen0 = unseen;
                            let ghost qpre = queue@;
                            proof {
                                lemma_child_in_source_dirs(c, src, m0, m_seed, src, tgt);
                                assert forall|k: int|
                                    0 <= k < queue@.len() implies (#[trigger] queue@[k])@
                                    != c by {
                                    let j2 = choose|j2: int|
                                        0 <= j2 < i && (#[trigger] entries@[j2]).is_directory
                                            && entries@[j2].path@ == queue@[k]@;
                                    assert(entries@[j2].is_directory
                                        && entries@[i as int].is_directory);
                                }
                                assert(unseen.contains(c));
                                unseen = unseen.remove(c);
                            }
                            queue.push_back(entries[i].path.clone());
                            proof {
                                assert(forall|k: int|
                                    0 <= k < qpre.len() ==> queue@[k] == qpre[k]);
                                assert((#[trigger] queue@[qpre.len() as int])@ == c);
                                assert(0 <= i < entries@.len());
                                assert((#[trigger] entries@[i as int]).is_directory);
                                assert(entries@[i as int].path@ == c);
                                assert(listed_dir_before(entries@, i as int + 1, c));
                                assert forall|d: Seq<char>| sd.contains(d) implies (exists|k: int|
                                    0 <= k < queue@.len() && (#[trigger] queue@[k])@ == d)
                                    || unseen.contains(d) by {
                                    if d == c {
                                        assert((#[trigger] queue@[qpre.len() as int])@ == d);
                                    } else if !unseen.contains(d) {
                                        assert(!unseen0.contains(d));
                                        let k = choose|k: int|
                                            0 <= k < qpre.len() && (#[trigger] qpre[k])@ == d;
                                        assert((#[trigger] queue@[k])@ == d);
                                    }
                                }
                            }
                        }
                    }
                    proof {
                        assert forall|k: int|
                            0 <= k < queue@.len() implies listed_dir_before(
                            entries@,
                            i as int + 1,
                            (#[trigger] queue@[k])@,
                        ) by {
                            if listed_dir_before(entries@, i as int, queue@[k]@) {
                                lemma_listed_dir_before_mono(
                                    entries@,
                                    i as int,
                                    i as int + 1,
                                    queue@[k]@,
                                );
                            }
                        }
                    }
                    i = i + 1;
                }
            },
        }

        // Drain the queue, breadth first.
        loop
            invariant
                evolves_within(m0, self.filesystem.state(), tgt),
                dry ==> self.filesystem.state() == m0,
                result.files_copied == usize::MAX || self.filesystem.state().files.dom().len()
                    <= m0.files.dom().len() + result.files_copied,
                forall|k: int| 0 <= k < queue@.len() ==> sd.contains((#[trigger] queue@[k])@),
                forall|k: int|
                    0 <= k < queue@.len() ==> parent_of((#[trigger] queue@[k])@) == src
                        || visited.contains(parent_of(queue@[k]@)),
                forall|k1: int, k2: int|
                    0 <= k1 < k2 < queue@.len() ==> (#[trigger] queue@[k1])@ != (
                    #[trigger] queue@[k2])@,
                forall|k: int| 0 <= k < queue@.len() ==> !visited.contains((#[trigger] queue@[k])@),
                forall|k: int| 0 <= k < queue@.len() ==> !unseen.contains((#[trigger] queue@[k])@),
                forall|v: Seq<char>| #[trigger]
                    visited.contains(v) ==> parent_of(v) == src || visited.contains(parent_of(v)),
                forall|d: Seq<char>|
                    sd.contains(d) ==> visited.contains(d) || (exists|k: int|
                        0 <= k < queue@.len() && (#[trigger] queue@[k])@ == d) || unseen.contains(
                        d,
                    ),
                unseen.finite(),
            decreases unseen.len(), queue@.len(),
        {
            let ghost q_pre = queue@;
            let cur = match queue.pop_front() {
                Some(c) => c,
                None => {
                    break ;
                },
            };
            proof {
                assert(sd.contains(cur@));
                assert(parent_of(cur@) == src || visited.contains(parent_of(cur@)));
                assert forall|k: int|
                    0 <= k < queue@.len() implies (#[trigger] queue@[k])@ != cur@ by {
                    assert(queue@[k] == q_pre[k + 1]);
                }
                assert forall|k: int|
                    0 <= k < queue@.len() implies parent_of((#[trigger] queue@[k])@) == src
                    || visited.contains(parent_of(queue@[k]@)) by {
                    assert(queue@[k] == q_pre[k + 1]);
                }
                assert forall|d: Seq<char>|
                    sd.contains(d) && d != cur@ implies visited.contains(d) || (exists|k: int|
                    0 <= k < queue@.len() && (#[trigger] queue@[k])@ == d) || unseen.contains(
                    d,
                ) by {
                    if !visited.contains(d) && !unseen.contains(d) {
                        let k = choose|k: int|
                            0 <= k < q_pre.len() && (#[trigger] q_pre[k])@ == d;
                        assert(queue@[k - 1] == q_pre[k]);
                    }
                }
            }
            let ghost q0 = queue@;
            let ghost unseen_outer = unseen;
            let ghost m_list = self.filesystem.state();
            let entries = match self.filesystem.list_directory(cur.as_str()) {
                Ok(es) => es,
                Err(_) => {
                    // Skip this subtree; it still counts as handled.
                    proof {
                        visited = visited.insert(cur@);
                        assert forall|k: int|
                            0 <= k < queue@.len() implies parent_of((#[trigger] queue@[k])@)
                            == src || visited.contains(parent_of(queue@[k]@)) by {
                            assert(parent_of(q0[k]@) == src || visited.contains(
                                parent_of(q0[k]@),
                            ) || parent_of(q0[k]@) == cur@);
                        }
                    }
                    continue ;
                },
            };
            let mut j: usize = 0;
            while j < entries.len()
                invariant
                    0 <= j <= entries@.len(),
                    evolves_within(m0, self.filesystem.state(), tgt),
                    dry ==> self.filesystem.state() == m0,
                    result.files_copied == usize::MAX || self.filesystem.state().files.dom().len()
                    <= m0.files.dom().len() + result.files_copied,
                    queue@.len() >= q0.len(),
                    forall|k: int| 0 <= k < q0.len() ==> queue@[k] == q0[k],
                    forall|k: int|
                        q0.len() <= k < queue@.len() ==> parent_of((#[trigger] queue@[k])@)
                            == cur@,
                    forall|k: int|
                        q0.len() <= k < queue@.len() ==> listed_dir_before(
                            entries@,
                            j as int,
                            (#[trigger] queue@[k])@,
                        ),
                    forall|k: int| 0 <= k < queue@.len() ==> sd.contains((#[trigger] queue@[k])@),
                    forall|k1: int, k2: int|
                        0 <= k1 < k2 < queue@.len() ==> (#[trigger] queue@[k1])@ != (
                        #[trigger] queue@[k2])@,
                    forall|k: int|
                        0 <= k < queue@.len() ==> !visited.contains((#[trigger] queue@[k])@),
                    forall|k: int|
                        0 <= k < queue@.len() ==> !unseen.contains((#[trigger] queue@[k])@),
                    forall|k: int| 0 <= k < queue@.len() ==> (#[trigger] queue@[k])@ != cur@,
                    forall|d: Seq<char>|
                        sd.contains(d) && d != cur@ ==> visited.contains(d) || (exists|k: int|
                            0 <= k < queue@.len() && (#[trigger] queue@[k])@ == d)
                            || unseen.contains(d),
                    unseen.finite(),
                    unseen.len() + queue@.len() == unseen_outer.len() + q0.len(),
                decreases entries@.len() - j,
            {
                if !str_starts_with(entries[j].path.as_str(), source_slash.as_str()) {
                    let mut msg = "entry not under the source root: ".to_owned();
                    msg.append(entries[j].path.as_str());
                    return Err(FileSystemError::PathError(msg));
                }
                let rel = tail_from(entries[j].path.as_str(), source_slash_len);
                let converted = self.convert_directory_name(rel.as_str());
                let target_path = join_paths(target_dir, converted.as_str());
                proof {
                    assert(target_path@.take(tgt.len() as int + 1) =~= tgt + seq!['/']);
                    assert(is_under(target_path@, tgt));
                }
                if entries[j].is_directory {
                    let mirror_found = match self.filesystem.path_exists(target_path.as_str()) {
                        Ok(b) => b,
                        Err(e) => {
                            return Err(e);
                        },
                    };
                    if !mirror_found && !vec_contains_str(&created, target_path.as_str()) {
                        if !dry {
                            let ghost m_pre = self.filesystem.state();
                            match self.filesystem.create_directory(target_path.as_str()) {
                                Ok(_) => {
                                    proof {
                                        let m_post = self.filesystem.state();
                                        assert forall|d: Seq<char>|
                                            m_post.dirs.contains(d) && !m_pre.dirs.contains(
                                                d,
                                            ) implies dir_in_target_scope(d, tgt) by {
                                            lemma_ancestor_in_scope(d, target_path@, tgt);
                                        }
                                        lemma_evolves_trans(m0, m_pre, m_post, tgt);
                                    }
                                },
                                Err(e) => {
                                    return Err(e);
                                },
                            }
                        }
                        created.push(target_path);
                        result.directories_created = bump(result.directories_created);
                    }
                    let ghost c = entries@[j as int].path@;
                    let ghost unseen0 = unseen;
                    let ghost qpre = queue@;
                    proof {
                        lemma_child_in_source_dirs(c, cur@, m0, m_list, src, tgt);
                        assert(c != cur@);
                        assert(!visited.contains(c));
                        assert forall|k: int|
                            0 <= k < queue@.len() implies (#[trigger] queue@[k])@ != c by {
                            if k >= q0.len() {
                                assert(listed_dir_before(entries@, j as int, queue@[k]@));
                                let j2 = choose|j2: int|
                                    0 <= j2 < j && (#[trigger] entries@[j2]).is_directory
                                        && entries@[j2].path@ == queue@[k]@;
                                assert(entries@[j2].is_directory
                                    && entries@[j as int].is_directory);
                            } else {
                                assert(queue@[k] == q0[k]);
                            }
                        }
                        assert(unseen.contains(c));
                        unseen = unseen.remove(c);
                    }
                    queue.push_back(entries[j].path.clone());
                    proof {
                        assert(forall|k: int| 0 <= k < qpre.len() ==> queue@[k] == qpre[k]);
                        assert((#[trigger] queue@[qpre.len() as int])@ == c);
                        assert(0 <= j < entries@.len() && (#[trigger] entries@[j as int]).is_directory
                            && entries@[j as int].path@ == c);
                        assert(listed_dir_before(entries@, j as int + 1, c));
                        assert forall|d: Seq<char>|
                            sd.contains(d) && d != cur@ implies visited.contains(d) || (
                        exists|k: int|
                            0 <= k < queue@.len() && (#[trigger] queue@[k])@ == d)
                            || unseen.contains(d) by {
                            if d == c {
                                assert((#[trigger] queue@[qpre.len() as int])@ == d);
                            } else if !visited.contains(d) && !unseen.contains(d) {
                                assert(!unseen0.contains(d));
                                let k = choose|k: int|
                                    0 <= k < qpre.len() && (#[trigger] qpre[k])@ == d;
                                assert((#[trigger] queue@[k])@ == d);
                            }
                        }
                    }
                } else {
                    let ghost m_pre = self.filesystem.state();
                    self.sync_one_file(
                        entries[j].path.as_str(),
                        target_path.as_str(),
                        target_dir,
                        dry,
                        &mut created,
                        &mut result,
                    );
                    proof {
                        lemma_evolves_trans(m0, m_pre, self.filesystem.state(), tgt);
                    }
                }
                proof {
                    assert forall|k: int|
                        q0.len() <= k < queue@.len() implies listed_dir_before(
                        entries@,
                        j as int + 1,
                        (#[trigger] queue@[k])@,
                    ) by {
                        if listed_dir_before(entries@, j as int, queue@[k]@) {
                            lemma_listed_dir_before_mono(
                                entries@,
                                j as int,
                                j as int + 1,
                                queue@[k]@,
                            );
                        }
                    }
                }
                j = j + 1;
            }
            proof {
                visited = visited.insert(cur@);
                assert forall|k: int|
                    0 <= k < queue@.len() implies parent_of((#[trigger] queue@[k])@) == src
                    || visited.contains(parent_of(queue@[k]@)) by {
                    if k < q0.len() {
                        assert(queue@[k] == q0[k]);
                        assert(parent_of(q0[k]@) == src || visited.contains(parent_of(q0[k]@))
                            || parent_of(q0[k]@) == cur@);
                    } else {
                        assert(parent_of(queue@[k]@) == cur@);
                    }
                }
            }
        }
        Ok(result)
    }
}

} // verus!
