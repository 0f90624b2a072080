//! Detection of circular links and of files that were counted before.

use vstd::prelude::*;
use vstd::hash_set::StringHashSet;
use std::collections::HashSet;
use crate::error::AnalyzerError;
use crate::fs::{path_result_view, FileIdentity, FileMetadata};
use crate::text::labelled;

verus! {

broadcast use vstd::std_specs::hash::group_hash_axioms;

/// The number under which an identity is kept: device and inode side by
/// side.
pub open spec fn identity_key(id: FileIdentity) -> int {
    id.dev * 0x1_0000_0000_0000_0000 + id.ino
}

/// The guard of one analysis: the canonical paths of the directories entered
/// so far, and the identities of the files seen so far.
pub struct LinkHandler {
    visited_inodes: HashSet<u128>,
    visited_paths: StringHashSet,
}

/// The mathematical value of a [`LinkHandler`].
pub struct GuardView {
    pub paths: Set<Seq<char>>,
    pub identities: Set<FileIdentity>,
}

impl View for LinkHandler {
    type V = GuardView;

    closed spec fn view(&self) -> GuardView {
        GuardView {
            paths: self.visited_paths@,
            identities: Set::new(
                |id: FileIdentity| self.visited_inodes@.contains(identity_key(id) as u128),
            ),
        }
    }
}

/// The message of a path that could not be brought into canonical form.
pub open spec fn canonicalize_failure(path: Seq<char>, cause: Seq<char>) -> Seq<char> {
    "Failed to canonicalize path "@ + path + ": "@ + cause
}

/// The message of a link whose text could not be read.
pub open spec fn resolve_failure(path: Seq<char>, cause: Seq<char>) -> Seq<char> {
    "Failed to resolve symlink "@ + path + ": "@ + cause
}

/// The guard after a file with the given metadata was looked up: its identity
/// is now known, if it has one.
pub open spec fn with_identity(guard: GuardView, metadata: FileMetadata) -> GuardView {
    match metadata.identity {
        Some(id) => GuardView { identities: guard.identities.insert(id), ..guard },
        None => guard,
    }
}

/// Whether a file with the given metadata was seen before.
pub open spec fn seen_before(guard: GuardView, metadata: FileMetadata) -> bool {
    match metadata.identity {
        Some(id) => guard.identities.contains(id),
        None => false,
    }
}

/// The guard after an attempt to mark a directory: its canonical path is now
/// known, if it could be computed.
pub open spec fn with_path(guard: GuardView, resolved: Result<Seq<char>, Seq<char>>) -> GuardView {
    match resolved {
        Ok(canonical) => GuardView { paths: guard.paths.insert(canonical), ..guard },
        Err(_) => guard,
    }
}

impl LinkHandler {
    /// A guard that has seen nothing.
    pub fn new() -> (guard: Self)
        ensures
            guard@.paths == Set::<Seq<char>>::empty(),
            guard@.identities == Set::<FileIdentity>::empty(),
    {
        let guard = LinkHandler { visited_inodes: HashSet::new(), visited_paths: StringHashSet::new() };
        assert(guard@.identities =~= Set::<FileIdentity>::empty());
        guard
    }

    /// Whether `path` leads into a directory that was entered before.
    /// `resolved` is the canonical form of `path` as the system gave it; where
    /// the system failed, so does the check.
    pub fn is_circular(&self, path: &str, resolved: Result<String, String>) -> (r: Result<
        bool,
        AnalyzerError,
    >)
        ensures
            match resolved {
                Ok(canonical) => r == Ok::<bool, AnalyzerError>(self@.paths.contains(canonical@)),
                Err(cause) => r matches Err(AnalyzerError::PathError(text)) && text@
                    == canonicalize_failure(path@, cause@),
            },
    {
        match resolved {
            Ok(canonical) => Ok(self.visited_paths.contains(canonical.as_str())),
            Err(cause) => Err(
                AnalyzerError::PathError(
                    labelled("Failed to canonicalize path ", path, cause.as_str()),
                ),
            ),
        }
    }

    /// Records that the directory at `path` is entered. `resolved` is the
    /// canonical form of `path` as the system gave it; where the system
    /// failed, nothing is recorded.
    pub fn mark_visited(&mut self, path: &str, resolved: Result<String, String>) -> (r: Result<
        (),
        AnalyzerError,
    >)
        ensures
            final(self)@ == with_path(old(self)@, path_result_view(resolved)),
            match resolved {
                Ok(_) => r is Ok,
                Err(cause) => r matches Err(AnalyzerError::PathError(text)) && text@
                    == canonicalize_failure(path@, cause@),
            },
    {
        match resolved {
            Ok(canonical) => {
                let ghost before = self@;
                self.visited_paths.insert(canonical);
                assert(self@.identities =~= before.identities);
                Ok(())
            },
            Err(cause) => Err(
                AnalyzerError::PathError(
                    labelled("Failed to canonicalize path ", path, cause.as_str()),
                ),
            ),
        }
    }

    /// Whether a file with this metadata was seen before; from now on it was.
    /// Metadata without identity is never a duplicate.
    pub fn is_duplicate_inode(&mut self, metadata: &FileMetadata) -> (duplicate: bool)
        ensures
            duplicate == seen_before(old(self)@, *metadata),
            final(self)@ == with_identity(old(self)@, *metadata),
    {
        match FileIdentity::from_metadata(metadata) {
            Some(id) => {
                let ghost before = self@;
                let key: u128 = (id.dev as u128) * 0x1_0000_0000_0000_0000u128 + (id.ino as u128);
                let fresh = self.visited_inodes.insert(key);
                assert(self@.identities =~= before.identities.insert(id)) by {
                    assert forall|other: FileIdentity|
                        self@.identities.contains(other) <==> before.identities.insert(
                            id,
                        ).contains(other) by {
                        if identity_key(other) == identity_key(id) {
                            assert(other.dev == id.dev && other.ino == id.ino);
                        }
                    }
                }
                !fresh
            },
            None => false,
        }
    }

    /// The text of the link at `path`, as the system gave it.
    pub fn resolve_link(&self, path: &str, target: Result<String, String>) -> (r: Result<
        String,
        AnalyzerError,
    >)
        ensures
            match target {
                Ok(text) => r == Ok::<String, AnalyzerError>(text),
                Err(cause) => r matches Err(AnalyzerError::PathError(text)) && text@
                    == resolve_failure(path@, cause@),
            },
    {
        match target {
            Ok(text) => Ok(text),
            Err(cause) => Err(
                AnalyzerError::PathError(labelled("Failed to resolve symlink ", path, cause.as_str())),
            ),
        }
    }
}

impl Default for LinkHandler {
    fn default() -> (guard: Self)
        ensures
            guard@.paths == Set::<Seq<char>>::empty(),
            guard@.identities == Set::<FileIdentity>::empty(),
    {
        Self::new()
    }
}

} // verus!
