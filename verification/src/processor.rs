//! Classification of a path: whether it yields a record, and which.
//!
//! A path yields a record if it leads to a regular file that is large enough
//! and was not counted before. A link is known by its own identity, a file by
//! the identity of the file: a link and its target may both be counted, once
//! each.

use vstd::prelude::*;
use crate::analyzer::{FileEntry, FileEntryView};
use crate::config::AnalyzerConfig;
use crate::error::AnalyzerError;
use crate::fs::{path_result_view, FailureKind, FileMetadata, ReadFailure};
use crate::link_handler::{seen_before, with_identity, GuardView, LinkHandler};

verus! {

/// Whether a path with the link metadata `link` goes on to be classified: a
/// link that was seen before does not.
pub open spec fn link_admitted(guard: GuardView, link: FileMetadata) -> bool {
    !(link.is_symlink() && seen_before(guard, link))
}

/// The guard after the first look at a path: a link is known from now on.
pub open spec fn guard_after_link(guard: GuardView, link: FileMetadata) -> GuardView {
    if link.is_symlink() {
        with_identity(guard, link)
    } else {
        guard
    }
}

/// Whether what a path leads to passes the size filter: it is there, it is a
/// regular file, and it has at least `min` bytes.
pub open spec fn eligible(min: u64, followed: Option<FileMetadata>) -> bool {
    followed matches Some(m) && m.is_file() && m.len >= min
}

/// The size under which an admitted path is recorded, if it is: what it leads
/// to must be eligible and, unless the path is a link, not seen before.
pub open spec fn accepted_size(
    guard: GuardView,
    min: u64,
    link: FileMetadata,
    followed: Option<FileMetadata>,
) -> Option<u64> {
    if eligible(min, followed) && (link.is_symlink() || !seen_before(guard, followed->0)) {
        Some(followed->0.len)
    } else {
        None
    }
}

/// The guard after the second look at an admitted path: an eligible file that
/// is no link is known from now on.
pub open spec fn guard_after_target(
    guard: GuardView,
    min: u64,
    link: FileMetadata,
    followed: Option<FileMetadata>,
) -> GuardView {
    if eligible(min, followed) && !link.is_symlink() {
        with_identity(guard, followed->0)
    } else {
        guard
    }
}

/// The record of an accepted path. Only a link has a target.
pub open spec fn record(
    path: Seq<char>,
    depth: nat,
    size: u64,
    link: FileMetadata,
    target: Option<Seq<char>>,
) -> FileEntryView {
    FileEntryView {
        path,
        size: size as nat,
        depth,
        is_symlink: link.is_symlink(),
        target: if link.is_symlink() {
            target
        } else {
            None
        },
    }
}

/// The record that a path yields, if any, from everything the system says of
/// it: `link` of the path itself, `followed` of what it leads to (absent
/// where it leads to nothing), `target` the text of the link.
pub open spec fn classified(
    guard: GuardView,
    min: u64,
    path: Seq<char>,
    depth: nat,
    link: FileMetadata,
    followed: Option<FileMetadata>,
    target: Option<Seq<char>>,
) -> Option<FileEntryView> {
    if !link_admitted(guard, link) {
        None
    } else {
        match accepted_size(guard_after_link(guard, link), min, link, followed) {
            Some(size) => Some(record(path, depth, size, link, target)),
            None => None,
        }
    }
}

/// The guard after a path was classified.
pub open spec fn guard_after(
    guard: GuardView,
    min: u64,
    link: FileMetadata,
    followed: Option<FileMetadata>,
) -> GuardView {
    if !link_admitted(guard, link) {
        guard_after_link(guard, link)
    } else {
        guard_after_target(guard_after_link(guard, link), min, link, followed)
    }
}

/// The text of a link where it could be read.
pub open spec fn readable_target(target: Result<Seq<char>, Seq<char>>) -> Option<Seq<char>> {
    match target {
        Ok(text) => Some(text),
        Err(_) => None,
    }
}

/// Decides which paths yield records.
pub struct FileProcessor {
    min_file_size: u64,
}

impl FileProcessor {
    /// The least size that is recorded.
    pub closed spec fn threshold(&self) -> u64 {
        self.min_file_size
    }

    /// A classifier with the size filter of the configuration.
    pub fn new(config: &AnalyzerConfig) -> (processor: Self)
        ensures
            processor.threshold() == config.min_file_size,
    {
        FileProcessor { min_file_size: config.min_file_size }
    }

    /// Whether a file of this size passes the size filter.
    pub fn should_include(&self, size: u64) -> (keep: bool)
        ensures
            keep == (size >= self.threshold()),
    {
        size >= self.min_file_size
    }

    /// The first look at a path, with the metadata of the path itself: tells
    /// whether it goes on to be classified.
    pub fn admit_link(&self, link_handler: &mut LinkHandler, link: &FileMetadata) -> (admitted: bool)
        ensures
            admitted == link_admitted(old(link_handler)@, *link),
            final(link_handler)@ == guard_after_link(old(link_handler)@, *link),
    {
        if link.is_symlink() {
            !link_handler.is_duplicate_inode(link)
        } else {
            true
        }
    }

    /// The second look at an admitted path, with the metadata of what it
    /// leads to: the size under which it is recorded, if it is.
    pub fn accept(
        &self,
        link_handler: &mut LinkHandler,
        link: &FileMetadata,
        followed: Option<FileMetadata>,
    ) -> (size: Option<u64>)
        ensures
            size == accepted_size(old(link_handler)@, self.threshold(), *link, followed),
            final(link_handler)@ == guard_after_target(
                old(link_handler)@,
                self.threshold(),
                *link,
                followed,
            ),
    {
        let metadata = match followed {
            Some(m) => m,
            None => {
                return None;
            },
        };
        if !metadata.is_file() {
            return None;
        }
        let size = metadata.len;
        if !self.should_include(size) {
            return None;
        }
        if !link.is_symlink() && link_handler.is_duplicate_inode(&metadata) {
            return None;
        }
        Some(size)
    }

    /// The record of an accepted path.
    pub fn entry(path: String, depth: usize, size: u64, link: &FileMetadata, target: Option<String>)
        -> (entry: FileEntry)
        ensures
            entry@ == record(
                path@,
                depth as nat,
                size,
                *link,
                match target {
                    Some(t) => Some(t@),
                    None => None,
                },
            ),
    {
        let is_symlink = link.is_symlink();
        FileEntry {
            path,
            size,
            depth,
            is_symlink,
            target: if is_symlink {
                target
            } else {
                None
            },
        }
    }

    /// Classifies a path from everything the system says of it: `link` is the
    /// metadata of the path itself, `followed` that of what it leads to
    /// (absent where it leads to nothing), `target` the text of the link.
    /// A path at which nothing is found yields no record and is no failure.
    /// Where the path itself could not be read for another reason, the error
    /// says so.
    pub fn process_file(
        &self,
        link_handler: &mut LinkHandler,
        path: &str,
        depth: usize,
        link: Result<FileMetadata, ReadFailure>,
        followed: Option<FileMetadata>,
        target: Result<String, String>,
    ) -> (r: Result<Option<FileEntry>, AnalyzerError>)
        ensures
            match link {
                Err(failure) => {
                    &&& if failure.kind == FailureKind::NotFound {
                        r matches Ok(found) && found is None
                    } else {
                        r matches Err(AnalyzerError::Io(text)) && text == failure.message
                    }
                    &&& final(link_handler)@ == old(link_handler)@
                },
                Ok(m) => {
                    &&& r matches Ok(found) && match found {
                        Some(entry) => Some(entry@),
                        None => None,
                    } == classified(
                        old(link_handler)@,
                        self.threshold(),
                        path@,
                        depth as nat,
                        m,
                        followed,
                        readable_target(path_result_view(target)),
                    )
                    &&& final(link_handler)@ == guard_after(
                        old(link_handler)@,
                        self.threshold(),
                        m,
                        followed,
                    )
                },
            },
    {
        let link = match link {
            Ok(m) => m,
            Err(failure) => {
                if failure.kind == FailureKind::NotFound {
                    return Ok(None);
                }
                return Err(AnalyzerError::Io(failure.message));
            },
        };
        if !self.admit_link(link_handler, &link) {
            return Ok(None);
        }
        let size = match self.accept(link_handler, &link, followed) {
            Some(size) => size,
            None => {
                return Ok(None);
            },
        };
        let target = match link_handler.resolve_link(path, target) {
            Ok(text) => Some(text),
            Err(_) => None,
        };
        Ok(Some(Self::entry(path.to_owned(), depth, size, &link, target)))
    }
}

} // verus!
