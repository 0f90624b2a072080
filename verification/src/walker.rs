//! Listing of directories, with depth.

use vstd::prelude::*;
use crate::error::AnalyzerError;
use crate::fs::{raw_views, FileMetadata, RawEntry, RawEntryView};
use crate::link_handler::{canonicalize_failure, LinkHandler};

verus! {

/// A child of a directory, with the depth at which it lies.
#[derive(Debug, Clone)]
pub struct DirEntry {
    pub path: String,
    pub metadata: FileMetadata,
    pub depth: usize,
}

/// The mathematical value of a [`DirEntry`].
pub struct DirEntryView {
    pub path: Seq<char>,
    pub metadata: FileMetadata,
    pub depth: nat,
}

impl View for DirEntry {
    type V = DirEntryView;

    open spec fn view(&self) -> DirEntryView {
        DirEntryView { path: self.path@, metadata: self.metadata, depth: self.depth as nat }
    }
}

/// The views of the entries, in the same order.
pub open spec fn dir_entry_views(entries: Seq<DirEntry>) -> Seq<DirEntryView> {
    Seq::new(entries.len(), |i: int| entries[i]@)
}

/// Whether the depth `current_depth` lies within the limit.
pub open spec fn within_depth(current_depth: nat, max_depth: Option<usize>) -> bool {
    match max_depth {
        Some(max) => current_depth <= max,
        None => true,
    }
}

/// Whether the children of a directory at depth `depth` are listed: they lie
/// one level deeper, which must be a depth and within the limit. Under a
/// limit that is so exactly if the directory lies above the limit.
pub open spec fn lists_children(depth: nat, max_depth: Option<usize>) -> bool {
    depth < usize::MAX && within_depth(depth + 1, max_depth)
}

/// The children of a listing whose metadata could be read, in order, each at
/// the given depth.
pub open spec fn readable(listing: Seq<RawEntryView>, depth: nat) -> Seq<DirEntryView>
    decreases listing.len(),
{
    if listing.len() == 0 {
        Seq::empty()
    } else {
        let earlier = readable(listing.drop_last(), depth);
        match listing.last().metadata {
            Some(metadata) => earlier.push(
                DirEntryView { path: listing.last().path, metadata, depth },
            ),
            None => earlier,
        }
    }
}

/// Reads directories on behalf of a traversal.
pub struct DirectoryWalker;

impl DirectoryWalker {
    pub fn new() -> (walker: Self) {
        DirectoryWalker
    }

    /// Whether children at depth `current_depth` are listed under the limit:
    /// they are unless the depth exceeds it.
    pub fn should_traverse_depth(&self, current_depth: usize, max_depth: Option<usize>) -> (go: bool)
        ensures
            go == within_depth(current_depth as nat, max_depth),
    {
        match max_depth {
            Some(max) => current_depth <= max,
            None => true,
        }
    }

    /// Whether the entry is a directory whose children are listed: they lie
    /// one level below the entry, and that level must be within the limit.
    pub fn should_traverse(&self, entry: &DirEntry, max_depth: Option<usize>) -> (go: bool)
        ensures
            go == (entry.metadata.is_dir() && lists_children(entry.depth as nat, max_depth)),
    {
        if !entry.metadata.is_dir() || entry.depth == usize::MAX {
            return false;
        }
        self.should_traverse_depth(entry.depth + 1, max_depth)
    }

    /// The children of a directory, which lie at depth `current_depth`, from
    /// the listing that the system gave. Where that depth exceeds the limit
    /// there are none, whatever the listing. A listing that failed is an
    /// error. Children without readable metadata are left out.
    pub fn read_dir(
        &self,
        listing: Result<Vec<RawEntry>, String>,
        current_depth: usize,
        max_depth: Option<usize>,
    ) -> (r: Result<Vec<DirEntry>, AnalyzerError>)
        ensures
            if !within_depth(current_depth as nat, max_depth) {
                r matches Ok(entries) && entries@.len() == 0
            } else {
                match listing {
                    Ok(raw) => r matches Ok(entries) && dir_entry_views(entries@) == readable(
                        raw_views(raw@),
                        current_depth as nat,
                    ),
                    Err(cause) => r matches Err(AnalyzerError::Io(text)) && text == cause,
                }
            },
    {
        if !self.should_traverse_depth(current_depth, max_depth) {
            return Ok(Vec::new());
        }
        let raw = match listing {
            Ok(raw) => raw,
            Err(cause) => {
                return Err(AnalyzerError::Io(cause));
            },
        };
        let ghost listed = raw@;
        let depth: usize = current_depth;
        let mut entries: Vec<DirEntry> = Vec::new();
        for child in it: raw.into_iter()
            invariant
                it.seq() == listed,
                dir_entry_views(entries@) == readable(
                    raw_views(listed.take(it.index() as int)),
                    depth as nat,
                ),
        {
            let ghost seen = dir_entry_views(entries@);
            let ghost child_view = child@;
            proof {
                let next = raw_views(listed.take(it.index() + 1));
                assert(next.drop_last() =~= raw_views(listed.take(it.index() as int)));
                assert(next.last() == child_view);
            }
            match child.metadata {
                Some(metadata) => {
                    entries.push(DirEntry { path: child.path, metadata, depth });
                    assert(dir_entry_views(entries@) =~= seen.push(
                        DirEntryView { path: child_view.path, metadata, depth: depth as nat },
                    ));
                },
                None => {},
            }
        }
        assert(listed.take(listed.len() as int) =~= listed);
        Ok(entries)
    }

    /// Whether the path is a link into a directory that was entered before.
    /// `metadata` is what the system reports of the path itself, and
    /// `resolved` its canonical form, which is looked at for a link only.
    pub fn check_symlink(
        &self,
        link_handler: &LinkHandler,
        path: &str,
        metadata: Result<FileMetadata, String>,
        resolved: Result<String, String>,
    ) -> (r: Result<bool, AnalyzerError>)
        ensures
            match metadata {
                Err(cause) => r matches Err(AnalyzerError::Io(text)) && text == cause,
                Ok(m) => if m.is_symlink() {
                    match resolved {
                        Ok(canonical) => r == Ok::<bool, AnalyzerError>(
                            link_handler@.paths.contains(canonical@),
                        ),
                        Err(cause) => r matches Err(AnalyzerError::PathError(text)) && text@
                            == canonicalize_failure(path@, cause@),
                    }
                } else {
                    r == Ok::<bool, AnalyzerError>(false)
                },
            },
    {
        let metadata = match metadata {
            Ok(m) => m,
            Err(cause) => {
                return Err(AnalyzerError::Io(cause));
            },
        };
        if metadata.is_symlink() {
            return link_handler.is_circular(path, resolved);
        }
        Ok(false)
    }
}

} // verus!
