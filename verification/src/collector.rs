//! Aggregation of what a traversal finds.

use vstd::prelude::*;
use crate::analyzer::{
    entry_views, lemma_symlink_total_bound, lemma_total_bytes_push, next_count, symlink_total,
    total_bytes, wrap_u64, AnalysisResult, FileEntry, FileEntryView,
};
use crate::text::text_views;

verus! {

/// The sink into which a traversal writes records, warnings and counts.
pub struct ResultCollector {
    entries: Vec<FileEntry>,
    warnings: Vec<String>,
    total_size: u64,
    file_count: usize,
    directory_count: usize,
    symlink_count: usize,
    incomplete: bool,
}

/// The mathematical value of a [`ResultCollector`].
pub struct CollectorView {
    pub entries: Seq<FileEntryView>,
    pub warnings: Seq<Seq<char>>,
    pub directories: nat,
    pub incomplete: bool,
}

impl View for ResultCollector {
    type V = CollectorView;

    closed spec fn view(&self) -> CollectorView {
        CollectorView {
            entries: entry_views(self.entries@),
            warnings: text_views(self.warnings@),
            directories: self.directory_count as nat,
            incomplete: self.incomplete,
        }
    }
}

impl ResultCollector {
    /// The running totals agree with the records collected so far.
    pub closed spec fn inv(&self) -> bool {
        &&& self.total_size == wrap_u64(total_bytes(entry_views(self.entries@)))
        &&& self.file_count == self.entries@.len()
        &&& self.symlink_count == symlink_total(entry_views(self.entries@))
    }

    /// An empty collector.
    pub fn new() -> (c: Self)
        ensures
            c.inv(),
            c@.entries == Seq::<FileEntryView>::empty(),
            c@.warnings == Seq::<Seq<char>>::empty(),
            c@.directories == 0,
            !c@.incomplete,
    {
        let c = ResultCollector {
            entries: Vec::new(),
            warnings: Vec::new(),
            total_size: 0,
            file_count: 0,
            directory_count: 0,
            symlink_count: 0,
            incomplete: false,
        };
        assert(entry_views(c.entries@) =~= Seq::<FileEntryView>::empty());
        assert(text_views(c.warnings@) =~= Seq::<Seq<char>>::empty());
        c
    }

    /// Appends a record and updates the totals.
    pub fn add_entry(&mut self, entry: FileEntry)
        requires
            old(self).inv(),
        ensures
            final(self).inv(),
            final(self)@ == (CollectorView {
                entries: old(self)@.entries.push(entry@),
                ..old(self)@
            }),
    {
        proof {
            lemma_total_bytes_push(entry_views(self.entries@), entry@);
            lemma_symlink_total_bound(entry_views(self.entries@));
            assert(entry_views(self.entries@.push(entry)) =~= entry_views(self.entries@).push(
                entry@,
            ));
        }
        let size: u64 = entry.size;
        let is_symlink = entry.is_symlink;
        self.entries.push(entry);
        self.file_count = self.entries.len();
        let room: u64 = u64::MAX - self.total_size;
        self.total_size = if size > room {
            size - room - 1
        } else {
            self.total_size + size
        };
        if is_symlink {
            self.symlink_count = self.symlink_count + 1;
        }
    }

    /// Appends a warning.
    pub fn add_warning(&mut self, warning: String)
        requires
            old(self).inv(),
        ensures
            final(self).inv(),
            final(self)@ == (CollectorView {
                warnings: old(self)@.warnings.push(warning@),
                ..old(self)@
            }),
    {
        proof {
            assert(text_views(self.warnings@.push(warning)) =~= text_views(self.warnings@).push(
                warning@,
            ));
        }
        self.warnings.push(warning);
    }

    /// Counts one more directory. The count is kept in a `usize` and wraps.
    pub fn increment_directory_count(&mut self)
        requires
            old(self).inv(),
        ensures
            final(self).inv(),
            final(self)@ == (CollectorView {
                directories: next_count(old(self)@.directories),
                ..old(self)@
            }),
    {
        self.directory_count = if self.directory_count == usize::MAX {
            0
        } else {
            self.directory_count + 1
        };
    }

    /// The number of records collected so far.
    pub fn file_count(&self) -> (n: usize)
        requires
            self.inv(),
        ensures
            n == self@.entries.len(),
    {
        self.file_count
    }

    /// Sets the flag that says whether a limit cut the traversal short.
    pub fn set_incomplete(&mut self, incomplete: bool)
        requires
            old(self).inv(),
        ensures
            final(self).inv(),
            final(self)@ == (CollectorView { incomplete, ..old(self)@ }),
    {
        self.incomplete = incomplete;
    }

    /// Hands out everything that was collected, with its totals.
    pub fn finalize(self) -> (result: AnalysisResult)
        requires
            self.inv(),
        ensures
            result.consistent(),
            entry_views(result.entries@) == self@.entries,
            text_views(result.warnings@) == self@.warnings,
            result.directory_count == self@.directories,
            result.incomplete == self@.incomplete,
    {
        AnalysisResult {
            total_size: self.total_size,
            file_count: self.file_count,
            directory_count: self.directory_count,
            symlink_count: self.symlink_count,
            entries: self.entries,
            warnings: self.warnings,
            incomplete: self.incomplete,
        }
    }
}

impl Default for ResultCollector {
    fn default() -> (c: Self)
        ensures
            c.inv(),
            c@.entries == Seq::<FileEntryView>::empty(),
            c@.warnings == Seq::<Seq<char>>::empty(),
            c@.directories == 0,
            !c@.incomplete,
    {
        Self::new()
    }
}

} // verus!
