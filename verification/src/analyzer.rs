//! Records and results of an analysis.

use vstd::prelude::*;
use crate::bag::{bag, lemma_bag_len, lemma_bag_peel};
use crate::collector::{CollectorView, ResultCollector};
use crate::config::{first_fault, AnalyzerConfig, TraversalStrategy};
use crate::error::AnalyzerError;
use crate::fs::{FileMetadata, FsReply, FsRequest};
use crate::link_handler::{GuardView, LinkHandler};
use crate::text::text_views;
use crate::traversal::laws::{
    count_bounded, depths_bounded, lemma_next_respects, lemma_start_respects, none_ignored,
    respects_limits, sizes_filtered,
};
use crate::traversal::{
    next, start, state_of, BreadthFirstTraversal, DepthFirstTraversal, State,
    TraversalStrategy as Strategy, Walk,
};
use crate::walker::DirectoryWalker;

verus! {

/// One accepted file.
#[derive(Debug, Clone)]
pub struct FileEntry {
    pub path: String,
    pub size: u64,
    /// The number of levels below the root: 1 for a child of the root.
    pub depth: usize,
    pub is_symlink: bool,
    pub target: Option<String>,
}

/// The mathematical value of a [`FileEntry`].
pub struct FileEntryView {
    pub path: Seq<char>,
    pub size: nat,
    pub depth: nat,
    pub is_symlink: bool,
    pub target: Option<Seq<char>>,
}

impl View for FileEntry {
    type V = FileEntryView;

    open spec fn view(&self) -> FileEntryView {
        FileEntryView {
            path: self.path@,
            size: self.size as nat,
            depth: self.depth as nat,
            is_symlink: self.is_symlink,
            target: match self.target {
                Some(t) => Some(t@),
                None => None,
            },
        }
    }
}

/// The views of a sequence of records, in the same order.
pub open spec fn entry_views(entries: Seq<FileEntry>) -> Seq<FileEntryView> {
    Seq::new(entries.len(), |i: int| entries[i]@)
}

/// The sum of the sizes of the records.
pub open spec fn total_bytes(entries: Seq<FileEntryView>) -> nat
    decreases entries.len(),
{
    if entries.len() == 0 {
        0
    } else {
        total_bytes(entries.drop_last()) + entries.last().size
    }
}

/// The number of records that are symbolic links.
pub open spec fn symlink_total(entries: Seq<FileEntryView>) -> nat
    decreases entries.len(),
{
    if entries.len() == 0 {
        0
    } else {
        symlink_total(entries.drop_last()) + if entries.last().is_symlink {
            1nat
        } else {
            0nat
        }
    }
}

/// The value of a byte count that is kept in 64 bits and wraps around.
pub open spec fn wrap_u64(n: nat) -> u64 {
    (n as int % 0x1_0000_0000_0000_0000) as u64
}

/// The successor of a count that is kept in a `usize` and wraps around.
pub open spec fn next_count(n: nat) -> nat {
    if n >= usize::MAX {
        0
    } else {
        n + 1
    }
}

/// What an analysis found.
#[derive(Debug)]
pub struct AnalysisResult {
    pub total_size: u64,
    pub file_count: usize,
    pub directory_count: usize,
    pub symlink_count: usize,
    pub entries: Vec<FileEntry>,
    pub warnings: Vec<String>,
    pub incomplete: bool,
}

impl AnalysisResult {
    /// The totals agree with the records: the size is their sum (kept in 64
    /// bits), the counts are their number and the number of links among them.
    pub open spec fn consistent(&self) -> bool {
        &&& self.total_size == wrap_u64(total_bytes(entry_views(self.entries@)))
        &&& self.file_count == self.entries@.len()
        &&& self.symlink_count == symlink_total(entry_views(self.entries@))
    }
}

/// The guard of an analysis that has not begun.
pub open spec fn empty_guard() -> GuardView {
    GuardView { paths: Set::empty(), identities: Set::empty() }
}

/// What an analysis has found before it has begun.
pub open spec fn nothing_found() -> CollectorView {
    CollectorView {
        entries: Seq::empty(),
        warnings: Seq::empty(),
        directories: 0,
        incomplete: false,
    }
}

/// An analysis under way: a traversal with its guard and its collector.
pub struct Analysis {
    walk: Walk,
    link_handler: LinkHandler,
    collector: ResultCollector,
}

impl Analysis {
    /// The state of the traversal.
    pub closed spec fn state(&self) -> State {
        state_of(self.walk@, self.link_handler@, self.collector@)
    }

    /// The collector's totals agree with its records.
    pub closed spec fn inv(&self) -> bool {
        self.collector.inv()
    }

    /// Whether the traversal is over.
    pub fn is_finished(&self) -> (finished: bool)
        ensures
            finished == (self.state().stage is Done),
    {
        self.walk.is_finished()
    }
}

/// Runs analyses under one configuration.
pub struct FileAnalyzer {
    config: AnalyzerConfig,
}

impl FileAnalyzer {
    /// The configuration of the analyzer.
    pub closed spec fn rules(&self) -> AnalyzerConfig {
        self.config
    }

    /// Whether the nodes are visited depth first.
    pub open spec fn depth_first(&self) -> bool {
        self.rules().traversal_strategy == TraversalStrategy::DepthFirst
    }

    /// The analysis keeps to the limits of this analyzer's configuration.
    /// Every analysis that the analyzer starts does, from start to end.
    pub open spec fn governs(&self, analysis: &Analysis) -> bool {
        respects_limits(self.rules(), analysis.state())
    }

    pub fn new(config: AnalyzerConfig) -> (analyzer: Self)
        ensures
            analyzer.rules() == config,
    {
        FileAnalyzer { config }
    }

    /// The configuration of the analyzer.
    pub fn config(&self) -> (config: &AnalyzerConfig)
        ensures
            *config == self.rules(),
    {
        &self.config
    }

    /// Whether the analysis runs in a pool of worker threads: it does unless
    /// one thread is asked for.
    pub fn uses_thread_pool(&self) -> (pool: bool)
        ensures
            pool == (self.rules().thread_count != 1),
    {
        self.config.thread_count != 1
    }

    /// Checks the configuration and starts an analysis of its root. `root` is
    /// what the root path leads to, links followed, and absent where it leads
    /// to nothing. An invalid configuration is the only error.
    pub fn analyze(&self, root: Option<FileMetadata>) -> (r: Result<
        (Analysis, FsRequest),
        AnalyzerError,
    >)
        ensures
            match r {
                Ok(started) => {
                    &&& first_fault(self.rules(), root, self.rules().thread_count) is None
                    &&& started.0.inv()
                    &&& self.governs(&started.0)
                    &&& (started.0.state(), started.1@) == start(
                        self.rules(),
                        self.rules().root_path@,
                        empty_guard(),
                        nothing_found(),
                    )
                },
                Err(e) => e is InvalidConfig,
            },
            first_fault(self.rules(), root, 1) is None ==> r is Ok,
    {
        match self.config.validate(root) {
            Err(e) => {
                return Err(e);
            },
            Ok(_) => {},
        }
        let link_handler = LinkHandler::new();
        let mut collector = ResultCollector::new();
        let started = match self.config.traversal_strategy {
            TraversalStrategy::DepthFirst => DepthFirstTraversal::new().begin(
                self.config.root_path.as_str(),
                &self.config,
                &link_handler,
                &mut collector,
            ),
            TraversalStrategy::BreadthFirst => BreadthFirstTraversal::new().begin(
                self.config.root_path.as_str(),
                &self.config,
                &link_handler,
                &mut collector,
            ),
        };
        assert(link_handler@ == empty_guard());
        proof {
            lemma_start_respects(
                self.rules(),
                self.rules().root_path@,
                empty_guard(),
                nothing_found(),
            );
        }
        let (walk, request) = started;
        Ok((Analysis { walk, link_handler, collector }, request))
    }

    /// Takes an analysis one step further: handles the reply to the request
    /// made last and names the next request.
    pub fn resume(&self, analysis: &mut Analysis, reply: FsReply) -> (request: FsRequest)
        requires
            old(analysis).inv(),
        ensures
            final(analysis).inv(),
            (final(analysis).state(), request@) == next(
                self.rules(),
                self.depth_first(),
                old(analysis).state(),
                reply@,
            ),
            self.governs(old(analysis)) ==> self.governs(final(analysis)),
    {
        proof {
            if self.governs(analysis) {
                lemma_next_respects(self.rules(), self.depth_first(), analysis.state(), reply@);
            }
        }
        let walker = DirectoryWalker::new();
        match self.config.traversal_strategy {
            TraversalStrategy::DepthFirst => DepthFirstTraversal::new().resume(
                &mut analysis.walk,
                &self.config,
                &walker,
                &mut analysis.link_handler,
                &mut analysis.collector,
                reply,
            ),
            TraversalStrategy::BreadthFirst => BreadthFirstTraversal::new().resume(
                &mut analysis.walk,
                &self.config,
                &walker,
                &mut analysis.link_handler,
                &mut analysis.collector,
                reply,
            ),
        }
    }

    /// Ends an analysis and hands out what it found.
    pub fn finish(&self, analysis: Analysis) -> (result: AnalysisResult)
        requires
            analysis.inv(),
        ensures
            result.consistent(),
            entry_views(result.entries@) == analysis.state().progress.found.entries,
            text_views(result.warnings@) == analysis.state().progress.found.warnings,
            result.directory_count == analysis.state().progress.found.directories,
            result.incomplete == analysis.state().progress.found.incomplete,
            self.governs(&analysis) ==> {
                &&& sizes_filtered(self.rules(), entry_views(result.entries@))
                &&& depths_bounded(self.rules(), entry_views(result.entries@))
                &&& count_bounded(self.rules(), entry_views(result.entries@))
                &&& none_ignored(self.rules(), entry_views(result.entries@))
                &&& result.incomplete ==> self.rules().max_files == Some(result.file_count)
            },
    {
        analysis.collector.finalize()
    }
}

/// The total size of a consistent result is the sum of the sizes of its
/// records, as long as that sum fits in 64 bits.
pub proof fn lemma_total_size_is_sum(result: AnalysisResult)
    requires
        result.consistent(),
        total_bytes(entry_views(result.entries@)) <= u64::MAX,
    ensures
        result.total_size == total_bytes(entry_views(result.entries@)),
{
}

/// The sum of the sizes grows by the size of a record that is appended.
pub proof fn lemma_total_bytes_push(entries: Seq<FileEntryView>, entry: FileEntryView)
    ensures
        total_bytes(entries.push(entry)) == total_bytes(entries) + entry.size,
        symlink_total(entries.push(entry)) == symlink_total(entries) + if entry.is_symlink {
            1nat
        } else {
            0nat
        },
{
    assert(entries.push(entry).drop_last() =~= entries);
}

/// The records without the one at `j`: its size less in the sum.
proof fn lemma_totals_without(b: Seq<FileEntryView>, j: int)
    requires
        0 <= j < b.len(),
    ensures
        total_bytes(b) == total_bytes(b.remove(j)) + b[j].size,
        symlink_total(b) == symlink_total(b.remove(j)) + if b[j].is_symlink {
            1nat
        } else {
            0nat
        },
    decreases b.len(),
{
    if j == b.len() - 1 {
        assert(b.remove(j) =~= b.drop_last());
    } else {
        let shorter = b.drop_last();
        lemma_totals_without(shorter, j);
        assert(b.remove(j).drop_last() =~= shorter.remove(j));
        assert(b.remove(j).last() == b.last());
        assert(shorter[j] == b[j]);
    }
}

/// Two lists that hold the same records, each as often as the other, have
/// the same length, the same sum of sizes and the same number of links.
pub proof fn lemma_bag_totals(a: Seq<FileEntryView>, b: Seq<FileEntryView>)
    requires
        bag(a) == bag(b),
    ensures
        a.len() == b.len(),
        total_bytes(a) == total_bytes(b),
        symlink_total(a) == symlink_total(b),
    decreases a.len(),
{
    lemma_bag_len(a);
    lemma_bag_len(b);
    if a.len() > 0 {
        let j = lemma_bag_peel(a, b);
        lemma_totals_without(b, j);
        lemma_bag_totals(a.drop_last(), b.remove(j));
    }
}

/// The number of links among the records is at most the number of records.
pub proof fn lemma_symlink_total_bound(entries: Seq<FileEntryView>)
    ensures
        symlink_total(entries) <= entries.len(),
    decreases entries.len(),
{
    if entries.len() > 0 {
        lemma_symlink_total_bound(entries.drop_last());
    }
}

} // verus!
