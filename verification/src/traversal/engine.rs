//! The steps of a traversal in executable form.

use vstd::prelude::*;
use std::collections::VecDeque;
use crate::collector::{CollectorView, ResultCollector};
use crate::config::AnalyzerConfig;
use crate::fs::{
    entries_result_view, metadata_result_view, path_result_view, FileMetadata, FsReply,
    FsRequest, RawEntry,
};
use crate::link_handler::{GuardView, LinkHandler};
use crate::processor::FileProcessor;
use crate::text::{appended, labelled};
use crate::traversal::{
    after_circular, after_link_metadata, after_link_target, after_listing, after_target,
    after_visit, child_nodes, merged, next, node_views, settle, start, NodeView, PendingNode,
    Progress, State, StageView,
};
use crate::walker::{dir_entry_views, DirEntry, DirectoryWalker};

verus! {

/// What a traversal waits for: the reply to the request it made last.
#[derive(Debug)]
pub enum Stage {
    LinkMetadata(PendingNode),
    Circular(PendingNode, FileMetadata),
    Visit(PendingNode),
    Target(PendingNode, FileMetadata),
    LinkTarget(PendingNode, FileMetadata, u64),
    Listing(PendingNode),
    Done,
}

impl View for Stage {
    type V = StageView;

    open spec fn view(&self) -> StageView {
        match self {
            Stage::LinkMetadata(node) => StageView::LinkMetadata(node@),
            Stage::Circular(node, metadata) => StageView::Circular(node@, *metadata),
            Stage::Visit(node) => StageView::Visit(node@),
            Stage::Target(node, metadata) => StageView::Target(node@, *metadata),
            Stage::LinkTarget(node, metadata, size) => StageView::LinkTarget(
                node@,
                *metadata,
                *size,
            ),
            Stage::Listing(node) => StageView::Listing(node@),
            Stage::Done => StageView::Done,
        }
    }
}

impl Stage {
    /// The request that the stage waits on.
    pub fn request(&self) -> (request: FsRequest)
        ensures
            request@ == crate::traversal::request_of(self@),
    {
        match self {
            Stage::LinkMetadata(node) => FsRequest::LinkMetadata(node.path.clone()),
            Stage::Circular(node, _) => FsRequest::Canonicalize(node.path.clone()),
            Stage::Visit(node) => FsRequest::Canonicalize(node.path.clone()),
            Stage::Target(node, _) => FsRequest::Metadata(node.path.clone()),
            Stage::LinkTarget(node, _, _) => FsRequest::ReadLink(node.path.clone()),
            Stage::Listing(node) => FsRequest::ReadDir(node.path.clone()),
            Stage::Done => FsRequest::Finished,
        }
    }
}

/// The part of a traversal that is its own: the stage it is in and the nodes
/// that wait. The guard and the collector are handed to every step.
#[derive(Debug)]
pub struct Walk {
    pending: VecDeque<PendingNode>,
    stage: Stage,
}

/// The mathematical value of a [`Walk`].
pub struct WalkView {
    pub stage: StageView,
    pub pending: Seq<NodeView>,
}

impl View for Walk {
    type V = WalkView;

    closed spec fn view(&self) -> WalkView {
        WalkView { stage: self.stage@, pending: node_views(self.pending@) }
    }
}

/// The state of a traversal, from its parts.
pub open spec fn state_of(walk: WalkView, guard: GuardView, found: CollectorView) -> State {
    State { stage: walk.stage, progress: Progress { pending: walk.pending, guard, found } }
}

impl Walk {
    /// Whether the traversal is over.
    pub fn is_finished(&self) -> (finished: bool)
        ensures
            finished == (self@.stage is Done),
    {
        match self.stage {
            Stage::Done => true,
            _ => false,
        }
    }

    /// Starts a traversal at `root` and names its first request.
    pub fn begin(
        root: &str,
        config: &AnalyzerConfig,
        link_handler: &LinkHandler,
        collector: &mut ResultCollector,
    ) -> (started: (Walk, FsRequest))
        requires
            old(collector).inv(),
        ensures
            final(collector).inv(),
            (state_of(started.0@, link_handler@, final(collector)@), started.1@) == start(
                *config,
                root@,
                link_handler@,
                old(collector)@,
            ),
    {
        let mut pending: VecDeque<PendingNode> = VecDeque::new();
        pending.push_back(PendingNode { path: root.to_owned(), depth: 0 });
        let mut walk = Walk { pending, stage: Stage::Done };
        assert(walk@.pending =~= seq![NodeView { path: root@, depth: 0 }]);
        let request = walk.settle(config, collector, Ghost(link_handler@));
        (walk, request)
    }

    /// Takes one step: handles the reply to the request made last and names
    /// the next request.
    pub fn step(
        &mut self,
        depth_first: bool,
        config: &AnalyzerConfig,
        walker: &DirectoryWalker,
        link_handler: &mut LinkHandler,
        collector: &mut ResultCollector,
        reply: FsReply,
    ) -> (request: FsRequest)
        requires
            old(collector).inv(),
        ensures
            final(collector).inv(),
            (state_of(final(self)@, final(link_handler)@, final(collector)@), request@) == next(
                *config,
                depth_first,
                state_of(old(self)@, old(link_handler)@, old(collector)@),
                reply@,
            ),
    {
        let mut stage = Stage::Done;
        core::mem::swap(&mut self.stage, &mut stage);
        match (stage, reply) {
            (Stage::LinkMetadata(node), FsReply::Metadata(r)) => self.on_link_metadata(
                config,
                link_handler,
                collector,
                node,
                r,
            ),
            (Stage::Circular(node, metadata), FsReply::Path(r)) => self.on_circular(
                config,
                link_handler,
                collector,
                node,
                metadata,
                r,
            ),
            (Stage::Visit(node), FsReply::Path(r)) => self.on_visit(
                config,
                link_handler,
                collector,
                node,
                r,
            ),
            (Stage::Target(node, metadata), FsReply::Metadata(r)) => self.on_target(
                config,
                link_handler,
                collector,
                node,
                metadata,
                r,
            ),
            (Stage::LinkTarget(node, metadata, size), FsReply::Path(r)) => self.on_link_target(
                config,
                link_handler,
                collector,
                node,
                metadata,
                size,
                r,
            ),
            (Stage::Listing(node), FsReply::Entries(r)) => self.on_listing(
                config,
                depth_first,
                walker,
                link_handler,
                collector,
                node,
                r,
            ),
            (stage, _) => {
                let request = stage.request();
                self.stage = stage;
                request
            },
        }
    }

    fn wait(&mut self, stage: Stage) -> (request: FsRequest)
        ensures
            final(self)@ == (WalkView { stage: stage@, pending: old(self)@.pending }),
            request@ == crate::traversal::request_of(stage@),
    {
        let request = stage.request();
        self.stage = stage;
        request
    }

    fn settle(
        &mut self,
        config: &AnalyzerConfig,
        collector: &mut ResultCollector,
        Ghost(guard): Ghost<GuardView>,
    ) -> (request: FsRequest)
        requires
            old(collector).inv(),
        ensures
            final(collector).inv(),
            (state_of(final(self)@, guard, final(collector)@), request@) == settle(
                *config,
                Progress { pending: old(self)@.pending, guard, found: old(collector)@ },
            ),
    {
        let ghost goal = settle(
            *config,
            Progress { pending: old(self)@.pending, guard, found: old(collector)@ },
        );
        loop
            invariant
                collector.inv(),
                collector@ == old(collector)@,
                goal == settle(
                    *config,
                    Progress { pending: old(self)@.pending, guard, found: old(collector)@ },
                ),
                settle(*config, Progress { pending: self@.pending, guard, found: collector@ })
                    == goal,
            decreases self.pending@.len(),
        {
            let ghost waiting = self@.pending;
            match self.pending.pop_front() {
                None => {
                    self.stage = Stage::Done;
                    return FsRequest::Finished;
                },
                Some(node) => {
                    assert(self@.pending =~= waiting.drop_first());
                    assert(node@ == waiting[0]);
                    if config.should_ignore(node.path.as_str()) {
                        continue ;
                    }
                    let full = match config.max_files {
                        Some(max) => collector.file_count() >= max,
                        None => false,
                    };
                    if full {
                        collector.set_incomplete(true);
                        self.pending.clear();
                        self.stage = Stage::Done;
                        assert(self@.pending =~= Seq::<NodeView>::empty());
                        return FsRequest::Finished;
                    }
                    return self.wait(Stage::LinkMetadata(node));
                },
            }
        }
    }

    fn on_link_metadata(
        &mut self,
        config: &AnalyzerConfig,
        link_handler: &LinkHandler,
        collector: &mut ResultCollector,
        node: PendingNode,
        reply: Result<FileMetadata, String>,
    ) -> (request: FsRequest)
        requires
            old(collector).inv(),
        ensures
            final(collector).inv(),
            (state_of(final(self)@, link_handler@, final(collector)@), request@)
                == after_link_metadata(
                *config,
                Progress {
                    pending: old(self)@.pending,
                    guard: link_handler@,
                    found: old(collector)@,
                },
                node@,
                metadata_result_view(reply),
            ),
    {
        match reply {
            Err(cause) => {
                collector.add_warning(
                    labelled("Cannot access ", node.path.as_str(), cause.as_str()),
                );
                self.settle(config, collector, Ghost(link_handler@))
            },
            Ok(metadata) => {
                if metadata.is_symlink() {
                    self.wait(Stage::Circular(node, metadata))
                } else if metadata.is_dir() {
                    self.wait(Stage::Visit(node))
                } else if metadata.is_file() {
                    self.wait(Stage::Target(node, metadata))
                } else {
                    self.settle(config, collector, Ghost(link_handler@))
                }
            },
        }
    }

    fn on_circular(
        &mut self,
        config: &AnalyzerConfig,
        link_handler: &mut LinkHandler,
        collector: &mut ResultCollector,
        node: PendingNode,
        metadata: FileMetadata,
        reply: Result<String, String>,
    ) -> (request: FsRequest)
        requires
            old(collector).inv(),
        ensures
            final(collector).inv(),
            (state_of(final(self)@, final(link_handler)@, final(collector)@), request@)
                == after_circular(
                *config,
                Progress {
                    pending: old(self)@.pending,
                    guard: old(link_handler)@,
                    found: old(collector)@,
                },
                node@,
                metadata,
                path_result_view(reply),
            ),
    {
        match link_handler.is_circular(node.path.as_str(), reply) {
            Err(e) => {
                let cause = e.message();
                collector.add_warning(
                    labelled("Cannot access ", node.path.as_str(), cause.as_str()),
                );
                self.settle(config, collector, Ghost(link_handler@))
            },
            Ok(true) => {
                collector.add_warning(appended("Circular symlink detected: ", node.path.as_str()));
                self.settle(config, collector, Ghost(link_handler@))
            },
            Ok(false) => {
                let processor = FileProcessor::new(config);
                if processor.admit_link(link_handler, &metadata) {
                    self.wait(Stage::Target(node, metadata))
                } else {
                    self.settle(config, collector, Ghost(link_handler@))
                }
            },
        }
    }

    fn on_visit(
        &mut self,
        config: &AnalyzerConfig,
        link_handler: &mut LinkHandler,
        collector: &mut ResultCollector,
        node: PendingNode,
        reply: Result<String, String>,
    ) -> (request: FsRequest)
        requires
            old(collector).inv(),
        ensures
            final(collector).inv(),
            (state_of(final(self)@, final(link_handler)@, final(collector)@), request@)
                == after_visit(
                *config,
                Progress {
                    pending: old(self)@.pending,
                    guard: old(link_handler)@,
                    found: old(collector)@,
                },
                node@,
                path_result_view(reply),
            ),
    {
        match link_handler.mark_visited(node.path.as_str(), reply) {
            Err(e) => {
                let cause = e.message();
                collector.add_warning(
                    labelled("Failed to mark visited ", node.path.as_str(), cause.as_str()),
                );
                self.settle(config, collector, Ghost(link_handler@))
            },
            Ok(_) => {
                collector.increment_directory_count();
                let walker = DirectoryWalker::new();
                if node.depth < usize::MAX && walker.should_traverse_depth(
                    node.depth + 1,
                    config.max_depth,
                ) {
                    self.wait(Stage::Listing(node))
                } else {
                    self.settle(config, collector, Ghost(link_handler@))
                }
            },
        }
    }

    fn on_target(
        &mut self,
        config: &AnalyzerConfig,
        link_handler: &mut LinkHandler,
        collector: &mut ResultCollector,
        node: PendingNode,
        metadata: FileMetadata,
        reply: Result<FileMetadata, String>,
    ) -> (request: FsRequest)
        requires
            old(collector).inv(),
        ensures
            final(collector).inv(),
            (state_of(final(self)@, final(link_handler)@, final(collector)@), request@)
                == after_target(
                *config,
                Progress {
                    pending: old(self)@.pending,
                    guard: old(link_handler)@,
                    found: old(collector)@,
                },
                node@,
                metadata,
                metadata_result_view(reply),
            ),
    {
        let processor = FileProcessor::new(config);
        let followed = match reply {
            Ok(m) => Some(m),
            Err(_) => None,
        };
        match processor.accept(link_handler, &metadata, followed) {
            None => self.settle(config, collector, Ghost(link_handler@)),
            Some(size) => {
                if metadata.is_symlink() {
                    self.wait(Stage::LinkTarget(node, metadata, size))
                } else {
                    collector.add_entry(
                        FileProcessor::entry(node.path, node.depth, size, &metadata, None),
                    );
                    self.settle(config, collector, Ghost(link_handler@))
                }
            },
        }
    }

    fn on_link_target(
        &mut self,
        config: &AnalyzerConfig,
        link_handler: &LinkHandler,
        collector: &mut ResultCollector,
        node: PendingNode,
        metadata: FileMetadata,
        size: u64,
        reply: Result<String, String>,
    ) -> (request: FsRequest)
        requires
            old(collector).inv(),
        ensures
            final(collector).inv(),
            (state_of(final(self)@, link_handler@, final(collector)@), request@)
                == after_link_target(
                *config,
                Progress {
                    pending: old(self)@.pending,
                    guard: link_handler@,
                    found: old(collector)@,
                },
                node@,
                metadata,
                size,
                path_result_view(reply),
            ),
    {
        let target = match link_handler.resolve_link(node.path.as_str(), reply) {
            Ok(text) => Some(text),
            Err(_) => None,
        };
        collector.add_entry(FileProcessor::entry(node.path, node.depth, size, &metadata, target));
        self.settle(config, collector, Ghost(link_handler@))
    }

    fn on_listing(
        &mut self,
        config: &AnalyzerConfig,
        depth_first: bool,
        walker: &DirectoryWalker,
        link_handler: &LinkHandler,
        collector: &mut ResultCollector,
        node: PendingNode,
        reply: Result<Vec<RawEntry>, String>,
    ) -> (request: FsRequest)
        requires
            old(collector).inv(),
        ensures
            final(collector).inv(),
            (state_of(final(self)@, link_handler@, final(collector)@), request@) == after_listing(
                *config,
                depth_first,
                Progress {
                    pending: old(self)@.pending,
                    guard: link_handler@,
                    found: old(collector)@,
                },
                node@,
                entries_result_view(reply),
            ),
    {
        if node.depth == usize::MAX {
            return self.settle(config, collector, Ghost(link_handler@));
        }
        match walker.read_dir(reply, node.depth + 1, config.max_depth) {
            Err(e) => {
                let cause = e.message();
                collector.add_warning(
                    labelled("Cannot read directory ", node.path.as_str(), cause.as_str()),
                );
                self.settle(config, collector, Ghost(link_handler@))
            },
            Ok(entries) => {
                let ghost waiting = self@.pending;
                self.enqueue(depth_first, entries);
                assert(merged(depth_first, waiting, Seq::<NodeView>::empty()) =~= waiting);
                self.settle(config, collector, Ghost(link_handler@))
            },
        }
    }

    fn enqueue(&mut self, depth_first: bool, entries: Vec<DirEntry>)
        ensures
            final(self)@ == (WalkView {
                stage: old(self)@.stage,
                pending: merged(
                    depth_first,
                    old(self)@.pending,
                    child_nodes(dir_entry_views(entries@)),
                ),
            }),
    {
        let ghost waiting = self@.pending;
        let ghost children = child_nodes(dir_entry_views(entries@));
        if depth_first {
            let mut entries = entries;
            while entries.len() > 0
                invariant
                    self@.stage == old(self)@.stage,
                    entries@.len() <= children.len(),
                    child_nodes(dir_entry_views(entries@)) == children.take(entries@.len() as int),
                    self@.pending == children.skip(entries@.len() as int) + waiting,
                decreases entries@.len(),
            {
                let ghost before = self@.pending;
                let ghost left = entries@.len();
                let entry = entries.pop().unwrap();
                assert(child_nodes(dir_entry_views(entries@)) =~= children.take(left - 1));
                assert(children.take(left as int)[left - 1] == NodeView {
                    path: entry.path@,
                    depth: entry.depth as nat,
                });
                self.pending.push_front(PendingNode { path: entry.path, depth: entry.depth });
                assert(self@.pending =~= seq![children[left - 1]] + before);
                assert(self@.pending =~= children.skip(left - 1) + waiting);
            }
            assert(children.skip(0) =~= children);
        } else {
            for entry in it: entries.into_iter()
                invariant
                    self@.stage == old(self)@.stage,
                    child_nodes(dir_entry_views(it.seq())) == children,
                    self@.pending == waiting + children.take(it.index() as int),
            {
                let ghost before = self@.pending;
                let ghost at = it.index() as int;
                assert(children[at] == NodeView { path: entry.path@, depth: entry.depth as nat });
                self.pending.push_back(PendingNode { path: entry.path, depth: entry.depth });
                assert(self@.pending =~= before.push(children[at]));
                assert(self@.pending =~= waiting + children.take(at + 1));
            }
            assert(children.take(children.len() as int) =~= children);
        }
    }
}

} // verus!
