//! Traversal of a directory tree as a state machine.
//!
//! A traversal never touches the file system. It names a request, the caller
//! performs it and hands the reply to the next step, which names the next
//! request, until the traversal is finished. What a step does is the function
//! [`next`] of the state before it and of the reply.
//!
//! Every node is handled in the same way, whatever the strategy:
//!
//! - A path that the configuration ignores is skipped, with all below it.
//! - Once the file limit is reached the result is marked incomplete and the
//!   traversal ends.
//! - The path's own metadata is read; a failure is a warning, and the node
//!   is skipped.
//! - A link is checked against the directories entered so far; a link into
//!   one of them is a warning, and so is a link that cannot be resolved.
//! - A directory is marked as entered and counted, and its children are
//!   listed if it lies above the depth limit. A directory that cannot be
//!   resolved is a warning and is skipped.
//! - A file or link is classified and, if accepted, recorded.
//!
//! The strategies differ in where the children of a directory wait: in front
//! of the nodes that wait already (depth first) or behind them (breadth
//! first). The root has depth 0 and is not recorded; its children have depth
//! 1. Under a depth limit the directories above the limit are listed, so that
//! no node lies below it.

use vstd::prelude::*;
use crate::analyzer::{next_count, FileEntryView};
use crate::collector::{CollectorView, ResultCollector};
use crate::config::AnalyzerConfig;
use crate::fs::{FileMetadata, FsReply, FsRequest, RawEntryView, ReplyView, RequestView};
use crate::link_handler::{canonicalize_failure, with_path, GuardView, LinkHandler};
use crate::processor::{
    accepted_size, guard_after_link, guard_after_target, link_admitted, readable_target, record,
};
use crate::walker::{lists_children, readable, DirEntryView, DirectoryWalker};

pub mod breadth_first;
pub mod depth_first;
pub mod engine;
pub mod laws;
pub mod order;

pub use breadth_first::BreadthFirstTraversal;
pub use depth_first::DepthFirstTraversal;
pub use engine::{state_of, Stage, Walk, WalkView};

verus! {

/// A path that waits to be visited, with its depth.
#[derive(Debug, Clone)]
pub struct PendingNode {
    pub path: String,
    pub depth: usize,
}

/// The mathematical value of a [`PendingNode`].
pub struct NodeView {
    pub path: Seq<char>,
    pub depth: nat,
}

impl View for PendingNode {
    type V = NodeView;

    open spec fn view(&self) -> NodeView {
        NodeView { path: self.path@, depth: self.depth as nat }
    }
}

/// The views of the nodes, in the same order.
pub open spec fn node_views(nodes: Seq<PendingNode>) -> Seq<NodeView> {
    Seq::new(nodes.len(), |i: int| nodes[i]@)
}

/// The entries of a directory as nodes to visit.
pub open spec fn child_nodes(entries: Seq<DirEntryView>) -> Seq<NodeView> {
    Seq::new(entries.len(), |i: int| NodeView { path: entries[i].path, depth: entries[i].depth })
}

/// What a traversal waits for: the reply to the request it made last.
pub enum StageView {
    /// The metadata of the node itself.
    LinkMetadata(NodeView),
    /// The canonical path of a link, to see where it leads.
    Circular(NodeView, FileMetadata),
    /// The canonical path of a directory, to mark it as entered.
    Visit(NodeView),
    /// The metadata of what the node leads to.
    Target(NodeView, FileMetadata),
    /// The text of an accepted link, which has the given size.
    LinkTarget(NodeView, FileMetadata, u64),
    /// The children of a directory.
    Listing(NodeView),
    /// Nothing: the traversal is over.
    Done,
}

/// Everything that a traversal has reached, but for the stage it is in: the
/// nodes that wait, the guard, and what was found.
pub struct Progress {
    pub pending: Seq<NodeView>,
    pub guard: GuardView,
    pub found: CollectorView,
}

/// The state of a traversal between two steps.
pub struct State {
    pub stage: StageView,
    pub progress: Progress,
}

/// The request that a stage waits on.
pub open spec fn request_of(stage: StageView) -> RequestView {
    match stage {
        StageView::LinkMetadata(node) => RequestView::LinkMetadata(node.path),
        StageView::Circular(node, _) => RequestView::Canonicalize(node.path),
        StageView::Visit(node) => RequestView::Canonicalize(node.path),
        StageView::Target(node, _) => RequestView::Metadata(node.path),
        StageView::LinkTarget(node, _, _) => RequestView::ReadLink(node.path),
        StageView::Listing(node) => RequestView::ReadDir(node.path),
        StageView::Done => RequestView::Finished,
    }
}

/// Whether as many files were recorded as the configuration allows.
pub open spec fn at_limit(config: AnalyzerConfig, found: CollectorView) -> bool {
    config.max_files matches Some(max) && found.entries.len() >= max
}

/// The progress with one more warning.
pub open spec fn warned(p: Progress, text: Seq<char>) -> Progress {
    Progress { found: CollectorView { warnings: p.found.warnings.push(text), ..p.found }, ..p }
}

/// The progress with one more record.
pub open spec fn recorded(p: Progress, entry: FileEntryView) -> Progress {
    Progress { found: CollectorView { entries: p.found.entries.push(entry), ..p.found }, ..p }
}

/// The traversal in a stage, with the request that the stage waits on.
pub open spec fn awaiting(p: Progress, stage: StageView) -> (State, RequestView) {
    (State { stage, progress: p }, request_of(stage))
}

/// The warning for a path whose metadata could not be read.
pub open spec fn access_warning(path: Seq<char>, cause: Seq<char>) -> Seq<char> {
    "Cannot access "@ + path + ": "@ + cause
}

/// The warning for a link into a directory that was entered before.
pub open spec fn circular_warning(path: Seq<char>) -> Seq<char> {
    "Circular symlink detected: "@ + path
}

/// The warning for a directory that could not be marked as entered.
pub open spec fn mark_warning(path: Seq<char>, cause: Seq<char>) -> Seq<char> {
    "Failed to mark visited "@ + path + ": "@ + cause
}

/// The warning for a directory that could not be listed.
pub open spec fn listing_warning(path: Seq<char>, cause: Seq<char>) -> Seq<char> {
    "Cannot read directory "@ + path + ": "@ + cause
}

/// The message of the error for a path without canonical form.
pub open spec fn path_error_message(path: Seq<char>, cause: Seq<char>) -> Seq<char> {
    "Path error: "@ + canonicalize_failure(path, cause)
}

/// The message of the error for a failed read.
pub open spec fn io_error_message(cause: Seq<char>) -> Seq<char> {
    "IO error: "@ + cause
}

/// The nodes that wait once the children of a directory have joined them: in
/// front, depth first; behind, breadth first.
pub open spec fn merged(depth_first: bool, pending: Seq<NodeView>, children: Seq<NodeView>) -> Seq<
    NodeView,
> {
    if depth_first {
        children + pending
    } else {
        pending + children
    }
}

/// Moves on to the next node after one is dealt with: skips the nodes that
/// are ignored, ends at the file limit or when no node waits, and else asks
/// for the metadata of the first node that waits.
pub open spec fn settle(config: AnalyzerConfig, p: Progress) -> (State, RequestView)
    decreases p.pending.len(),
{
    if p.pending.len() == 0 {
        awaiting(p, StageView::Done)
    } else {
        let node = p.pending[0];
        let rest = Progress { pending: p.pending.drop_first(), ..p };
        if config.ignores(node.path) {
            settle(config, rest)
        } else if at_limit(config, p.found) {
            awaiting(
                Progress {
                    pending: Seq::empty(),
                    found: CollectorView { incomplete: true, ..p.found },
                    ..p
                },
                StageView::Done,
            )
        } else {
            awaiting(rest, StageView::LinkMetadata(node))
        }
    }
}

/// The step on the metadata of the node itself.
pub open spec fn after_link_metadata(
    config: AnalyzerConfig,
    p: Progress,
    node: NodeView,
    reply: Result<FileMetadata, Seq<char>>,
) -> (State, RequestView) {
    match reply {
        Err(cause) => settle(config, warned(p, access_warning(node.path, cause))),
        Ok(metadata) => if metadata.is_symlink() {
            awaiting(p, StageView::Circular(node, metadata))
        } else if metadata.is_dir() {
            awaiting(p, StageView::Visit(node))
        } else if metadata.is_file() {
            awaiting(p, StageView::Target(node, metadata))
        } else {
            settle(config, p)
        },
    }
}

/// The step on the canonical path of a link. A link without canonical path is
/// a warning, and so is one into a directory that was entered before. A link
/// that was seen before is skipped. Any other goes on to be classified.
pub open spec fn after_circular(
    config: AnalyzerConfig,
    p: Progress,
    node: NodeView,
    metadata: FileMetadata,
    reply: Result<Seq<char>, Seq<char>>,
) -> (State, RequestView) {
    match reply {
        Err(cause) => settle(
            config,
            warned(p, access_warning(node.path, path_error_message(node.path, cause))),
        ),
        Ok(canonical) => if p.guard.paths.contains(canonical) {
            settle(config, warned(p, circular_warning(node.path)))
        } else {
            let seen = Progress { guard: guard_after_link(p.guard, metadata), ..p };
            if link_admitted(p.guard, metadata) {
                awaiting(seen, StageView::Target(node, metadata))
            } else {
                settle(config, seen)
            }
        },
    }
}

/// Whether the children of a directory at this depth are listed: under a
/// depth limit, exactly if the directory lies above the limit.
pub open spec fn descends(config: AnalyzerConfig, depth: nat) -> bool {
    lists_children(depth, config.max_depth)
}

/// The step on the canonical path of a directory. A directory without
/// canonical path is a warning. Any other is marked as entered and counted,
/// and its children are asked for if it lies above the depth limit.
pub open spec fn after_visit(
    config: AnalyzerConfig,
    p: Progress,
    node: NodeView,
    reply: Result<Seq<char>, Seq<char>>,
) -> (State, RequestView) {
    match reply {
        Err(cause) => settle(
            config,
            warned(p, mark_warning(node.path, path_error_message(node.path, cause))),
        ),
        Ok(canonical) => {
            let entered = Progress {
                guard: with_path(p.guard, reply),
                found: CollectorView { directories: next_count(p.found.directories), ..p.found },
                ..p
            };
            if descends(config, node.depth) {
                awaiting(entered, StageView::Listing(node))
            } else {
                settle(config, entered)
            }
        },
    }
}

/// What a node leads to, from the reply to the request for its metadata.
pub open spec fn followed(reply: Result<FileMetadata, Seq<char>>) -> Option<FileMetadata> {
    match reply {
        Ok(metadata) => Some(metadata),
        Err(_) => None,
    }
}

/// The step on the metadata of what a node leads to: the node is recorded if
/// it is accepted, a link once its text is read.
pub open spec fn after_target(
    config: AnalyzerConfig,
    p: Progress,
    node: NodeView,
    metadata: FileMetadata,
    reply: Result<FileMetadata, Seq<char>>,
) -> (State, RequestView) {
    let seen = Progress {
        guard: guard_after_target(p.guard, config.min_file_size, metadata, followed(reply)),
        ..p
    };
    match accepted_size(p.guard, config.min_file_size, metadata, followed(reply)) {
        None => settle(config, seen),
        Some(size) => if metadata.is_symlink() {
            awaiting(seen, StageView::LinkTarget(node, metadata, size))
        } else {
            settle(config, recorded(seen, record(node.path, node.depth, size, metadata, None)))
        },
    }
}

/// The step on the text of an accepted link: the link is recorded, with the
/// text where it could be read.
pub open spec fn after_link_target(
    config: AnalyzerConfig,
    p: Progress,
    node: NodeView,
    metadata: FileMetadata,
    size: u64,
    reply: Result<Seq<char>, Seq<char>>,
) -> (State, RequestView) {
    settle(
        config,
        recorded(p, record(node.path, node.depth, size, metadata, readable_target(reply))),
    )
}

/// The step on the children of a directory: those with readable metadata
/// join the nodes that wait, one level deeper. A failed listing is a warning.
/// A directory at the depth limit or deeper has no children, whatever the
/// reply.
pub open spec fn after_listing(
    config: AnalyzerConfig,
    depth_first: bool,
    p: Progress,
    node: NodeView,
    reply: Result<Seq<RawEntryView>, Seq<char>>,
) -> (State, RequestView) {
    if !descends(config, node.depth) {
        settle(config, p)
    } else {
        match reply {
            Err(cause) => settle(
                config,
                warned(p, listing_warning(node.path, io_error_message(cause))),
            ),
            Ok(listing) => settle(
                config,
                Progress {
                    pending: merged(
                        depth_first,
                        p.pending,
                        child_nodes(readable(listing, node.depth + 1)),
                    ),
                    ..p
                },
            ),
        }
    }
}

/// The state in which a traversal of `root` starts, and its first request.
pub open spec fn start(config: AnalyzerConfig, root: Seq<char>, guard: GuardView, found: CollectorView)
    -> (State, RequestView) {
    settle(config, Progress { pending: seq![NodeView { path: root, depth: 0 }], guard, found })
}

/// One step of a traversal: the state and the request that follow from a
/// state and the reply to its request. A reply of the wrong kind changes
/// nothing, and the request is made again.
pub open spec fn next(config: AnalyzerConfig, depth_first: bool, s: State, reply: ReplyView) -> (
    State,
    RequestView,
) {
    match (s.stage, reply) {
        (StageView::LinkMetadata(node), ReplyView::Metadata(r)) => after_link_metadata(
            config,
            s.progress,
            node,
            r,
        ),
        (StageView::Circular(node, metadata), ReplyView::Path(r)) => after_circular(
            config,
            s.progress,
            node,
            metadata,
            r,
        ),
        (StageView::Visit(node), ReplyView::Path(r)) => after_visit(config, s.progress, node, r),
        (StageView::Target(node, metadata), ReplyView::Metadata(r)) => after_target(
            config,
            s.progress,
            node,
            metadata,
            r,
        ),
        (StageView::LinkTarget(node, metadata, size), ReplyView::Path(r)) => after_link_target(
            config,
            s.progress,
            node,
            metadata,
            size,
            r,
        ),
        (StageView::Listing(node), ReplyView::Entries(r)) => after_listing(
            config,
            depth_first,
            s.progress,
            node,
            r,
        ),
        _ => (s, request_of(s.stage)),
    }
}

/// A strategy of traversal: an order in which the nodes of a tree are
/// visited. Both strategies take the same steps; they differ in the order.
pub trait TraversalStrategy {
    /// Whether the children of a directory are visited before the nodes that
    /// wait already.
    spec fn depth_first(&self) -> bool;

    /// Starts a traversal at `root` and names its first request.
    fn begin(
        &self,
        root: &str,
        config: &AnalyzerConfig,
        link_handler: &LinkHandler,
        collector: &mut ResultCollector,
    ) -> (started: (Walk, FsRequest))
        requires
            old(collector).inv(),
        ensures
            final(collector).inv(),
            (state_of(started.0@, link_handler@, final(collector)@), started.1@) == start(
                *config,
                root@,
                link_handler@,
                old(collector)@,
            ),
    ;

    /// Takes the traversal one step further: handles the reply to the request
    /// made last and names the next request.
    fn resume(
        &self,
        walk: &mut Walk,
        config: &AnalyzerConfig,
        walker: &DirectoryWalker,
        link_handler: &mut LinkHandler,
        collector: &mut ResultCollector,
        reply: FsReply,
    ) -> (request: FsRequest)
        requires
            old(collector).inv(),
        ensures
            final(collector).inv(),
            (state_of(final(walk)@, final(link_handler)@, final(collector)@), request@) == next(
                *config,
                self.depth_first(),
                state_of(old(walk)@, old(link_handler)@, old(collector)@),
                reply@,
            ),
    ;
}

} // verus!
