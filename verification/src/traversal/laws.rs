//! What holds of every traversal, whatever the file system replies.

use vstd::prelude::*;
use crate::analyzer::{next_count, FileEntryView};
use crate::collector::CollectorView;
use crate::config::AnalyzerConfig;
use crate::fs::{FileMetadata, RawEntryView, ReplyView, RequestView};
use crate::link_handler::{with_path, GuardView};
use crate::processor::{
    accepted_size, guard_after_link, guard_after_target, readable_target, record,
};
use crate::traversal::{
    access_warning, after_circular, after_link_metadata, after_link_target, after_listing,
    after_target, after_visit, at_limit, child_nodes, circular_warning, descends, followed,
    io_error_message, listing_warning, mark_warning, merged, next, path_error_message, recorded,
    request_of, settle, start, warned, NodeView, Progress, StageView, State,
};
use crate::walker::readable;

verus! {

/// The node that a stage is about, if it is about one.
pub open spec fn stage_node(stage: StageView) -> Option<NodeView> {
    match stage {
        StageView::LinkMetadata(node) => Some(node),
        StageView::Circular(node, _) => Some(node),
        StageView::Visit(node) => Some(node),
        StageView::Target(node, _) => Some(node),
        StageView::LinkTarget(node, _, _) => Some(node),
        StageView::Listing(node) => Some(node),
        StageView::Done => None,
    }
}

/// No record is smaller than the least size of the configuration.
pub open spec fn sizes_filtered(config: AnalyzerConfig, entries: Seq<FileEntryView>) -> bool {
    forall|i: int| 0 <= i < entries.len() ==> (#[trigger] entries[i]).size >= config.min_file_size
}

/// Under a depth limit, no record lies deeper than the limit. The children
/// of the root have depth 1.
pub open spec fn depths_bounded(config: AnalyzerConfig, entries: Seq<FileEntryView>) -> bool {
    config.max_depth matches Some(max) ==> forall|i: int|
        0 <= i < entries.len() ==> (#[trigger] entries[i]).depth <= max
}

/// No record has a path that the configuration ignores.
pub open spec fn none_ignored(config: AnalyzerConfig, entries: Seq<FileEntryView>) -> bool {
    forall|i: int| 0 <= i < entries.len() ==> !config.ignores((#[trigger] entries[i]).path)
}

/// Under a file limit, there are no more records than the limit.
pub open spec fn count_bounded(config: AnalyzerConfig, entries: Seq<FileEntryView>) -> bool {
    config.max_files matches Some(max) ==> entries.len() <= max
}

/// The state of a traversal keeps to the limits of the configuration: the
/// records to the size filter, the depth limit, the file limit and the ignore
/// patterns; the nodes that wait to the depth limit; the node that is dealt
/// with is not ignored; a directory whose children were asked for does not
/// lie at the depth limit or beyond it; and a traversal that is marked
/// incomplete has ended at the file limit.
pub open spec fn respects_limits(config: AnalyzerConfig, s: State) -> bool {
    let found = s.progress.found;
    &&& sizes_filtered(config, found.entries)
    &&& depths_bounded(config, found.entries)
    &&& count_bounded(config, found.entries)
    &&& none_ignored(config, found.entries)
    &&& stage_node(s.stage) matches Some(node) ==> !config.ignores(node.path)
    &&& s.stage matches StageView::LinkTarget(_, _, size) ==> size >= config.min_file_size
    &&& s.stage matches StageView::Listing(node) ==> descends(config, node.depth)
    &&& (s.stage !is Done && config.max_files is Some) ==> found.entries.len()
        < config.max_files->0
    &&& found.incomplete ==> s.stage is Done && at_limit(config, found)
    &&& config.max_depth matches Some(max) ==> {
        &&& forall|i: int|
            0 <= i < s.progress.pending.len() ==> (#[trigger] s.progress.pending[i]).depth <= max
        &&& stage_node(s.stage) matches Some(node) ==> node.depth <= max
    }
}

/// Moving on to the next node changes neither the guard nor what was found,
/// but for the mark of an incomplete traversal, which it sets exactly where
/// it ends at the file limit with a node still waiting that is not ignored.
/// It ends, or asks for the metadata of a node that waited. The nodes that
/// wait afterwards waited before.
pub proof fn lemma_settle(config: AnalyzerConfig, p: Progress)
    ensures
        ({
            let (s, r) = settle(config, p);
            &&& r == request_of(s.stage)
            &&& s.progress.guard == p.guard
            &&& s.progress.found.entries == p.found.entries
            &&& s.progress.found.warnings == p.found.warnings
            &&& s.progress.found.directories == p.found.directories
            &&& forall|i: int|
                0 <= i < s.progress.pending.len() ==> exists|j: int|
                    0 <= j < p.pending.len() && p.pending[j] == #[trigger] s.progress.pending[i]
            &&& match s.stage {
                StageView::Done => {
                    &&& s.progress.pending.len() == 0
                    &&& s.progress.found.incomplete ==> p.found.incomplete || at_limit(
                        config,
                        p.found,
                    )
                },
                StageView::LinkMetadata(node) => {
                    &&& exists|j: int| 0 <= j < p.pending.len() && p.pending[j] == node
                    &&& !config.ignores(node.path)
                    &&& !at_limit(config, p.found)
                    &&& s.progress.found.incomplete == p.found.incomplete
                },
                _ => false,
            }
        }),
    decreases p.pending.len(),
{
    if p.pending.len() > 0 {
        let node = p.pending[0];
        let rest = Progress { pending: p.pending.drop_first(), ..p };
        if config.ignores(node.path) {
            lemma_settle(config, rest);
            let (s, r) = settle(config, rest);
            assert forall|i: int| 0 <= i < s.progress.pending.len() implies exists|j: int|
                0 <= j < p.pending.len() && p.pending[j] == #[trigger] s.progress.pending[i] by {
                let j = choose|j: int|
                    0 <= j < rest.pending.len() && rest.pending[j] == s.progress.pending[i];
                assert(p.pending[j + 1] == s.progress.pending[i]);
            }
            if s.stage is LinkMetadata {
                let j = choose|j: int|
                    0 <= j < rest.pending.len() && rest.pending[j] == s.stage->LinkMetadata_0;
                assert(p.pending[j + 1] == s.stage->LinkMetadata_0);
            }
        } else if at_limit(config, p.found) {
        } else {
            assert forall|i: int| 0 <= i < rest.pending.len() implies exists|j: int|
                0 <= j < p.pending.len() && p.pending[j] == #[trigger] rest.pending[i] by {
                assert(p.pending[i + 1] == rest.pending[i]);
            }
            assert(p.pending[0] == node);
        }
    }
}

/// A traversal that starts with nothing found keeps to the limits.
pub proof fn lemma_start_respects(
    config: AnalyzerConfig,
    root: Seq<char>,
    guard: GuardView,
    found: CollectorView,
)
    requires
        found.entries.len() == 0,
        !found.incomplete,
    ensures
        respects_limits(config, start(config, root, guard, found).0),
        start(config, root, guard, found).1 == request_of(start(config, root, guard, found).0.stage),
{
    let p = Progress { pending: seq![NodeView { path: root, depth: 0 }], guard, found };
    lemma_settle(config, p);
    lemma_settled_respects(config, p);
}

/// The limits as they hold of the progress between two nodes.
spec fn progress_respects(config: AnalyzerConfig, p: Progress) -> bool {
    &&& sizes_filtered(config, p.found.entries)
    &&& depths_bounded(config, p.found.entries)
    &&& count_bounded(config, p.found.entries)
    &&& none_ignored(config, p.found.entries)
    &&& !p.found.incomplete
    &&& config.max_depth matches Some(max) ==> forall|i: int|
        0 <= i < p.pending.len() ==> (#[trigger] p.pending[i]).depth <= max
}

proof fn lemma_settled_respects(config: AnalyzerConfig, p: Progress)
    requires
        progress_respects(config, p),
    ensures
        respects_limits(config, settle(config, p).0),
{
    lemma_settle(config, p);
    let (s, r) = settle(config, p);
    if config.max_depth is Some {
        let max = config.max_depth->0;
        assert forall|i: int| 0 <= i < s.progress.pending.len() implies (
        #[trigger] s.progress.pending[i]).depth <= max by {
            let j = choose|j: int|
                0 <= j < p.pending.len() && p.pending[j] == s.progress.pending[i];
        }
        if s.stage is LinkMetadata {
            let node = s.stage->LinkMetadata_0;
            let j = choose|j: int| 0 <= j < p.pending.len() && p.pending[j] == node;
            assert(p.pending[j].depth <= max);
        }
    }
}

proof fn lemma_readable_depth(listing: Seq<RawEntryView>, depth: nat)
    ensures
        forall|i: int|
            0 <= i < readable(listing, depth).len() ==> (#[trigger] readable(
                listing,
                depth,
            )[i]).depth == depth,
    decreases listing.len(),
{
    if listing.len() > 0 {
        lemma_readable_depth(listing.drop_last(), depth);
    }
}

/// What holds of the progress while a node is dealt with, under the limits.
spec fn busy_respects(config: AnalyzerConfig, p: Progress, node: NodeView) -> bool {
    &&& progress_respects(config, p)
    &&& config.max_files matches Some(max) ==> p.found.entries.len() < max
    &&& config.max_depth matches Some(max) ==> node.depth <= max
    &&& !config.ignores(node.path)
}

/// The result of a step keeps to the limits and names the request of its
/// stage.
spec fn sound(config: AnalyzerConfig, out: (State, RequestView)) -> bool {
    respects_limits(config, out.0) && out.1 == request_of(out.0.stage)
}

proof fn lemma_settled_sound(config: AnalyzerConfig, p: Progress)
    requires
        progress_respects(config, p),
    ensures
        sound(config, settle(config, p)),
{
    lemma_settle(config, p);
    lemma_settled_respects(config, p);
}

proof fn lemma_link_metadata_sound(
    config: AnalyzerConfig,
    p: Progress,
    node: NodeView,
    r: Result<FileMetadata, Seq<char>>,
)
    requires
        busy_respects(config, p, node),
    ensures
        sound(config, after_link_metadata(config, p, node, r)),
{
    match r {
        Err(cause) => {
            lemma_settled_sound(
                config,
                warned(p, access_warning(node.path, cause)),
            );
        },
        Ok(metadata) => {
            lemma_settled_sound(config, p);
        },
    }
}

proof fn lemma_circular_sound(
    config: AnalyzerConfig,
    p: Progress,
    node: NodeView,
    metadata: FileMetadata,
    r: Result<Seq<char>, Seq<char>>,
)
    requires
        busy_respects(config, p, node),
    ensures
        sound(config, after_circular(config, p, node, metadata, r)),
{
    match r {
        Err(cause) => {
            lemma_settled_sound(
                config,
                warned(
                    p,
                    access_warning(
                        node.path,
                        path_error_message(node.path, cause),
                    ),
                ),
            );
        },
        Ok(canonical) => {
            lemma_settled_sound(
                config,
                warned(p, circular_warning(node.path)),
            );
            lemma_settled_sound(
                config,
                Progress { guard: guard_after_link(p.guard, metadata), ..p },
            );
        },
    }
}

proof fn lemma_visit_sound(
    config: AnalyzerConfig,
    p: Progress,
    node: NodeView,
    r: Result<Seq<char>, Seq<char>>,
)
    requires
        busy_respects(config, p, node),
    ensures
        sound(config, after_visit(config, p, node, r)),
{
    match r {
        Err(cause) => {
            lemma_settled_sound(
                config,
                warned(
                    p,
                    mark_warning(
                        node.path,
                        path_error_message(node.path, cause),
                    ),
                ),
            );
        },
        Ok(canonical) => {
            lemma_settled_sound(
                config,
                Progress {
                    guard: with_path(p.guard, r),
                    found: CollectorView {
                        directories: next_count(p.found.directories),
                        ..p.found
                    },
                    ..p
                },
            );
        },
    }
}

proof fn lemma_target_sound(
    config: AnalyzerConfig,
    p: Progress,
    node: NodeView,
    metadata: FileMetadata,
    r: Result<FileMetadata, Seq<char>>,
)
    requires
        busy_respects(config, p, node),
    ensures
        sound(config, after_target(config, p, node, metadata, r)),
{
    let seen = Progress {
        guard: guard_after_target(
            p.guard,
            config.min_file_size,
            metadata,
            followed(r),
        ),
        ..p
    };
    lemma_settled_sound(config, seen);
    match accepted_size(p.guard, config.min_file_size, metadata, followed(r)) {
        None => {},
        Some(size) => {
            let entry = record(node.path, node.depth, size, metadata, None);
            let q = recorded(seen, entry);
            assert(size >= config.min_file_size);
            assert(progress_respects(config, q)) by {
                assert forall|i: int| 0 <= i < q.found.entries.len() implies (
                #[trigger] q.found.entries[i]).size >= config.min_file_size && (config.max_depth
                    is Some ==> q.found.entries[i].depth <= config.max_depth->0)
                    && !config.ignores(q.found.entries[i].path) by {
                    if i < p.found.entries.len() {
                        assert(q.found.entries[i] == p.found.entries[i]);
                    }
                }
            }
            lemma_settled_sound(config, q);
        },
    }
}

proof fn lemma_link_target_sound(
    config: AnalyzerConfig,
    p: Progress,
    node: NodeView,
    metadata: FileMetadata,
    size: u64,
    r: Result<Seq<char>, Seq<char>>,
)
    requires
        busy_respects(config, p, node),
        size >= config.min_file_size,
    ensures
        sound(config, after_link_target(config, p, node, metadata, size, r)),
{
    let entry = record(
        node.path,
        node.depth,
        size,
        metadata,
        readable_target(r),
    );
    let q = recorded(p, entry);
    assert(progress_respects(config, q)) by {
        assert forall|i: int| 0 <= i < q.found.entries.len() implies (
        #[trigger] q.found.entries[i]).size >= config.min_file_size && (config.max_depth
            is Some ==> q.found.entries[i].depth <= config.max_depth->0) && !config.ignores(
            q.found.entries[i].path,
        ) by {
            if i < p.found.entries.len() {
                assert(q.found.entries[i] == p.found.entries[i]);
            }
        }
    }
    lemma_settled_sound(config, q);
}

proof fn lemma_listing_sound(
    config: AnalyzerConfig,
    depth_first: bool,
    p: Progress,
    node: NodeView,
    r: Result<Seq<RawEntryView>, Seq<char>>,
)
    requires
        busy_respects(config, p, node),
    ensures
        sound(config, after_listing(config, depth_first, p, node, r)),
{
    lemma_settled_sound(config, p);
    if descends(config, node.depth) {
        match r {
            Err(cause) => {
                lemma_settled_sound(
                    config,
                    warned(
                        p,
                        listing_warning(
                            node.path,
                            io_error_message(cause),
                        ),
                    ),
                );
            },
            Ok(listing) => {
                let children = child_nodes(readable(listing, node.depth + 1));
                lemma_readable_depth(listing, node.depth + 1);
                let q = Progress { pending: merged(depth_first, p.pending, children), ..p };
                assert(progress_respects(config, q)) by {
                    if config.max_depth is Some {
                        let max = config.max_depth->0;
                        assert forall|i: int| 0 <= i < q.pending.len() implies (
                        #[trigger] q.pending[i]).depth <= max by {
                            if depth_first {
                                if i < children.len() {
                                    assert(q.pending[i] == children[i]);
                                } else {
                                    assert(q.pending[i] == p.pending[i - children.len()]);
                                }
                            } else {
                                if i < p.pending.len() {
                                    assert(q.pending[i] == p.pending[i]);
                                } else {
                                    assert(q.pending[i] == children[i - p.pending.len()]);
                                }
                            }
                        }
                    }
                }
                lemma_settled_sound(config, q);
            },
        }
    }
}

/// A step keeps a traversal to the limits, and the request it names is the
/// one that the new stage waits on.
pub proof fn lemma_next_respects(
    config: AnalyzerConfig,
    depth_first: bool,
    s: State,
    reply: ReplyView,
)
    requires
        respects_limits(config, s),
    ensures
        respects_limits(config, next(config, depth_first, s, reply).0),
        next(config, depth_first, s, reply).1 == request_of(
            next(config, depth_first, s, reply).0.stage,
        ),
{
    let p = s.progress;
    match (s.stage, reply) {
        (StageView::LinkMetadata(node), ReplyView::Metadata(r)) => {
            lemma_link_metadata_sound(config, p, node, r);
        },
        (StageView::Circular(node, metadata), ReplyView::Path(r)) => {
            lemma_circular_sound(config, p, node, metadata, r);
        },
        (StageView::Visit(node), ReplyView::Path(r)) => {
            lemma_visit_sound(config, p, node, r);
        },
        (StageView::Target(node, metadata), ReplyView::Metadata(r)) => {
            lemma_target_sound(config, p, node, metadata, r);
        },
        (StageView::LinkTarget(node, metadata, size), ReplyView::Path(r)) => {
            lemma_link_target_sound(config, p, node, metadata, size, r);
        },
        (StageView::Listing(node), ReplyView::Entries(r)) => {
            lemma_listing_sound(config, depth_first, p, node, r);
        },
        _ => {},
    }
}

/// No request names a path that the configuration ignores.
pub proof fn lemma_asks_nothing_of_ignored(
    config: AnalyzerConfig,
    depth_first: bool,
    s: State,
    reply: ReplyView,
)
    requires
        respects_limits(config, s),
    ensures
        match next(config, depth_first, s, reply).1 {
            RequestView::LinkMetadata(path) => !config.ignores(path),
            RequestView::Canonicalize(path) => !config.ignores(path),
            RequestView::Metadata(path) => !config.ignores(path),
            RequestView::ReadLink(path) => !config.ignores(path),
            RequestView::ReadDir(path) => !config.ignores(path),
            RequestView::Finished => true,
        },
{
    lemma_next_respects(config, depth_first, s, reply);
}

/// What the guard knows it goes on knowing.
pub proof fn lemma_guard_grows(
    config: AnalyzerConfig,
    depth_first: bool,
    s: State,
    reply: ReplyView,
)
    ensures
        s.progress.guard.paths.subset_of(next(config, depth_first, s, reply).0.progress.guard.paths),
        s.progress.guard.identities.subset_of(
            next(config, depth_first, s, reply).0.progress.guard.identities,
        ),
{
    let p = s.progress;
    let out = next(config, depth_first, s, reply).0.progress;
    match (s.stage, reply) {
        (StageView::LinkMetadata(node), ReplyView::Metadata(r)) => {
            lemma_settle(config, p);
            if r is Err {
                lemma_settle(
                    config,
                    warned(
                        p,
                        access_warning(node.path, r->Err_0),
                    ),
                );
            }
        },
        (StageView::Circular(node, metadata), ReplyView::Path(r)) => {
            match r {
                Err(cause) => {
                    lemma_settle(
                        config,
                        warned(
                            p,
                            access_warning(
                                node.path,
                                path_error_message(node.path, cause),
                            ),
                        ),
                    );
                },
                Ok(canonical) => {
                    lemma_settle(
                        config,
                        warned(p, circular_warning(node.path)),
                    );
                    lemma_settle(
                        config,
                        Progress {
                            guard: guard_after_link(p.guard, metadata),
                            ..p
                        },
                    );
                },
            }
        },
        (StageView::Visit(node), ReplyView::Path(r)) => {
            match r {
                Err(cause) => {
                    lemma_settle(
                        config,
                        warned(
                            p,
                            mark_warning(
                                node.path,
                                path_error_message(node.path, cause),
                            ),
                        ),
                    );
                },
                Ok(canonical) => {
                    lemma_settle(
                        config,
                        Progress {
                            guard: with_path(p.guard, r),
                            found: CollectorView {
                                directories: next_count(p.found.directories),
                                ..p.found
                            },
                            ..p
                        },
                    );
                },
            }
        },
        (StageView::Target(node, metadata), ReplyView::Metadata(r)) => {
            let seen = Progress {
                guard: guard_after_target(
                    p.guard,
                    config.min_file_size,
                    metadata,
                    followed(r),
                ),
                ..p
            };
            lemma_settle(config, seen);
            match accepted_size(
                p.guard,
                config.min_file_size,
                metadata,
                followed(r),
            ) {
                None => {},
                Some(size) => {
                    lemma_settle(
                        config,
                        recorded(
                            seen,
                            record(node.path, node.depth, size, metadata, None),
                        ),
                    );
                },
            }
        },
        (StageView::LinkTarget(node, metadata, size), ReplyView::Path(r)) => {
            lemma_settle(
                config,
                recorded(
                    p,
                    record(
                        node.path,
                        node.depth,
                        size,
                        metadata,
                        readable_target(r),
                    ),
                ),
            );
        },
        (StageView::Listing(node), ReplyView::Entries(r)) => {
            lemma_settle(config, p);
            match r {
                Err(cause) => {
                    lemma_settle(
                        config,
                        warned(
                            p,
                            listing_warning(
                                node.path,
                                io_error_message(cause),
                            ),
                        ),
                    );
                },
                Ok(listing) => {
                    lemma_settle(
                        config,
                        Progress {
                            pending: merged(
                                depth_first,
                                p.pending,
                                child_nodes(readable(listing, node.depth + 1)),
                            ),
                            ..p
                        },
                    );
                },
            }
        },
        _ => {},
    }
}

/// A directory is marked as entered, and counted, before its children are
/// asked for: when a step asks for them, the guard holds the canonical path
/// that was the reply.
pub proof fn lemma_marked_before_listed(
    config: AnalyzerConfig,
    depth_first: bool,
    s: State,
    canonical: Seq<char>,
)
    requires
        s.stage is Visit,
    ensures
        ({
            let out = next(config, depth_first, s, ReplyView::Path(Ok(canonical)));
            &&& out.0.progress.guard.paths.contains(canonical)
            &&& out.0.progress.found.directories == next_count(
                s.progress.found.directories,
            )
            &&& out.1 is ReadDir ==> out.0.stage == StageView::Listing(s.stage->Visit_0)
        }),
{
    let p = s.progress;
    lemma_settle(
        config,
        Progress {
            guard: with_path(p.guard, Ok(canonical)),
            found: CollectorView {
                directories: next_count(p.found.directories),
                ..p.found
            },
            ..p
        },
    );
}

/// A link into a directory that was entered before is a warning and nothing
/// else: no record is added, no node joins those that wait, and the guard
/// stays as it is.
pub proof fn lemma_circular_link_is_skipped(
    config: AnalyzerConfig,
    depth_first: bool,
    s: State,
    canonical: Seq<char>,
)
    requires
        s.stage is Circular,
        s.progress.guard.paths.contains(canonical),
    ensures
        ({
            let out = next(config, depth_first, s, ReplyView::Path(Ok(canonical))).0.progress;
            &&& out.found.entries == s.progress.found.entries
            &&& out.found.warnings == s.progress.found.warnings.push(
                circular_warning(s.stage->Circular_0.path),
            )
            &&& out.guard == s.progress.guard
            &&& forall|i: int|
                0 <= i < out.pending.len() ==> exists|j: int|
                    0 <= j < s.progress.pending.len() && s.progress.pending[j]
                        == #[trigger] out.pending[i]
        }),
{
    lemma_settle(
        config,
        warned(
            s.progress,
            circular_warning(s.stage->Circular_0.path),
        ),
    );
}

/// Children are asked for only of a directory that lies above the depth
/// limit: no directory at the limit or beyond it is read.
pub proof fn lemma_reads_within_depth(
    config: AnalyzerConfig,
    depth_first: bool,
    s: State,
    reply: ReplyView,
)
    requires
        respects_limits(config, s),
        next(config, depth_first, s, reply).1 is ReadDir,
    ensures
        next(config, depth_first, s, reply).0.stage matches StageView::Listing(node) && (
        config.max_depth matches Some(max) ==> node.depth < max),
{
    lemma_next_respects(config, depth_first, s, reply);
}

} // verus!
