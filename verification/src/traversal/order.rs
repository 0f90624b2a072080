//! Whole traversals on a file system that is taken as a fixed collection of
//! answers, one for each request.
//!
//! - A traversal ends ([`lemma_traversal_ends`]): on a tree of finite height
//!   it is finished after four steps for each node, at the latest, whatever
//!   the links lead to and whatever the limits.
//! - The strategy does not change what is found
//!   ([`lemma_order_is_immaterial`]): without links and without a file limit,
//!   where every file has one name and every path one place, a depth-first
//!   and a breadth-first traversal end with the same records and counts.
//! - The order in which directories list their children does not change what
//!   is found ([`lemma_listing_order_is_immaterial`]).
//! - Links that lead to directories or to nothing add warnings and nothing
//!   else ([`lemma_links_add_nothing`]).

use vstd::prelude::*;
use vstd::multiset::Multiset;
use crate::bag::{
    bag, lemma_bag_has, lemma_bag_len, lemma_bag_member, lemma_bag_peel,
};
use crate::analyzer::{
    empty_guard, lemma_bag_totals, next_count, nothing_found, symlink_total, total_bytes,
    FileEntryView,
};
use crate::collector::CollectorView;
use crate::config::AnalyzerConfig;
use crate::fs::{FileIdentity, FileMetadata, RawEntryView, ReplyView, RequestView};
use crate::link_handler::{seen_before, with_path, GuardView};
use crate::processor::{
    accepted_size, eligible, guard_after_link, guard_after_target, link_admitted, readable_target,
    record,
};

use crate::traversal::{
    access_warning, after_circular, after_link_metadata, after_link_target, after_listing,
    after_target, after_visit, awaiting, child_nodes, circular_warning, descends, followed,
    io_error_message, listing_warning, mark_warning, merged, next, path_error_message, recorded,
    settle, start, warned, NodeView, Progress, StageView, State,
};
use crate::walker::readable;

verus! {

broadcast use vstd::multiset::group_multiset_axioms;

/// A file system as a fixed collection of answers.
pub struct FileSystem {
    /// The metadata of a path itself.
    pub own: spec_fn(Seq<char>) -> Result<FileMetadata, Seq<char>>,
    /// The canonical form of a path.
    pub canonical: spec_fn(Seq<char>) -> Result<Seq<char>, Seq<char>>,
    /// The metadata of what a path leads to.
    pub target: spec_fn(Seq<char>) -> Result<FileMetadata, Seq<char>>,
    /// The text of the link at a path.
    pub link_text: spec_fn(Seq<char>) -> Result<Seq<char>, Seq<char>>,
    /// The children of the directory at a path.
    pub listing: spec_fn(Seq<char>) -> Result<Seq<RawEntryView>, Seq<char>>,
}

/// The answer of the file system to a request.
pub open spec fn answer(fs: FileSystem, request: RequestView) -> ReplyView {
    match request {
        RequestView::LinkMetadata(path) => ReplyView::Metadata((fs.own)(path)),
        RequestView::Canonicalize(path) => ReplyView::Path((fs.canonical)(path)),
        RequestView::Metadata(path) => ReplyView::Metadata((fs.target)(path)),
        RequestView::ReadLink(path) => ReplyView::Path((fs.link_text)(path)),
        RequestView::ReadDir(path) => ReplyView::Entries((fs.listing)(path)),
        RequestView::Finished => ReplyView::Path(Err(Seq::empty())),
    }
}

/// A traversal after at most `fuel` steps on a file system: each request is
/// answered by the file system, until the traversal is finished.
pub open spec fn run(
    config: AnalyzerConfig,
    depth_first: bool,
    fs: FileSystem,
    at: (State, RequestView),
    fuel: nat,
) -> (State, RequestView)
    decreases fuel,
{
    if fuel == 0 || at.1 is Finished {
        at
    } else {
        run(
            config,
            depth_first,
            fs,
            next(config, depth_first, at.0, answer(fs, at.1)),
            (fuel - 1) as nat,
        )
    }
}

/// No path of the file system is a link.
pub open spec fn no_links(fs: FileSystem) -> bool {
    forall|path: Seq<char>| (#[trigger] (fs.own)(path)) matches Ok(m) ==> !m.is_symlink()
}

/// The identity of what a path leads to, where there is one.
pub open spec fn identity_at(fs: FileSystem, path: Seq<char>) -> Option<FileIdentity> {
    match (fs.target)(path) {
        Ok(m) => m.identity,
        Err(_) => None,
    }
}

/// Every file has one name: two paths that lead to files with the same
/// identity are the same path.
pub open spec fn one_name_per_file(fs: FileSystem) -> bool {
    forall|p: Seq<char>, q: Seq<char>|
        #![trigger identity_at(fs, p), identity_at(fs, q)]
        identity_at(fs, p) is Some && identity_at(fs, p) == identity_at(fs, q) ==> p == q
}

/// The identity of the link at a path, where the path is a link and has one.
pub open spec fn link_identity_at(fs: FileSystem, path: Seq<char>) -> Option<FileIdentity> {
    match (fs.own)(path) {
        Ok(m) => if m.is_symlink() {
            m.identity
        } else {
            None
        },
        Err(_) => None,
    }
}

/// The identity is that of a link of the file system.
pub open spec fn is_link_identity(fs: FileSystem, id: FileIdentity) -> bool {
    exists|path: Seq<char>| #[trigger] link_identity_at(fs, path) == Some(id)
}

/// The links of the file system lead to no files: what a link leads to is a
/// directory or nothing, and no link has the identity of what a path leads
/// to. A file system without links is of this kind.
pub open spec fn links_lead_to_no_files(fs: FileSystem) -> bool {
    &&& forall|path: Seq<char>|
        ((#[trigger] (fs.own)(path)) is Ok && (fs.own)(path)->Ok_0.is_symlink()) ==> !((fs.target)(
            path,
        ) is Ok && (fs.target)(path)->Ok_0.is_file())
    &&& forall|link: Seq<char>, path: Seq<char>|
        #![trigger link_identity_at(fs, link), identity_at(fs, path)]
        link_identity_at(fs, link) is Some ==> link_identity_at(fs, link) != identity_at(fs, path)
}

/// A file system without links has no links that lead to files.
pub proof fn lemma_no_links_lead_nowhere(fs: FileSystem)
    requires
        no_links(fs),
    ensures
        links_lead_to_no_files(fs),
{
    assert forall|link: Seq<char>, path: Seq<char>|
        #![trigger link_identity_at(fs, link), identity_at(fs, path)]
        link_identity_at(fs, link) is Some implies link_identity_at(fs, link) != identity_at(
        fs,
        path,
    ) by {
        assert((fs.own)(link) is Ok ==> !(fs.own)(link)->Ok_0.is_symlink());
    }
}

/// The directory at `parent` lists `child` at position `i`.
pub open spec fn lists(fs: FileSystem, parent: Seq<char>, i: int, child: Seq<char>) -> bool {
    (fs.listing)(parent) matches Ok(l) && 0 <= i < l.len() && l[i].path == child
}

/// Every path has one place: no directory lists the root, and no path is
/// listed twice, by two directories or by one.
pub open spec fn one_place_per_path(fs: FileSystem, root: Seq<char>) -> bool {
    &&& forall|parent: Seq<char>, i: int| !#[trigger] lists(fs, parent, i, root)
    &&& forall|p: Seq<char>, i: int, q: Seq<char>, j: int, child: Seq<char>|
        #[trigger] lists(fs, p, i, child) && #[trigger] lists(fs, q, j, child) ==> p == q && i
            == j
}

/// The progress once a link with the metadata `m` is dealt with.
pub open spec fn visit_link(
    config: AnalyzerConfig,
    fs: FileSystem,
    p: Progress,
    node: NodeView,
    m: FileMetadata,
) -> Progress {
    match (fs.canonical)(node.path) {
        Err(cause) => warned(
            p,
            access_warning(node.path, path_error_message(node.path, cause)),
        ),
        Ok(canonical) => if p.guard.paths.contains(canonical) {
            warned(p, circular_warning(node.path))
        } else {
            let seen = Progress { guard: guard_after_link(p.guard, m), ..p };
            if !link_admitted(p.guard, m) {
                seen
            } else {
                let f = followed((fs.target)(node.path));
                let looked = Progress {
                    guard: guard_after_target(seen.guard, config.min_file_size, m, f),
                    ..seen
                };
                match accepted_size(seen.guard, config.min_file_size, m, f) {
                    None => looked,
                    Some(size) => recorded(
                        looked,
                        record(
                            node.path,
                            node.depth,
                            size,
                            m,
                            readable_target((fs.link_text)(node.path)),
                        ),
                    ),
                }
            }
        },
    }
}

/// The number of steps that a link with the metadata `m` takes.
pub open spec fn link_steps(
    config: AnalyzerConfig,
    fs: FileSystem,
    guard: GuardView,
    node: NodeView,
    m: FileMetadata,
) -> nat {
    match (fs.canonical)(node.path) {
        Err(_) => 2,
        Ok(canonical) => if guard.paths.contains(canonical) || !link_admitted(guard, m) {
            2
        } else if accepted_size(
            guard_after_link(guard, m),
            config.min_file_size,
            m,
            followed((fs.target)(node.path)),
        ) is None {
            3
        } else {
            4
        },
    }
}

/// The progress once a node is dealt with: what the steps from the request
/// for its metadata to the move to the next node make of the progress.
pub open spec fn visit(
    config: AnalyzerConfig,
    depth_first: bool,
    fs: FileSystem,
    p: Progress,
    node: NodeView,
) -> Progress {
    match (fs.own)(node.path) {
        Err(cause) => warned(p, access_warning(node.path, cause)),
        Ok(m) => if m.is_symlink() {
            visit_link(config, fs, p, node, m)
        } else if m.is_dir() {
            match (fs.canonical)(node.path) {
                Err(cause) => warned(
                    p,
                    mark_warning(node.path, path_error_message(node.path, cause)),
                ),
                Ok(_) => {
                    let entered = Progress {
                        guard: with_path(p.guard, (fs.canonical)(node.path)),
                        found: CollectorView {
                            directories: next_count(p.found.directories),
                            ..p.found
                        },
                        ..p
                    };
                    if descends(config, node.depth) {
                        match (fs.listing)(node.path) {
                            Err(cause) => warned(
                                entered,
                                listing_warning(node.path, io_error_message(cause)),
                            ),
                            Ok(l) => Progress {
                                pending: merged(
                                    depth_first,
                                    p.pending,
                                    child_nodes(readable(l, node.depth + 1)),
                                ),
                                ..entered
                            },
                        }
                    } else {
                        entered
                    }
                },
            }
        } else if m.is_file() {
            let f = followed((fs.target)(node.path));
            let seen = Progress {
                guard: guard_after_target(p.guard, config.min_file_size, m, f),
                ..p
            };
            match accepted_size(p.guard, config.min_file_size, m, f) {
                None => seen,
                Some(size) => recorded(seen, record(node.path, node.depth, size, m, None)),
            }
        } else {
            p
        },
    }
}

/// The number of steps that a node takes where the guard is as given: at
/// least one, at most four.
pub open spec fn steps(config: AnalyzerConfig, fs: FileSystem, guard: GuardView, node: NodeView)
    -> nat {
    match (fs.own)(node.path) {
        Err(_) => 1,
        Ok(m) => if m.is_symlink() {
            link_steps(config, fs, guard, node, m)
        } else if m.is_dir() {
            if (fs.canonical)(node.path) is Ok && descends(config, node.depth) {
                3
            } else {
                2
            }
        } else if m.is_file() {
            2
        } else {
            1
        },
    }
}

/// A traversal that waits for the metadata of a node is not finished before
/// the node's steps are taken, and then stands where the move to the next
/// node leads from the progress that the visit makes.
pub proof fn lemma_visit(
    config: AnalyzerConfig,
    depth_first: bool,
    fs: FileSystem,
    p: Progress,
    node: NodeView,
    fuel: nat,
)
    ensures
        1 <= steps(config, fs, p.guard, node) <= 4,
        fuel < steps(config, fs, p.guard, node) ==> !(run(
            config,
            depth_first,
            fs,
            awaiting(p, StageView::LinkMetadata(node)),
            fuel,
        ).1 is Finished),
        fuel >= steps(config, fs, p.guard, node) ==> run(
            config,
            depth_first,
            fs,
            awaiting(p, StageView::LinkMetadata(node)),
            fuel,
        ) == run(
            config,
            depth_first,
            fs,
            settle(config, visit(config, depth_first, fs, p, node)),
            (fuel - steps(config, fs, p.guard, node)) as nat,
        ),
{
    let s0 = awaiting(p, StageView::LinkMetadata(node));
    let s1 = next(config, depth_first, s0.0, answer(fs, s0.1));
    assert(s1 == after_link_metadata(config, p, node, (fs.own)(node.path)));
    if fuel >= 1 {
        assert(run(config, depth_first, fs, s0, fuel) == run(
            config,
            depth_first,
            fs,
            s1,
            (fuel - 1) as nat,
        ));
        match (fs.own)(node.path) {
            Err(_) => {},
            Ok(m) => {
                if m.is_symlink() {
                    lemma_visit_link(config, depth_first, fs, p, node, m, (fuel - 1) as nat);
                } else if m.is_dir() {
                    let s2 = next(config, depth_first, s1.0, answer(fs, s1.1));
                    assert(s2 == after_visit(config, p, node, (fs.canonical)(node.path)));
                    if fuel >= 2 {
                        assert(run(config, depth_first, fs, s1, (fuel - 1) as nat) == run(
                            config,
                            depth_first,
                            fs,
                            s2,
                            (fuel - 2) as nat,
                        ));
                        if (fs.canonical)(node.path) is Ok && descends(config, node.depth) {
                            let entered = s2.0.progress;
                            let s3 = next(config, depth_first, s2.0, answer(fs, s2.1));
                            assert(s3 == after_listing(
                                config,
                                depth_first,
                                entered,
                                node,
                                (fs.listing)(node.path),
                            ));
                            if fuel >= 3 {
                                assert(run(config, depth_first, fs, s2, (fuel - 2) as nat) == run(
                                    config,
                                    depth_first,
                                    fs,
                                    s3,
                                    (fuel - 3) as nat,
                                ));
                            }
                        }
                    }
                } else if m.is_file() {
                    let s2 = next(config, depth_first, s1.0, answer(fs, s1.1));
                    assert(s2 == after_target(config, p, node, m, (fs.target)(node.path)));
                    if fuel >= 2 {
                        assert(run(config, depth_first, fs, s1, (fuel - 1) as nat) == run(
                            config,
                            depth_first,
                            fs,
                            s2,
                            (fuel - 2) as nat,
                        ));
                    }
                }
            },
        }
    }
}

/// The steps of a link, from the request for its canonical path on.
proof fn lemma_visit_link(
    config: AnalyzerConfig,
    depth_first: bool,
    fs: FileSystem,
    p: Progress,
    node: NodeView,
    m: FileMetadata,
    fuel: nat,
)
    requires
        m.is_symlink(),
    ensures
        fuel + 1 < link_steps(config, fs, p.guard, node, m) ==> !(run(
            config,
            depth_first,
            fs,
            awaiting(p, StageView::Circular(node, m)),
            fuel,
        ).1 is Finished),
        fuel + 1 >= link_steps(config, fs, p.guard, node, m) ==> run(
            config,
            depth_first,
            fs,
            awaiting(p, StageView::Circular(node, m)),
            fuel,
        ) == run(
            config,
            depth_first,
            fs,
            settle(config, visit_link(config, fs, p, node, m)),
            (fuel + 1 - link_steps(config, fs, p.guard, node, m)) as nat,
        ),
{
    let s1 = awaiting(p, StageView::Circular(node, m));
    let s2 = next(config, depth_first, s1.0, answer(fs, s1.1));
    assert(s2 == after_circular(config, p, node, m, (fs.canonical)(node.path)));
    if fuel >= 1 {
        assert(run(config, depth_first, fs, s1, fuel) == run(
            config,
            depth_first,
            fs,
            s2,
            (fuel - 1) as nat,
        ));
        if (fs.canonical)(node.path) is Ok && !p.guard.paths.contains(
            (fs.canonical)(node.path)->Ok_0,
        ) && link_admitted(p.guard, m) {
            let seen = Progress { guard: guard_after_link(p.guard, m), ..p };
            assert(s2 == awaiting(seen, StageView::Target(node, m)));
            let s3 = next(config, depth_first, s2.0, answer(fs, s2.1));
            assert(s3 == after_target(config, seen, node, m, (fs.target)(node.path)));
            if fuel >= 2 {
                assert(run(config, depth_first, fs, s2, (fuel - 1) as nat) == run(
                    config,
                    depth_first,
                    fs,
                    s3,
                    (fuel - 2) as nat,
                ));
                let f = followed((fs.target)(node.path));
                if accepted_size(seen.guard, config.min_file_size, m, f) is Some {
                    let size = accepted_size(seen.guard, config.min_file_size, m, f)->0;
                    let looked = Progress {
                        guard: guard_after_target(seen.guard, config.min_file_size, m, f),
                        ..seen
                    };
                    assert(s3 == awaiting(looked, StageView::LinkTarget(node, m, size)));
                    let s4 = next(config, depth_first, s3.0, answer(fs, s3.1));
                    assert(s4 == after_link_target(
                        config,
                        looked,
                        node,
                        m,
                        size,
                        (fs.link_text)(node.path),
                    ));
                    if fuel >= 3 {
                        assert(run(config, depth_first, fs, s3, (fuel - 2) as nat) == run(
                            config,
                            depth_first,
                            fs,
                            s4,
                            (fuel - 3) as nat,
                        ));
                    }
                }
            }
        }
    }
}

/// The record that a node yields by itself on a file system where no file is
/// seen twice: the node is a regular file that passes the size filter.
pub open spec fn found_at(config: AnalyzerConfig, fs: FileSystem, node: NodeView) -> Option<
    FileEntryView,
> {
    match (fs.own)(node.path) {
        Ok(m) => if m.is_file() && eligible(config.min_file_size, followed((fs.target)(node.path))) {
            Some(
                record(node.path, node.depth, followed((fs.target)(node.path))->0.len, m, None),
            )
        } else {
            None
        },
        Err(_) => None,
    }
}

/// The record of a node as a collection: empty, or of one record.
pub open spec fn own_bag(config: AnalyzerConfig, fs: FileSystem, node: NodeView) -> Multiset<
    FileEntryView,
> {
    match found_at(config, fs, node) {
        Some(entry) => Multiset::singleton(entry),
        None => Multiset::empty(),
    }
}

/// The children that a node sends to be visited: those of a directory that
/// could be entered and listed and lies above the depth limit.
pub open spec fn kids(config: AnalyzerConfig, fs: FileSystem, node: NodeView) -> Seq<NodeView> {
    match (fs.own)(node.path) {
        Ok(m) => if m.is_dir() && (fs.canonical)(node.path) is Ok && descends(config, node.depth) {
            match (fs.listing)(node.path) {
                Ok(l) => child_nodes(readable(l, node.depth + 1)),
                Err(_) => Seq::empty(),
            }
        } else {
            Seq::empty()
        },
        Err(_) => Seq::empty(),
    }
}

/// The records of a node and of all that lies at most `height` levels below
/// it, ignored paths left out.
pub open spec fn below(config: AnalyzerConfig, fs: FileSystem, node: NodeView, height: nat)
    -> Multiset<FileEntryView>
    decreases height, 0nat,
{
    if height == 0 || config.ignores(node.path) {
        Multiset::empty()
    } else {
        own_bag(config, fs, node).add(
            below_all(config, fs, kids(config, fs, node), (height - 1) as nat),
        )
    }
}

/// The records of several nodes and of all that lies at most `height` levels
/// below them.
pub open spec fn below_all(
    config: AnalyzerConfig,
    fs: FileSystem,
    nodes: Seq<NodeView>,
    height: nat,
) -> Multiset<FileEntryView>
    decreases height, nodes.len() + 1,
{
    if nodes.len() == 0 {
        Multiset::empty()
    } else {
        below(config, fs, nodes[0], height).add(
            below_all(config, fs, nodes.drop_first(), height),
        )
    }
}

/// Whether a node is counted as a directory: 1 for a directory that could be
/// marked as entered, else 0.
pub open spec fn entered(fs: FileSystem, node: NodeView) -> nat {
    match (fs.own)(node.path) {
        Ok(m) => if !m.is_symlink() && m.is_dir() && (fs.canonical)(node.path) is Ok {
            1
        } else {
            0
        },
        Err(_) => 0,
    }
}

/// The number of directories that are counted for a node and all that lies
/// at most `height` levels below it.
pub open spec fn dirs_below(config: AnalyzerConfig, fs: FileSystem, node: NodeView, height: nat)
    -> nat
    decreases height, 0nat,
{
    if height == 0 || config.ignores(node.path) {
        0
    } else {
        entered(fs, node) + dirs_below_all(config, fs, kids(config, fs, node), (height - 1) as nat)
    }
}

/// The number of directories that are counted for several nodes and all that
/// lies at most `height` levels below them.
pub open spec fn dirs_below_all(
    config: AnalyzerConfig,
    fs: FileSystem,
    nodes: Seq<NodeView>,
    height: nat,
) -> nat
    decreases height, nodes.len() + 1,
{
    if nodes.len() == 0 {
        0
    } else {
        dirs_below(config, fs, nodes[0], height) + dirs_below_all(
            config,
            fs,
            nodes.drop_first(),
            height,
        )
    }
}

/// The directory count after `k` more directories: the count is kept in a
/// `usize` and wraps around.
pub open spec fn bump(n: nat, k: nat) -> nat
    decreases k,
{
    if k == 0 {
        n
    } else {
        next_count(bump(n, (k - 1) as nat))
    }
}

/// A number of steps that is enough for a node and all that lies at most
/// `height` levels below it: four for each node that is not ignored.
pub open spec fn cost(config: AnalyzerConfig, fs: FileSystem, node: NodeView, height: nat) -> nat
    decreases height, 0nat,
{
    if height == 0 || config.ignores(node.path) {
        0
    } else {
        4 + cost_all(config, fs, kids(config, fs, node), (height - 1) as nat)
    }
}

/// A number of steps that is enough for several nodes and all that lies at
/// most `height` levels below them.
pub open spec fn cost_all(
    config: AnalyzerConfig,
    fs: FileSystem,
    nodes: Seq<NodeView>,
    height: nat,
) -> nat
    decreases height, nodes.len() + 1,
{
    if nodes.len() == 0 {
        0
    } else {
        cost(config, fs, nodes[0], height) + cost_all(config, fs, nodes.drop_first(), height)
    }
}

/// Nothing lies more than `height` levels below the node: `below` has all
/// the records of its subtree.
pub open spec fn settled(config: AnalyzerConfig, fs: FileSystem, node: NodeView, height: nat)
    -> bool
    decreases height,
{
    config.ignores(node.path) || (height > 0 && forall|i: int|
        0 <= i < kids(config, fs, node).len() ==> settled(
            config,
            fs,
            #[trigger] kids(config, fs, node)[i],
            (height - 1) as nat,
        ))
}

/// Nothing lies more than `height` levels below any of the nodes.
pub open spec fn all_settled(
    config: AnalyzerConfig,
    fs: FileSystem,
    nodes: Seq<NodeView>,
    height: nat,
) -> bool {
    forall|i: int| 0 <= i < nodes.len() ==> settled(config, fs, #[trigger] nodes[i], height)
}

/// What is settled at one height is settled at every greater height, with
/// the same records and the same number of steps.
proof fn lemma_settled_higher(
    config: AnalyzerConfig,
    fs: FileSystem,
    node: NodeView,
    height: nat,
    higher: nat,
)
    requires
        settled(config, fs, node, height),
        height <= higher,
    ensures
        settled(config, fs, node, higher),
        below(config, fs, node, height) == below(config, fs, node, higher),
        cost(config, fs, node, height) == cost(config, fs, node, higher),
        dirs_below(config, fs, node, height) == dirs_below(config, fs, node, higher),
    decreases height,
{
    if !config.ignores(node.path) && height < higher {
        let children = kids(config, fs, node);
        assert forall|i: int| 0 <= i < children.len() implies settled(
            config,
            fs,
            #[trigger] children[i],
            (higher - 1) as nat,
        ) by {
            lemma_settled_higher(
                config,
                fs,
                children[i],
                (height - 1) as nat,
                (higher - 1) as nat,
            );
        }
        lemma_all_settled_higher(
            config,
            fs,
            children,
            (height - 1) as nat,
            (higher - 1) as nat,
            height,
        );
    }
}

proof fn lemma_all_settled_higher(
    config: AnalyzerConfig,
    fs: FileSystem,
    nodes: Seq<NodeView>,
    height: nat,
    higher: nat,
    bound: nat,
)
    requires
        all_settled(config, fs, nodes, height),
        height <= higher,
        height < bound,
    ensures
        all_settled(config, fs, nodes, higher),
        below_all(config, fs, nodes, height) == below_all(config, fs, nodes, higher),
        cost_all(config, fs, nodes, height) == cost_all(config, fs, nodes, higher),
        dirs_below_all(config, fs, nodes, height) == dirs_below_all(config, fs, nodes, higher),
    decreases bound, nodes.len(),
{
    assert forall|i: int| 0 <= i < nodes.len() implies settled(
        config,
        fs,
        #[trigger] nodes[i],
        higher,
    ) by {
        lemma_settled_higher(config, fs, nodes[i], height, higher);
    }
    if nodes.len() > 0 {
        lemma_settled_higher(config, fs, nodes[0], height, higher);
        assert forall|i: int| 0 <= i < nodes.drop_first().len() implies settled(
            config,
            fs,
            #[trigger] nodes.drop_first()[i],
            height,
        ) by {
            assert(nodes.drop_first()[i] == nodes[i + 1]);
        }
        lemma_all_settled_higher(config, fs, nodes.drop_first(), height, higher, bound);
    }
}

/// The records below two runs of nodes are those below the one and those
/// below the other.
proof fn lemma_below_all_concat(
    config: AnalyzerConfig,
    fs: FileSystem,
    a: Seq<NodeView>,
    b: Seq<NodeView>,
    height: nat,
)
    ensures
        below_all(config, fs, a + b, height) =~= below_all(config, fs, a, height).add(
            below_all(config, fs, b, height),
        ),
    decreases a.len(),
{
    if a.len() == 0 {
        assert(a + b =~= b);
    } else {
        assert((a + b).drop_first() =~= a.drop_first() + b);
        assert((a + b)[0] == a[0]);
        lemma_below_all_concat(config, fs, a.drop_first(), b, height);
    }
}

/// The steps for two runs of nodes are those for the one and those for the
/// other.
proof fn lemma_cost_all_concat(
    config: AnalyzerConfig,
    fs: FileSystem,
    a: Seq<NodeView>,
    b: Seq<NodeView>,
    height: nat,
)
    ensures
        cost_all(config, fs, a + b, height) == cost_all(config, fs, a, height) + cost_all(
            config,
            fs,
            b,
            height,
        ),
    decreases a.len(),
{
    if a.len() == 0 {
        assert(a + b =~= b);
    } else {
        assert((a + b).drop_first() =~= a.drop_first() + b);
        assert((a + b)[0] == a[0]);
        lemma_cost_all_concat(config, fs, a.drop_first(), b, height);
    }
}

proof fn lemma_bag_push(entries: Seq<FileEntryView>, entry: FileEntryView)
    ensures
        bag(entries.push(entry)) =~= bag(entries).add(Multiset::singleton(entry)),
{
    assert(entries.push(entry).drop_last() =~= entries);
}

/// The path is the root or is listed by a directory that was visited.
pub open spec fn placed(fs: FileSystem, root: Seq<char>, done: Set<Seq<char>>, path: Seq<char>)
    -> bool {
    path == root || exists|parent: Seq<char>, i: int|
        done.contains(parent) && #[trigger] lists(fs, parent, i, path)
}

/// No two of the nodes have the same path.
pub open spec fn distinct(nodes: Seq<NodeView>) -> bool {
    forall|i: int, j: int| 0 <= i < j < nodes.len() ==> nodes[i].path != nodes[j].path
}

/// What holds between two nodes of a traversal on a file system where every
/// file has one name and every path one place, with `done` the paths that
/// were visited: the nodes that wait are new and differ from each other;
/// they and the visited paths have their place; and the guard knows no
/// identity but those of links and of what visited paths lead to.
pub open spec fn orderly(fs: FileSystem, root: Seq<char>, p: Progress, done: Set<Seq<char>>)
    -> bool {
    &&& distinct(p.pending)
    &&& forall|i: int| 0 <= i < p.pending.len() ==> !done.contains(#[trigger] p.pending[i].path)
    &&& forall|i: int|
        0 <= i < p.pending.len() ==> placed(fs, root, done, #[trigger] p.pending[i].path)
    &&& forall|path: Seq<char>| #[trigger] done.contains(path) ==> placed(fs, root, done, path)
    &&& forall|id: FileIdentity| #[trigger]
        p.guard.identities.contains(id) ==> known(fs, done, id)
}

/// The identity is that of a link, or of what a visited path leads to.
pub open spec fn known(fs: FileSystem, done: Set<Seq<char>>, id: FileIdentity) -> bool {
    is_link_identity(fs, id) || exists|path: Seq<char>|
        done.contains(path) && #[trigger] identity_at(fs, path) == Some(id)
}

/// Each readable child of a listing is one of the listed children.
proof fn lemma_readable_listed(listing: Seq<RawEntryView>, depth: nat, a: int)
    requires
        0 <= a < readable(listing, depth).len(),
    ensures
        exists|i: int| 0 <= i < listing.len() && #[trigger] listing[i].path == readable(
            listing,
            depth,
        )[a].path,
    decreases listing.len(),
{
    if listing.len() > 0 {
        let earlier = readable(listing.drop_last(), depth);
        if a < earlier.len() {
            lemma_readable_listed(listing.drop_last(), depth, a);
            let i = choose|i: int|
                0 <= i < listing.drop_last().len() && #[trigger] listing.drop_last()[i].path
                    == earlier[a].path;
            assert(listing[i].path == readable(listing, depth)[a].path);
        } else {
            assert(listing[listing.len() - 1].path == readable(listing, depth)[a].path);
        }
    }
}

/// The readable children of a listing without repeated paths have no
/// repeated paths.
proof fn lemma_readable_distinct(listing: Seq<RawEntryView>, depth: nat)
    requires
        forall|i: int, j: int| 0 <= i < j < listing.len() ==> listing[i].path != listing[j].path,
    ensures
        distinct(child_nodes(readable(listing, depth))),
    decreases listing.len(),
{
    if listing.len() > 0 {
        let shorter = listing.drop_last();
        lemma_readable_distinct(shorter, depth);
        let earlier = readable(shorter, depth);
        let all = child_nodes(readable(listing, depth));
        assert forall|a: int, b: int| 0 <= a < b < all.len() implies all[a].path
            != all[b].path by {
            if b < earlier.len() {
                assert(child_nodes(earlier)[a].path != child_nodes(earlier)[b].path);
            } else {
                lemma_readable_listed(shorter, depth, a);
                let i = choose|i: int|
                    0 <= i < shorter.len() && #[trigger] shorter[i].path == earlier[a].path;
                assert(listing[i].path != listing[listing.len() - 1].path);
            }
        }
    }
}

/// The directory at `parent` lists `child`.
pub open spec fn listed_by(fs: FileSystem, parent: Seq<char>, child: Seq<char>) -> bool {
    exists|i: int| #[trigger] lists(fs, parent, i, child)
}

/// The children of a node are listed by it, each at another position.
proof fn lemma_kids_listed(config: AnalyzerConfig, fs: FileSystem, root: Seq<char>, node: NodeView)
    requires
        one_place_per_path(fs, root),
    ensures
        distinct(kids(config, fs, node)),
        forall|a: int|
            0 <= a < kids(config, fs, node).len() ==> listed_by(
                fs,
                node.path,
                #[trigger] kids(config, fs, node)[a].path,
            ),
{
    let children = kids(config, fs, node);
    if children.len() > 0 {
        let l = (fs.listing)(node.path)->Ok_0;
        assert forall|i: int, j: int| 0 <= i < j < l.len() implies l[i].path != l[j].path by {
            if l[i].path == l[j].path {
                assert(lists(fs, node.path, i, l[i].path));
                assert(lists(fs, node.path, j, l[i].path));
            }
        }
        lemma_readable_distinct(l, node.depth + 1);
        assert forall|a: int| 0 <= a < children.len() implies listed_by(
            fs,
            node.path,
            #[trigger] children[a].path,
        ) by {
            lemma_readable_listed(l, node.depth + 1, a);
            let i = choose|i: int|
                0 <= i < l.len() && #[trigger] l[i].path == readable(l, node.depth + 1)[a].path;
            assert(lists(fs, node.path, i, children[a].path));
        }
    }
}

/// Dropping the first of the nodes that wait keeps the order.
proof fn lemma_skip_orderly(fs: FileSystem, root: Seq<char>, p: Progress, done: Set<Seq<char>>)
    requires
        orderly(fs, root, p, done),
        p.pending.len() > 0,
    ensures
        orderly(fs, root, Progress { pending: p.pending.drop_first(), ..p }, done),
{
    let rest = p.pending.drop_first();
    assert forall|i: int| 0 <= i < rest.len() implies rest[i] == p.pending[i + 1] by {}
    assert forall|i: int, j: int| 0 <= i < j < rest.len() implies rest[i].path
        != rest[j].path by {
        assert(p.pending[i + 1].path != p.pending[j + 1].path);
    }
    assert forall|i: int| 0 <= i < rest.len() implies !done.contains(#[trigger] rest[i].path)
        && placed(fs, root, done, rest[i].path) by {
        assert(rest[i].path == p.pending[i + 1].path);
    }
}

/// A path that an unvisited directory lists has no place yet.
proof fn lemma_listed_is_new(
    fs: FileSystem,
    root: Seq<char>,
    done: Set<Seq<char>>,
    parent: Seq<char>,
    child: Seq<char>,
)
    requires
        one_place_per_path(fs, root),
        listed_by(fs, parent, child),
        !done.contains(parent),
    ensures
        !placed(fs, root, done, child),
{
    let i = choose|i: int| #[trigger] lists(fs, parent, i, child);
    if placed(fs, root, done, child) {
        if child == root {
            assert(lists(fs, parent, i, root));
        } else {
            let (other, j) = choose|other: Seq<char>, j: int|
                done.contains(other) && #[trigger] lists(fs, other, j, child);
            assert(lists(fs, parent, i, child) && lists(fs, other, j, child));
        }
    }
}

/// A place among the visited paths stays a place when more are visited.
proof fn lemma_placed_grows(
    fs: FileSystem,
    root: Seq<char>,
    done: Set<Seq<char>>,
    more: Seq<char>,
    path: Seq<char>,
)
    requires
        placed(fs, root, done, path),
    ensures
        placed(fs, root, done.insert(more), path),
{
    if path != root {
        let (parent, i) = choose|parent: Seq<char>, i: int|
            done.contains(parent) && #[trigger] lists(fs, parent, i, path);
        assert(done.insert(more).contains(parent) && lists(fs, parent, i, path));
    }
}

/// What a visit does to the nodes that wait, to the records and to the
/// guard, where the node was not visited before: the node's children join
/// the nodes that wait, the node's own record joins the records, and the
/// guard learns of no file but the one that the node leads to.
proof fn lemma_visit_effect(
    config: AnalyzerConfig,
    depth_first: bool,
    fs: FileSystem,
    root: Seq<char>,
    p: Progress,
    done: Set<Seq<char>>,
)
    requires
        links_lead_to_no_files(fs),
        one_name_per_file(fs),
        orderly(fs, root, p, done),
        p.pending.len() > 0,
    ensures
        ({
            let node = p.pending[0];
            let rest = Progress { pending: p.pending.drop_first(), ..p };
            let q = visit(config, depth_first, fs, rest, node);
            &&& q.pending == merged(depth_first, rest.pending, kids(config, fs, node))
            &&& bag(q.found.entries) == bag(p.found.entries).add(own_bag(config, fs, node))
            &&& forall|id: FileIdentity| #[trigger]
                q.guard.identities.contains(id) ==> p.guard.identities.contains(id)
                    || identity_at(fs, node.path) == Some(id) || link_identity_at(fs, node.path)
                    == Some(id)
        }),
{
    let node = p.pending[0];
    let rest = Progress { pending: p.pending.drop_first(), ..p };
    let q = visit(config, depth_first, fs, rest, node);
    let none = Seq::<NodeView>::empty();
    assert(merged(depth_first, rest.pending, none) =~= rest.pending);
    assert(bag(p.found.entries).add(Multiset::empty()) =~= bag(p.found.entries));
    assert(!done.contains(p.pending[0].path));
    match (fs.own)(node.path) {
        Err(_) => {},
        Ok(m) => {
            if m.is_symlink() {
                let f = followed((fs.target)(node.path));
                assert(!eligible(config.min_file_size, f));
                assert(link_identity_at(fs, node.path) == m.identity);
            } else if m.is_dir() {
            } else if m.is_file() {
                let f = followed((fs.target)(node.path));
                if eligible(config.min_file_size, f) {
                    if seen_before(p.guard, f->0) {
                        let id = f->0.identity->0;
                        assert(p.guard.identities.contains(id));
                        assert(known(fs, done, id));
                        assert(identity_at(fs, node.path) == Some(id));
                        if is_link_identity(fs, id) {
                            let link = choose|link: Seq<char>| #[trigger]
                                link_identity_at(fs, link) == Some(id);
                            assert(link_identity_at(fs, link) != identity_at(fs, node.path));
                        }
                        let path = choose|path: Seq<char>|
                            done.contains(path) && #[trigger] identity_at(fs, path) == Some(id);
                        assert(path == node.path);
                    }
                    let entry = record(node.path, node.depth, f->0.len, m, None);
                    lemma_bag_push(p.found.entries, entry);
                }
            }
        },
    }
}

/// Which of the two runs a node of the merged nodes comes from.
proof fn lemma_merged_from(
    depth_first: bool,
    rest: Seq<NodeView>,
    children: Seq<NodeView>,
    k: int,
) -> (from: (bool, int))
    requires
        0 <= k < merged(depth_first, rest, children).len(),
    ensures
        from.0 ==> 0 <= from.1 < children.len() && merged(depth_first, rest, children)[k]
            == children[from.1],
        !from.0 ==> 0 <= from.1 < rest.len() && merged(depth_first, rest, children)[k]
            == rest[from.1],
        forall|other: int|
            0 <= other < merged(depth_first, rest, children).len() && other != k
                && merged_side(depth_first, rest, children, other) == from.0
                ==> merged_spot(depth_first, rest, children, other) != from.1,
        from.0 == merged_side(depth_first, rest, children, k),
        from.1 == merged_spot(depth_first, rest, children, k),
{
    (
        merged_side(depth_first, rest, children, k),
        merged_spot(depth_first, rest, children, k),
    )
}

/// Whether the node at `k` of the merged nodes is one of the children.
spec fn merged_side(depth_first: bool, rest: Seq<NodeView>, children: Seq<NodeView>, k: int)
    -> bool {
    if depth_first {
        k < children.len()
    } else {
        k >= rest.len()
    }
}

/// The position that the node at `k` of the merged nodes had in its run.
spec fn merged_spot(depth_first: bool, rest: Seq<NodeView>, children: Seq<NodeView>, k: int)
    -> int {
    if depth_first {
        if k < children.len() {
            k
        } else {
            k - children.len()
        }
    } else {
        if k >= rest.len() {
            k - rest.len()
        } else {
            k
        }
    }
}

/// A visit keeps the order: afterwards the node counts as visited.
proof fn lemma_visit_orderly(
    config: AnalyzerConfig,
    depth_first: bool,
    fs: FileSystem,
    root: Seq<char>,
    p: Progress,
    done: Set<Seq<char>>,
)
    requires
        links_lead_to_no_files(fs),
        one_name_per_file(fs),
        one_place_per_path(fs, root),
        orderly(fs, root, p, done),
        p.pending.len() > 0,
    ensures
        orderly(
            fs,
            root,
            visit(
                config,
                depth_first,
                fs,
                Progress { pending: p.pending.drop_first(), ..p },
                p.pending[0],
            ),
            done.insert(p.pending[0].path),
        ),
{
    let node = p.pending[0];
    let rest = p.pending.drop_first();
    let children = kids(config, fs, node);
    let q = visit(config, depth_first, fs, Progress { pending: rest, ..p }, node);
    let after = done.insert(node.path);
    let m = merged(depth_first, rest, children);
    lemma_visit_effect(config, depth_first, fs, root, p, done);
    lemma_kids_listed(config, fs, root, node);
    lemma_skip_orderly(fs, root, p, done);
    assert(!done.contains(p.pending[0].path));
    assert(placed(fs, root, done, p.pending[0].path));
    assert forall|b: int| 0 <= b < rest.len() implies rest[b].path != node.path by {
        assert(rest[b] == p.pending[b + 1]);
    }
    // A child is new: it is not visited, not the node, and does not wait.
    assert forall|a: int| 0 <= a < children.len() implies !placed(
        fs,
        root,
        done,
        #[trigger] children[a].path,
    ) by {
        lemma_listed_is_new(fs, root, done, node.path, children[a].path);
    }
    assert forall|k: int| 0 <= k < m.len() implies !after.contains(#[trigger] m[k].path)
        && placed(fs, root, after, m[k].path) by {
        let from = lemma_merged_from(depth_first, rest, children, k);
        if from.0 {
            let c = children[from.1].path;
            assert(!placed(fs, root, done, c));
            assert(listed_by(fs, node.path, c));
            let i = choose|i: int| #[trigger] lists(fs, node.path, i, c);
            assert(after.contains(node.path) && lists(fs, node.path, i, c));
        } else {
            let r = rest[from.1].path;
            assert(placed(fs, root, done, r));
            lemma_placed_grows(fs, root, done, node.path, r);
        }
    }
    assert forall|i: int, j: int| 0 <= i < j < m.len() implies m[i].path != m[j].path by {
        let a = lemma_merged_from(depth_first, rest, children, i);
        let b = lemma_merged_from(depth_first, rest, children, j);
        if a.0 != b.0 {
            let c = if a.0 {
                children[a.1].path
            } else {
                children[b.1].path
            };
            let r = if a.0 {
                rest[b.1].path
            } else {
                rest[a.1].path
            };
            assert(!placed(fs, root, done, c));
            assert(placed(fs, root, done, r));
        } else if a.0 {
            assert(a.1 != b.1);
            if a.1 < b.1 {
                assert(children[a.1].path != children[b.1].path);
            } else {
                assert(children[b.1].path != children[a.1].path);
            }
        } else {
            assert(a.1 != b.1);
            if a.1 < b.1 {
                assert(rest[a.1].path != rest[b.1].path);
            } else {
                assert(rest[b.1].path != rest[a.1].path);
            }
        }
    }
    assert forall|path: Seq<char>| #[trigger] after.contains(path) implies placed(
        fs,
        root,
        after,
        path,
    ) by {
        if path == node.path {
            lemma_placed_grows(fs, root, done, node.path, path);
        } else {
            assert(done.contains(path));
            lemma_placed_grows(fs, root, done, node.path, path);
        }
    }
    assert forall|id: FileIdentity| #[trigger] q.guard.identities.contains(id) implies known(
        fs,
        after,
        id,
    ) by {
        if p.guard.identities.contains(id) {
            assert(known(fs, done, id));
            if !is_link_identity(fs, id) {
                let path = choose|path: Seq<char>|
                    done.contains(path) && #[trigger] identity_at(fs, path) == Some(id);
                assert(after.contains(path));
            }
        } else if link_identity_at(fs, node.path) == Some(id) {
            assert(is_link_identity(fs, id));
        } else {
            assert(after.contains(node.path) && identity_at(fs, node.path) == Some(id));
        }
    }
}

/// A traversal that ends within `fuel` steps has, at its end, the records it
/// had between two nodes and those of the nodes that waited then with all
/// below them; and nothing lies more than `fuel` levels below those nodes.
proof fn lemma_finds(
    config: AnalyzerConfig,
    depth_first: bool,
    fs: FileSystem,
    root: Seq<char>,
    p: Progress,
    done: Set<Seq<char>>,
    fuel: nat,
)
    requires
        config.max_files is None,
        links_lead_to_no_files(fs),
        one_name_per_file(fs),
        one_place_per_path(fs, root),
        orderly(fs, root, p, done),
        run(config, depth_first, fs, settle(config, p), fuel).1 is Finished,
    ensures
        all_settled(config, fs, p.pending, fuel),
        bag(run(config, depth_first, fs, settle(config, p), fuel).0.progress.found.entries)
            == bag(p.found.entries).add(below_all(config, fs, p.pending, fuel)),
    decreases fuel, p.pending.len(),
{
    let end = run(config, depth_first, fs, settle(config, p), fuel);
    if p.pending.len() == 0 {
        assert(bag(p.found.entries).add(Multiset::empty()) =~= bag(p.found.entries));
    } else {
        let node = p.pending[0];
        let rest = Progress { pending: p.pending.drop_first(), ..p };
        if config.ignores(node.path) {
            lemma_skip_orderly(fs, root, p, done);
            lemma_finds(config, depth_first, fs, root, rest, done, fuel);
            assert forall|i: int| 0 <= i < p.pending.len() implies settled(
                config,
                fs,
                #[trigger] p.pending[i],
                fuel,
            ) by {
                if i > 0 {
                    assert(rest.pending[i - 1] == p.pending[i]);
                }
            }
            assert(below(config, fs, node, fuel) =~= Multiset::empty());
            assert(below_all(config, fs, p.pending, fuel) =~= below_all(
                config,
                fs,
                rest.pending,
                fuel,
            ));
        } else {
            let q = visit(config, depth_first, fs, rest, node);
            let k = steps(config, fs, rest.guard, node);
            let children = kids(config, fs, node);
            assert(settle(config, p) == awaiting(rest, StageView::LinkMetadata(node)));
            lemma_visit(config, depth_first, fs, rest, node, fuel);
            assert(fuel >= k);
            let left = (fuel - k) as nat;
            lemma_visit_effect(config, depth_first, fs, root, p, done);
            lemma_visit_orderly(config, depth_first, fs, root, p, done);
            lemma_finds(config, depth_first, fs, root, q, done.insert(node.path), left);
            // The nodes that wait after the visit are the children and the
            // nodes that waited before, in one order or the other.
            if depth_first {
                lemma_below_all_concat(config, fs, children, rest.pending, left);
            } else {
                lemma_below_all_concat(config, fs, rest.pending, children, left);
            }
            assert(all_settled(config, fs, children, left)) by {
                assert forall|i: int| 0 <= i < children.len() implies settled(
                    config,
                    fs,
                    #[trigger] children[i],
                    left,
                ) by {
                    if depth_first {
                        assert(q.pending[i] == children[i]);
                    } else {
                        assert(q.pending[rest.pending.len() + i] == children[i]);
                    }
                }
            }
            assert(all_settled(config, fs, rest.pending, left)) by {
                assert forall|i: int| 0 <= i < rest.pending.len() implies settled(
                    config,
                    fs,
                    #[trigger] rest.pending[i],
                    left,
                ) by {
                    if depth_first {
                        assert(q.pending[children.len() + i] == rest.pending[i]);
                    } else {
                        assert(q.pending[i] == rest.pending[i]);
                    }
                }
            }
            lemma_all_settled_higher(
                config,
                fs,
                children,
                left,
                (fuel - 1) as nat,
                fuel,
            );
            lemma_all_settled_higher(config, fs, rest.pending, left, fuel, fuel);
            assert(settled(config, fs, node, fuel));
            assert forall|i: int| 0 <= i < p.pending.len() implies settled(
                config,
                fs,
                #[trigger] p.pending[i],
                fuel,
            ) by {
                if i > 0 {
                    assert(rest.pending[i - 1] == p.pending[i]);
                }
            }
            let from_children = below_all(config, fs, children, left);
            let from_rest = below_all(config, fs, rest.pending, left);
            assert(below_all(config, fs, q.pending, left) =~= from_children.add(from_rest));
            assert(below(config, fs, node, fuel) == own_bag(config, fs, node).add(from_children));
            assert(below_all(config, fs, p.pending, fuel) == below(config, fs, node, fuel).add(
                from_rest,
            ));
            assert(bag(end.0.progress.found.entries) =~= bag(p.found.entries).add(
                below_all(config, fs, p.pending, fuel),
            ));
        }
    }
}

/// On a file system without links, where every file has one name and every
/// path one place, and without a file limit, the order of the traversal does
/// not change what is found: a depth-first and a breadth-first traversal of
/// the same root that both come to their end hold the same records, each as
/// often as the other, and so the same number of records, the same sum of
/// sizes and the same number of links; and they have counted the same number
/// of directories.
pub proof fn lemma_order_is_immaterial(
    config: AnalyzerConfig,
    fs: FileSystem,
    root: Seq<char>,
    depth_fuel: nat,
    breadth_fuel: nat,
)
    requires
        config.max_files is None,
        no_links(fs),
        one_name_per_file(fs),
        one_place_per_path(fs, root),
        run(
            config,
            true,
            fs,
            start(config, root, empty_guard(), nothing_found()),
            depth_fuel,
        ).1 is Finished,
        run(
            config,
            false,
            fs,
            start(config, root, empty_guard(), nothing_found()),
            breadth_fuel,
        ).1 is Finished,
    ensures
        ({
            let depth = run(
                config,
                true,
                fs,
                start(config, root, empty_guard(), nothing_found()),
                depth_fuel,
            ).0.progress.found;
            let breadth = run(
                config,
                false,
                fs,
                start(config, root, empty_guard(), nothing_found()),
                breadth_fuel,
            ).0.progress.found;
            &&& bag(depth.entries) == bag(breadth.entries)
            &&& depth.entries.len() == breadth.entries.len()
            &&& total_bytes(depth.entries) == total_bytes(breadth.entries)
            &&& symlink_total(depth.entries) == symlink_total(breadth.entries)
            &&& depth.directories == breadth.directories
        }),
{
    let top = NodeView { path: root, depth: 0 };
    let p = Progress { pending: seq![top], guard: empty_guard(), found: nothing_found() };
    let depth = run(config, true, fs, settle(config, p), depth_fuel).0.progress.found;
    let breadth = run(config, false, fs, settle(config, p), breadth_fuel).0.progress.found;
    lemma_no_links_lead_nowhere(fs);
    lemma_counts(config, true, fs, p, depth_fuel);
    lemma_counts(config, false, fs, p, breadth_fuel);
    let done = Set::<Seq<char>>::empty();
    assert(orderly(fs, root, p, done));
    lemma_finds(config, true, fs, root, p, done, depth_fuel);
    lemma_finds(config, false, fs, root, p, done, breadth_fuel);
    assert(p.pending[0] == top);
    assert(p.pending.drop_first() =~= Seq::<NodeView>::empty());
    let most = if depth_fuel >= breadth_fuel {
        depth_fuel
    } else {
        breadth_fuel
    };
    lemma_settled_higher(config, fs, top, depth_fuel, most);
    lemma_settled_higher(config, fs, top, breadth_fuel, most);
    assert(below_all(config, fs, p.pending.drop_first(), depth_fuel) =~= Multiset::empty());
    assert(below_all(config, fs, p.pending.drop_first(), breadth_fuel) =~= Multiset::empty());
    assert(below_all(config, fs, p.pending, depth_fuel) =~= below(config, fs, top, depth_fuel));
    assert(below_all(config, fs, p.pending, breadth_fuel) =~= below(
        config,
        fs,
        top,
        breadth_fuel,
    ));
    assert(dirs_below_all(config, fs, p.pending.drop_first(), depth_fuel) == 0);
    assert(dirs_below_all(config, fs, p.pending.drop_first(), breadth_fuel) == 0);
    assert(dirs_below_all(config, fs, p.pending, depth_fuel) == dirs_below(
        config,
        fs,
        top,
        depth_fuel,
    ));
    assert(dirs_below_all(config, fs, p.pending, breadth_fuel) == dirs_below(
        config,
        fs,
        top,
        breadth_fuel,
    ));
    assert(bag(depth.entries) == bag(breadth.entries));
    lemma_bag_totals(depth.entries, breadth.entries);
}

proof fn lemma_dirs_all_concat(
    config: AnalyzerConfig,
    fs: FileSystem,
    a: Seq<NodeView>,
    b: Seq<NodeView>,
    height: nat,
)
    ensures
        dirs_below_all(config, fs, a + b, height) == dirs_below_all(config, fs, a, height)
            + dirs_below_all(config, fs, b, height),
    decreases a.len(),
{
    if a.len() == 0 {
        assert(a + b =~= b);
    } else {
        assert((a + b).drop_first() =~= a.drop_first() + b);
        assert((a + b)[0] == a[0]);
        lemma_dirs_all_concat(config, fs, a.drop_first(), b, height);
    }
}

proof fn lemma_bump_add(n: nat, a: nat, b: nat)
    ensures
        bump(bump(n, a), b) == bump(n, a + b),
    decreases b,
{
    if b > 0 {
        lemma_bump_add(n, a, (b - 1) as nat);
        assert(bump(n, a + b) == next_count(bump(n, (a + b - 1) as nat)));
    }
}

/// What a visit does to the nodes that wait and to the directory count: the
/// node's children join those that wait, and a directory that is entered is
/// counted.
proof fn lemma_visit_shape(
    config: AnalyzerConfig,
    depth_first: bool,
    fs: FileSystem,
    p: Progress,
    node: NodeView,
)
    ensures
        visit(config, depth_first, fs, p, node).pending == merged(
            depth_first,
            p.pending,
            kids(config, fs, node),
        ),
        visit(config, depth_first, fs, p, node).found.directories == bump(
            p.found.directories,
            entered(fs, node),
        ),
{
    assert(merged(depth_first, p.pending, Seq::<NodeView>::empty()) =~= p.pending);
    assert(bump(p.found.directories, 1) == next_count(bump(p.found.directories, 0)));
}

/// A traversal without file limit that ends within `fuel` steps has counted,
/// at its end, the directories it had counted between two nodes and those
/// among the nodes that waited then with all below them. This holds with
/// links and with files of several names.
proof fn lemma_counts(
    config: AnalyzerConfig,
    depth_first: bool,
    fs: FileSystem,
    p: Progress,
    fuel: nat,
)
    requires
        config.max_files is None,
        run(config, depth_first, fs, settle(config, p), fuel).1 is Finished,
    ensures
        all_settled(config, fs, p.pending, fuel),
        run(config, depth_first, fs, settle(config, p), fuel).0.progress.found.directories
            == bump(p.found.directories, dirs_below_all(config, fs, p.pending, fuel)),
    decreases fuel, p.pending.len(),
{
    let end = run(config, depth_first, fs, settle(config, p), fuel);
    if p.pending.len() == 0 {
        assert(bump(p.found.directories, 0) == p.found.directories);
    } else {
        let node = p.pending[0];
        let rest = Progress { pending: p.pending.drop_first(), ..p };
        if config.ignores(node.path) {
            lemma_counts(config, depth_first, fs, rest, fuel);
            assert(dirs_below(config, fs, node, fuel) == 0);
            assert(dirs_below_all(config, fs, p.pending, fuel) == dirs_below_all(
                config,
                fs,
                rest.pending,
                fuel,
            ));
            assert forall|i: int| 0 <= i < p.pending.len() implies settled(
                config,
                fs,
                #[trigger] p.pending[i],
                fuel,
            ) by {
                if i > 0 {
                    assert(rest.pending[i - 1] == p.pending[i]);
                }
            }
        } else {
            let q = visit(config, depth_first, fs, rest, node);
            let k = steps(config, fs, rest.guard, node);
            let children = kids(config, fs, node);
            assert(settle(config, p) == awaiting(rest, StageView::LinkMetadata(node)));
            lemma_visit(config, depth_first, fs, rest, node, fuel);
            lemma_visit_shape(config, depth_first, fs, rest, node);
            let left = (fuel - k) as nat;
            lemma_counts(config, depth_first, fs, q, left);
            if depth_first {
                lemma_dirs_all_concat(config, fs, children, rest.pending, left);
            } else {
                lemma_dirs_all_concat(config, fs, rest.pending, children, left);
            }
            assert(all_settled(config, fs, children, left)) by {
                assert forall|i: int| 0 <= i < children.len() implies settled(
                    config,
                    fs,
                    #[trigger] children[i],
                    left,
                ) by {
                    if depth_first {
                        assert(q.pending[i] == children[i]);
                    } else {
                        assert(q.pending[rest.pending.len() + i] == children[i]);
                    }
                }
            }
            assert(all_settled(config, fs, rest.pending, left)) by {
                assert forall|i: int| 0 <= i < rest.pending.len() implies settled(
                    config,
                    fs,
                    #[trigger] rest.pending[i],
                    left,
                ) by {
                    if depth_first {
                        assert(q.pending[children.len() + i] == rest.pending[i]);
                    } else {
                        assert(q.pending[i] == rest.pending[i]);
                    }
                }
            }
            lemma_all_settled_higher(config, fs, children, left, (fuel - 1) as nat, fuel);
            lemma_all_settled_higher(config, fs, rest.pending, left, fuel, fuel);
            assert(settled(config, fs, node, fuel));
            assert forall|i: int| 0 <= i < p.pending.len() implies settled(
                config,
                fs,
                #[trigger] p.pending[i],
                fuel,
            ) by {
                if i > 0 {
                    assert(rest.pending[i - 1] == p.pending[i]);
                }
            }
            let from_children = dirs_below_all(config, fs, children, left);
            let from_rest = dirs_below_all(config, fs, rest.pending, left);
            assert(dirs_below_all(config, fs, q.pending, left) == from_children + from_rest);
            assert(dirs_below(config, fs, node, fuel) == entered(fs, node) + from_children);
            assert(dirs_below_all(config, fs, p.pending, fuel) == dirs_below(
                config,
                fs,
                node,
                fuel,
            ) + from_rest);
            lemma_bump_add(p.found.directories, entered(fs, node), from_children + from_rest);
            assert(end == run(config, depth_first, fs, settle(config, q), left));
            assert(end.0.progress.found.directories == bump(
                q.found.directories,
                from_children + from_rest,
            ));
        }
    }
}

/// After a visit the nodes that wait are those that waited before, joined by
/// the children of the node where it sends any.
proof fn lemma_visit_pending(
    config: AnalyzerConfig,
    depth_first: bool,
    fs: FileSystem,
    p: Progress,
    node: NodeView,
)
    ensures
        visit(config, depth_first, fs, p, node).pending == p.pending || visit(
            config,
            depth_first,
            fs,
            p,
            node,
        ).pending == merged(depth_first, p.pending, kids(config, fs, node)),
{
}

/// A traversal ends: from between two nodes, where nothing lies more than
/// `height` levels below the nodes that wait, it is finished after four steps
/// for each node that is not ignored, at the latest. This holds with links,
/// with files of several names and under every limit.
pub proof fn lemma_walk_ends(
    config: AnalyzerConfig,
    depth_first: bool,
    fs: FileSystem,
    p: Progress,
    height: nat,
    fuel: nat,
)
    requires
        all_settled(config, fs, p.pending, height),
        fuel >= cost_all(config, fs, p.pending, height),
    ensures
        run(config, depth_first, fs, settle(config, p), fuel).1 is Finished,
    decreases cost_all(config, fs, p.pending, height), p.pending.len(),
{
    if p.pending.len() > 0 {
        let node = p.pending[0];
        let rest = Progress { pending: p.pending.drop_first(), ..p };
        assert forall|i: int| 0 <= i < rest.pending.len() implies settled(
            config,
            fs,
            #[trigger] rest.pending[i],
            height,
        ) by {
            assert(rest.pending[i] == p.pending[i + 1]);
        }
        if config.ignores(node.path) {
            lemma_walk_ends(config, depth_first, fs, rest, height, fuel);
        } else if crate::traversal::at_limit(config, p.found) {
        } else {
            let children = kids(config, fs, node);
            let q = visit(config, depth_first, fs, rest, node);
            let k = steps(config, fs, rest.guard, node);
            assert(settled(config, fs, node, height));
            assert(settle(config, p) == awaiting(rest, StageView::LinkMetadata(node)));
            lemma_visit(config, depth_first, fs, rest, node, fuel);
            lemma_visit_pending(config, depth_first, fs, rest, node);
            assert(all_settled(config, fs, children, (height - 1) as nat));
            lemma_all_settled_higher(config, fs, children, (height - 1) as nat, height, height);
            assert(height > 0);
            assert(cost(config, fs, node, height) == 4 + cost_all(
                config,
                fs,
                children,
                (height - 1) as nat,
            ));
            assert(cost_all(config, fs, p.pending, height) == cost(config, fs, node, height)
                + cost_all(config, fs, rest.pending, height));
            if q.pending == rest.pending {
            } else {
                if depth_first {
                    lemma_cost_all_concat(config, fs, children, rest.pending, height);
                } else {
                    lemma_cost_all_concat(config, fs, rest.pending, children, height);
                }
                assert forall|i: int| 0 <= i < q.pending.len() implies settled(
                    config,
                    fs,
                    #[trigger] q.pending[i],
                    height,
                ) by {
                    if depth_first {
                        if i < children.len() {
                            assert(q.pending[i] == children[i]);
                        } else {
                            assert(q.pending[i] == rest.pending[i - children.len()]);
                        }
                    } else {
                        if i < rest.pending.len() {
                            assert(q.pending[i] == rest.pending[i]);
                        } else {
                            assert(q.pending[i] == children[i - rest.pending.len()]);
                        }
                    }
                }
            }
            lemma_walk_ends(config, depth_first, fs, q, height, (fuel - k) as nat);
        }
    }
}

/// A traversal of a tree of finite height ends: where nothing lies more than
/// `height` levels below the root, the traversal that starts at the root is
/// finished after four steps for each node that is not ignored, at the
/// latest, whatever the guard knows, whatever was found before, and whatever
/// the links of the tree lead to.
pub proof fn lemma_traversal_ends(
    config: AnalyzerConfig,
    depth_first: bool,
    fs: FileSystem,
    root: Seq<char>,
    guard: GuardView,
    found: CollectorView,
    height: nat,
)
    requires
        settled(config, fs, NodeView { path: root, depth: 0 }, height),
    ensures
        run(
            config,
            depth_first,
            fs,
            start(config, root, guard, found),
            cost(config, fs, NodeView { path: root, depth: 0 }, height),
        ).1 is Finished,
{
    let top = NodeView { path: root, depth: 0 };
    let p = Progress { pending: seq![top], guard, found };
    assert(p.pending[0] == top);
    assert(p.pending.drop_first() =~= Seq::<NodeView>::empty());
    assert(cost_all(config, fs, p.pending.drop_first(), height) == 0);
    assert(cost_all(config, fs, p.pending, height) == cost(config, fs, top, height));
    lemma_walk_ends(config, depth_first, fs, p, height, cost(config, fs, top, height));
}

/// Two listings with the same outcome: the same failure, or the same
/// children, each as often in the one as in the other, in whatever order.
pub open spec fn same_children(
    one: Result<Seq<RawEntryView>, Seq<char>>,
    other: Result<Seq<RawEntryView>, Seq<char>>,
) -> bool {
    match one {
        Ok(l) => other is Ok && bag(l) == bag(other->Ok_0),
        Err(cause) => other == Err::<Seq<RawEntryView>, Seq<char>>(cause),
    }
}

/// Two file systems hold the same tree: they answer every request alike, but
/// that a directory may list its children in another order.
pub open spec fn same_tree(a: FileSystem, b: FileSystem) -> bool {
    &&& forall|path: Seq<char>| #[trigger] (a.own)(path) == (b.own)(path)
    &&& forall|path: Seq<char>| #[trigger] (a.canonical)(path) == (b.canonical)(path)
    &&& forall|path: Seq<char>| #[trigger] (a.target)(path) == (b.target)(path)
    &&& forall|path: Seq<char>| #[trigger] (a.link_text)(path) == (b.link_text)(path)
    &&& forall|path: Seq<char>| same_children(#[trigger] (a.listing)(path), (b.listing)(path))
}

/// The children that a listing sends to be visited, as a collection.
spec fn kid_bag(listing: Seq<RawEntryView>, depth: nat) -> Multiset<NodeView> {
    bag(child_nodes(readable(listing, depth)))
}

proof fn lemma_kid_bag_step(listing: Seq<RawEntryView>, depth: nat)
    requires
        listing.len() > 0,
    ensures
        kid_bag(listing, depth) == if listing.last().metadata is Some {
            kid_bag(listing.drop_last(), depth).insert(
                NodeView { path: listing.last().path, depth },
            )
        } else {
            kid_bag(listing.drop_last(), depth)
        },
{
    let earlier = readable(listing.drop_last(), depth);
    if listing.last().metadata is Some {
        let all = readable(listing, depth);
        assert(child_nodes(all).drop_last() =~= child_nodes(earlier));
        assert(child_nodes(all).last() == NodeView { path: listing.last().path, depth });
    }
}

proof fn lemma_kid_bag_without(listing: Seq<RawEntryView>, j: int, depth: nat)
    requires
        0 <= j < listing.len(),
    ensures
        kid_bag(listing, depth) == if listing[j].metadata is Some {
            kid_bag(listing.remove(j), depth).insert(NodeView { path: listing[j].path, depth })
        } else {
            kid_bag(listing.remove(j), depth)
        },
    decreases listing.len(),
{
    lemma_kid_bag_step(listing, depth);
    if j == listing.len() - 1 {
        assert(listing.remove(j) =~= listing.drop_last());
    } else {
        let shorter = listing.drop_last();
        lemma_kid_bag_without(shorter, j, depth);
        assert(listing.remove(j).drop_last() =~= shorter.remove(j));
        assert(listing.remove(j).last() == listing.last());
        assert(shorter[j] == listing[j]);
        lemma_kid_bag_step(listing.remove(j), depth);
        let removed = NodeView { path: listing[j].path, depth };
        let last = NodeView { path: listing.last().path, depth };
        let core = kid_bag(shorter.remove(j), depth);
        assert(core.insert(removed).insert(last) =~= core.insert(last).insert(removed));
    }
}

/// Listings with the same children send the same children to be visited.
proof fn lemma_kid_bag_same(one: Seq<RawEntryView>, other: Seq<RawEntryView>, depth: nat)
    requires
        bag(one) == bag(other),
    ensures
        kid_bag(one, depth) == kid_bag(other, depth),
    decreases one.len(),
{
    lemma_bag_len(one);
    lemma_bag_len(other);
    if one.len() == 0 {
        assert(other =~= one);
    } else {
        let j = lemma_bag_peel(one, other);
        lemma_kid_bag_step(one, depth);
        lemma_kid_bag_without(other, j, depth);
        lemma_kid_bag_same(one.drop_last(), other.remove(j), depth);
    }
}

/// On file systems with the same tree a node sends the same children to be
/// visited, in whatever order.
proof fn lemma_kids_same(config: AnalyzerConfig, a: FileSystem, b: FileSystem, node: NodeView)
    requires
        same_tree(a, b),
    ensures
        bag(kids(config, a, node)) == bag(kids(config, b, node)),
        entered(a, node) == entered(b, node),
        own_bag(config, a, node) == own_bag(config, b, node),
{
    assert((a.own)(node.path) == (b.own)(node.path));
    assert((a.canonical)(node.path) == (b.canonical)(node.path));
    assert((a.target)(node.path) == (b.target)(node.path));
    assert(same_children((a.listing)(node.path), (b.listing)(node.path)));
    if (a.listing)(node.path) is Ok {
        lemma_kid_bag_same(
            (a.listing)(node.path)->Ok_0,
            (b.listing)(node.path)->Ok_0,
            node.depth + 1,
        );
    }
}

/// The records and directories below several nodes, told from one of them
/// and from the others.
proof fn lemma_below_all_without(
    config: AnalyzerConfig,
    fs: FileSystem,
    nodes: Seq<NodeView>,
    j: int,
    height: nat,
)
    requires
        0 <= j < nodes.len(),
    ensures
        below_all(config, fs, nodes, height) == below(config, fs, nodes[j], height).add(
            below_all(config, fs, nodes.remove(j), height),
        ),
        dirs_below_all(config, fs, nodes, height) == dirs_below(config, fs, nodes[j], height)
            + dirs_below_all(config, fs, nodes.remove(j), height),
    decreases nodes.len(),
{
    if j == 0 {
        assert(nodes.remove(0) =~= nodes.drop_first());
    } else {
        let rest = nodes.drop_first();
        lemma_below_all_without(config, fs, rest, j - 1, height);
        assert(nodes.remove(j).drop_first() =~= rest.remove(j - 1));
        assert(nodes.remove(j)[0] == nodes[0]);
        assert(rest[j - 1] == nodes[j]);
        let first = below(config, fs, nodes[0], height);
        let picked = below(config, fs, nodes[j], height);
        let others = below_all(config, fs, rest.remove(j - 1), height);
        assert(first.add(picked.add(others)) =~= picked.add(first.add(others)));
    }
}

/// The records and directories below several nodes do not depend on the
/// order of the nodes, nor does whether all of them are settled.
proof fn lemma_below_all_any_order(
    config: AnalyzerConfig,
    fs: FileSystem,
    one: Seq<NodeView>,
    other: Seq<NodeView>,
    height: nat,
)
    requires
        bag(one) == bag(other),
    ensures
        below_all(config, fs, one, height) == below_all(config, fs, other, height),
        dirs_below_all(config, fs, one, height) == dirs_below_all(config, fs, other, height),
        all_settled(config, fs, one, height) == all_settled(config, fs, other, height),
    decreases one.len(),
{
    lemma_bag_len(one);
    lemma_bag_len(other);
    if one.len() == 0 {
        assert(other =~= one);
    } else {
        let j = lemma_bag_peel(one, other);
        let last = one.len() - 1;
        lemma_below_all_without(config, fs, one, last, height);
        lemma_below_all_without(config, fs, other, j, height);
        assert(one.remove(last) =~= one.drop_last());
        lemma_below_all_any_order(config, fs, one.drop_last(), other.remove(j), height);
        if all_settled(config, fs, one, height) {
            assert forall|i: int| 0 <= i < other.len() implies settled(
                config,
                fs,
                #[trigger] other[i],
                height,
            ) by {
                lemma_bag_member(other, i);
                lemma_bag_has(one, other[i]);
                let k = choose|k: int| 0 <= k < one.len() && one[k] == other[i];
                assert(settled(config, fs, one[k], height));
            }
        }
        if all_settled(config, fs, other, height) {
            assert forall|i: int| 0 <= i < one.len() implies settled(
                config,
                fs,
                #[trigger] one[i],
                height,
            ) by {
                lemma_bag_member(one, i);
                lemma_bag_has(other, one[i]);
                let k = choose|k: int| 0 <= k < other.len() && other[k] == one[i];
                assert(settled(config, fs, other[k], height));
            }
        }
    }
}

/// On file systems with the same tree the same lies below a node.
proof fn lemma_below_same(
    config: AnalyzerConfig,
    a: FileSystem,
    b: FileSystem,
    node: NodeView,
    height: nat,
)
    requires
        same_tree(a, b),
    ensures
        below(config, a, node, height) == below(config, b, node, height),
        dirs_below(config, a, node, height) == dirs_below(config, b, node, height),
        settled(config, a, node, height) == settled(config, b, node, height),
    decreases height, 0nat,
{
    if height > 0 && !config.ignores(node.path) {
        let one = kids(config, a, node);
        let other = kids(config, b, node);
        lemma_kids_same(config, a, b, node);
        lemma_below_all_same(config, a, b, one, (height - 1) as nat);
        lemma_below_all_any_order(config, b, one, other, (height - 1) as nat);
        assert(settled(config, a, node, height) == all_settled(
            config,
            a,
            one,
            (height - 1) as nat,
        ));
        assert(settled(config, b, node, height) == all_settled(
            config,
            b,
            other,
            (height - 1) as nat,
        ));
    }
}

proof fn lemma_below_all_same(
    config: AnalyzerConfig,
    a: FileSystem,
    b: FileSystem,
    nodes: Seq<NodeView>,
    height: nat,
)
    requires
        same_tree(a, b),
    ensures
        below_all(config, a, nodes, height) == below_all(config, b, nodes, height),
        dirs_below_all(config, a, nodes, height) == dirs_below_all(config, b, nodes, height),
        all_settled(config, a, nodes, height) == all_settled(config, b, nodes, height),
    decreases height, nodes.len() + 1,
{
    assert forall|i: int| 0 <= i < nodes.len() implies settled(
        config,
        a,
        #[trigger] nodes[i],
        height,
    ) == settled(config, b, nodes[i], height) by {
        lemma_below_same(config, a, b, nodes[i], height);
    }
    if nodes.len() > 0 {
        lemma_below_same(config, a, b, nodes[0], height);
        lemma_below_all_same(config, a, b, nodes.drop_first(), height);
    }
}

/// The order in which directories list their children does not change what
/// is found. Take two file systems with the same tree, without links, where
/// every file has one name and every path one place, and no file limit. Two
/// traversals of the same root, one on each, of whatever strategy, that both
/// come to their end hold the same records, each as often as the other, and
/// so the same number of records, the same sum of sizes and the same number
/// of links; and they have counted the same number of directories.
pub proof fn lemma_listing_order_is_immaterial(
    config: AnalyzerConfig,
    a: FileSystem,
    b: FileSystem,
    root: Seq<char>,
    first_depth_first: bool,
    second_depth_first: bool,
    first_fuel: nat,
    second_fuel: nat,
)
    requires
        config.max_files is None,
        same_tree(a, b),
        no_links(a),
        one_name_per_file(a),
        one_place_per_path(a, root),
        one_place_per_path(b, root),
        run(
            config,
            first_depth_first,
            a,
            start(config, root, empty_guard(), nothing_found()),
            first_fuel,
        ).1 is Finished,
        run(
            config,
            second_depth_first,
            b,
            start(config, root, empty_guard(), nothing_found()),
            second_fuel,
        ).1 is Finished,
    ensures
        ({
            let first = run(
                config,
                first_depth_first,
                a,
                start(config, root, empty_guard(), nothing_found()),
                first_fuel,
            ).0.progress.found;
            let second = run(
                config,
                second_depth_first,
                b,
                start(config, root, empty_guard(), nothing_found()),
                second_fuel,
            ).0.progress.found;
            &&& bag(first.entries) == bag(second.entries)
            &&& first.entries.len() == second.entries.len()
            &&& total_bytes(first.entries) == total_bytes(second.entries)
            &&& symlink_total(first.entries) == symlink_total(second.entries)
            &&& first.directories == second.directories
        }),
{
    let top = NodeView { path: root, depth: 0 };
    let p = Progress { pending: seq![top], guard: empty_guard(), found: nothing_found() };
    let done = Set::<Seq<char>>::empty();
    let first = run(config, first_depth_first, a, settle(config, p), first_fuel).0.progress.found;
    let second = run(
        config,
        second_depth_first,
        b,
        settle(config, p),
        second_fuel,
    ).0.progress.found;
    assert(no_links(b)) by {
        assert forall|path: Seq<char>| (#[trigger] (b.own)(path)) matches Ok(m) implies !(
        (b.own)(path)->Ok_0).is_symlink() by {
            assert((a.own)(path) == (b.own)(path));
        }
    }
    assert(one_name_per_file(b)) by {
        assert forall|x: Seq<char>, y: Seq<char>|
            #![trigger identity_at(b, x), identity_at(b, y)]
            identity_at(b, x) is Some && identity_at(b, x) == identity_at(b, y) implies x
                == y by {
            assert((a.target)(x) == (b.target)(x));
            assert((a.target)(y) == (b.target)(y));
            assert(identity_at(a, x) == identity_at(b, x));
            assert(identity_at(a, y) == identity_at(b, y));
        }
    }
    assert(orderly(a, root, p, done));
    assert(orderly(b, root, p, done));
    lemma_no_links_lead_nowhere(a);
    lemma_no_links_lead_nowhere(b);
    lemma_finds(config, first_depth_first, a, root, p, done, first_fuel);
    lemma_finds(config, second_depth_first, b, root, p, done, second_fuel);
    lemma_counts(config, first_depth_first, a, p, first_fuel);
    lemma_counts(config, second_depth_first, b, p, second_fuel);
    assert(p.pending[0] == top);
    assert(p.pending.drop_first() =~= Seq::<NodeView>::empty());
    let most = if first_fuel >= second_fuel {
        first_fuel
    } else {
        second_fuel
    };
    lemma_below_same(config, a, b, top, second_fuel);
    lemma_settled_higher(config, a, top, first_fuel, most);
    lemma_settled_higher(config, a, top, second_fuel, most);
    assert(below_all(config, a, p.pending.drop_first(), first_fuel) =~= Multiset::empty());
    assert(below_all(config, b, p.pending.drop_first(), second_fuel) =~= Multiset::empty());
    assert(below_all(config, a, p.pending, first_fuel) =~= below(config, a, top, first_fuel));
    assert(below_all(config, b, p.pending, second_fuel) =~= below(config, b, top, second_fuel));
    assert(dirs_below_all(config, a, p.pending.drop_first(), first_fuel) == 0);
    assert(dirs_below_all(config, b, p.pending.drop_first(), second_fuel) == 0);
    assert(dirs_below_all(config, a, p.pending, first_fuel) == dirs_below(
        config,
        a,
        top,
        first_fuel,
    ));
    assert(dirs_below_all(config, b, p.pending, second_fuel) == dirs_below(
        config,
        b,
        top,
        second_fuel,
    ));
    assert(bag(first.entries) == bag(second.entries));
    lemma_bag_totals(first.entries, second.entries);
}

/// The path is a link.
pub open spec fn link_at(fs: FileSystem, path: Seq<char>) -> bool {
    (fs.own)(path) is Ok && (fs.own)(path)->Ok_0.is_symlink()
}

/// The listing without the children that are links.
pub open spec fn without_links(fs: FileSystem, listing: Seq<RawEntryView>) -> Seq<RawEntryView>
    decreases listing.len(),
{
    if listing.len() == 0 {
        Seq::empty()
    } else if link_at(fs, listing.last().path) {
        without_links(fs, listing.drop_last())
    } else {
        without_links(fs, listing.drop_last()).push(listing.last())
    }
}

/// What a directory lists once the links are taken out.
pub open spec fn stripped_listing(fs: FileSystem, path: Seq<char>) -> Result<
    Seq<RawEntryView>,
    Seq<char>,
> {
    match (fs.listing)(path) {
        Ok(l) => Ok(without_links(fs, l)),
        Err(cause) => Err(cause),
    }
}

/// `bare` is `fs` with the links removed: no directory lists a link any
/// more, and nothing else has changed.
pub open spec fn stripped(fs: FileSystem, bare: FileSystem) -> bool {
    &&& forall|path: Seq<char>| #[trigger] (fs.own)(path) == (bare.own)(path)
    &&& forall|path: Seq<char>| #[trigger] (fs.canonical)(path) == (bare.canonical)(path)
    &&& forall|path: Seq<char>| #[trigger] (fs.target)(path) == (bare.target)(path)
    &&& forall|path: Seq<char>| #[trigger] (fs.link_text)(path) == (bare.link_text)(path)
    &&& forall|path: Seq<char>| #[trigger] (bare.listing)(path) == stripped_listing(fs, path)
}

/// A link yields no record of its own where links lead to no files, counts as
/// no directory and sends no children: nothing lies below it.
proof fn lemma_nothing_below_link(
    config: AnalyzerConfig,
    fs: FileSystem,
    node: NodeView,
    height: nat,
)
    requires
        link_at(fs, node.path),
    ensures
        below(config, fs, node, height) == Multiset::<FileEntryView>::empty(),
        dirs_below(config, fs, node, height) == 0,
{
    assert(kids(config, fs, node) =~= Seq::<NodeView>::empty());
    if height > 0 {
        assert(below_all(config, fs, kids(config, fs, node), (height - 1) as nat)
            =~= Multiset::<FileEntryView>::empty());
        assert(dirs_below_all(config, fs, kids(config, fs, node), (height - 1) as nat) == 0);
        assert(Multiset::<FileEntryView>::empty().add(Multiset::<FileEntryView>::empty())
            =~= Multiset::<FileEntryView>::empty());
    }
}

proof fn lemma_below_all_push(
    config: AnalyzerConfig,
    fs: FileSystem,
    nodes: Seq<NodeView>,
    node: NodeView,
    height: nat,
)
    ensures
        below_all(config, fs, nodes.push(node), height) == below_all(
            config,
            fs,
            nodes,
            height,
        ).add(below(config, fs, node, height)),
        dirs_below_all(config, fs, nodes.push(node), height) == dirs_below_all(
            config,
            fs,
            nodes,
            height,
        ) + dirs_below(config, fs, node, height),
{
    let one = seq![node];
    assert(nodes.push(node) =~= nodes + one);
    lemma_below_all_concat(config, fs, nodes, one, height);
    lemma_dirs_all_concat(config, fs, nodes, one, height);
    assert(one.drop_first() =~= Seq::<NodeView>::empty());
    assert(below_all(config, fs, one.drop_first(), height) =~= Multiset::<
        FileEntryView,
    >::empty());
    assert(below_all(config, fs, one, height) =~= below(config, fs, node, height));
    assert(dirs_below_all(config, fs, one.drop_first(), height) == 0);
    assert(dirs_below_all(config, fs, one, height) == dirs_below(config, fs, node, height));
}

/// The same lies below the children of a listing with and without its links.
proof fn lemma_links_add_nothing_below(
    config: AnalyzerConfig,
    fs: FileSystem,
    listing: Seq<RawEntryView>,
    depth: nat,
    height: nat,
)
    ensures
        below_all(config, fs, child_nodes(readable(listing, depth)), height) == below_all(
            config,
            fs,
            child_nodes(readable(without_links(fs, listing), depth)),
            height,
        ),
        dirs_below_all(config, fs, child_nodes(readable(listing, depth)), height)
            == dirs_below_all(
            config,
            fs,
            child_nodes(readable(without_links(fs, listing), depth)),
            height,
        ),
    decreases listing.len(),
{
    if listing.len() > 0 {
        let shorter = listing.drop_last();
        let last = listing.last();
        let node = NodeView { path: last.path, depth };
        let all = child_nodes(readable(listing, depth));
        let most = child_nodes(readable(shorter, depth));
        let bare = without_links(fs, listing);
        let bare_most = child_nodes(readable(without_links(fs, shorter), depth));
        lemma_links_add_nothing_below(config, fs, shorter, depth, height);
        if last.metadata is Some {
            assert(all =~= most.push(node));
            lemma_below_all_push(config, fs, most, node, height);
        } else {
            assert(all =~= most);
        }
        if link_at(fs, last.path) {
            lemma_nothing_below_link(config, fs, node, height);
            assert(below_all(config, fs, most, height).add(Multiset::<FileEntryView>::empty())
                =~= below_all(config, fs, most, height));
        } else {
            assert(bare.drop_last() =~= without_links(fs, shorter));
            assert(bare.last() == last);
            if last.metadata is Some {
                assert(child_nodes(readable(bare, depth)) =~= bare_most.push(node));
                lemma_below_all_push(config, fs, bare_most, node, height);
            } else {
                assert(child_nodes(readable(bare, depth)) =~= bare_most);
            }
        }
    }
}

/// The same lies below a node on a file system and on the file system with
/// its links removed.
proof fn lemma_below_stripped(
    config: AnalyzerConfig,
    fs: FileSystem,
    bare: FileSystem,
    node: NodeView,
    height: nat,
)
    requires
        stripped(fs, bare),
    ensures
        below(config, fs, node, height) == below(config, bare, node, height),
        dirs_below(config, fs, node, height) == dirs_below(config, bare, node, height),
    decreases height, 0nat,
{
    if height > 0 && !config.ignores(node.path) {
        assert((fs.own)(node.path) == (bare.own)(node.path));
        assert((fs.canonical)(node.path) == (bare.canonical)(node.path));
        assert((fs.target)(node.path) == (bare.target)(node.path));
        assert((bare.listing)(node.path) == stripped_listing(fs, node.path));
        let other = kids(config, bare, node);
        if (fs.listing)(node.path) is Ok {
            lemma_links_add_nothing_below(
                config,
                fs,
                (fs.listing)(node.path)->Ok_0,
                node.depth + 1,
                (height - 1) as nat,
            );
        }
        lemma_below_all_stripped(config, fs, bare, other, (height - 1) as nat);
    }
}

proof fn lemma_below_all_stripped(
    config: AnalyzerConfig,
    fs: FileSystem,
    bare: FileSystem,
    nodes: Seq<NodeView>,
    height: nat,
)
    requires
        stripped(fs, bare),
    ensures
        below_all(config, fs, nodes, height) == below_all(config, bare, nodes, height),
        dirs_below_all(config, fs, nodes, height) == dirs_below_all(config, bare, nodes, height),
    decreases height, nodes.len() + 1,
{
    if nodes.len() > 0 {
        lemma_below_stripped(config, fs, bare, nodes[0], height);
        lemma_below_all_stripped(config, fs, bare, nodes.drop_first(), height);
    }
}

/// Links that lead to no files add nothing to what is found but warnings.
/// Take a file system whose links lead to directories or to nothing, where
/// every file has one name and every path one place, and the same file
/// system with the links removed; no file limit. Two traversals of the same
/// root, one on each, of whatever strategy, that both come to their end hold
/// the same records, each as often as the other, and so the same number of
/// records, the same sum of sizes and the same number of links; and they have
/// counted the same number of directories.
pub proof fn lemma_links_add_nothing(
    config: AnalyzerConfig,
    fs: FileSystem,
    bare: FileSystem,
    root: Seq<char>,
    first_depth_first: bool,
    second_depth_first: bool,
    first_fuel: nat,
    second_fuel: nat,
)
    requires
        config.max_files is None,
        stripped(fs, bare),
        links_lead_to_no_files(fs),
        one_name_per_file(fs),
        one_place_per_path(fs, root),
        one_place_per_path(bare, root),
        run(
            config,
            first_depth_first,
            fs,
            start(config, root, empty_guard(), nothing_found()),
            first_fuel,
        ).1 is Finished,
        run(
            config,
            second_depth_first,
            bare,
            start(config, root, empty_guard(), nothing_found()),
            second_fuel,
        ).1 is Finished,
    ensures
        ({
            let first = run(
                config,
                first_depth_first,
                fs,
                start(config, root, empty_guard(), nothing_found()),
                first_fuel,
            ).0.progress.found;
            let second = run(
                config,
                second_depth_first,
                bare,
                start(config, root, empty_guard(), nothing_found()),
                second_fuel,
            ).0.progress.found;
            &&& bag(first.entries) == bag(second.entries)
            &&& first.entries.len() == second.entries.len()
            &&& total_bytes(first.entries) == total_bytes(second.entries)
            &&& symlink_total(first.entries) == symlink_total(second.entries)
            &&& first.directories == second.directories
        }),
{
    let top = NodeView { path: root, depth: 0 };
    let p = Progress { pending: seq![top], guard: empty_guard(), found: nothing_found() };
    let done = Set::<Seq<char>>::empty();
    let first = run(config, first_depth_first, fs, settle(config, p), first_fuel).0.progress.found;
    let second = run(
        config,
        second_depth_first,
        bare,
        settle(config, p),
        second_fuel,
    ).0.progress.found;
    assert forall|path: Seq<char>| identity_at(fs, path) == identity_at(bare, path) by {
        assert((fs.target)(path) == (bare.target)(path));
    }
    assert forall|path: Seq<char>| link_identity_at(fs, path) == link_identity_at(
        bare,
        path,
    ) by {
        assert((fs.own)(path) == (bare.own)(path));
    }
    assert(one_name_per_file(bare)) by {
        assert forall|x: Seq<char>, y: Seq<char>|
            #![trigger identity_at(bare, x), identity_at(bare, y)]
            identity_at(bare, x) is Some && identity_at(bare, x) == identity_at(bare, y) implies x
                == y by {
            assert(identity_at(fs, x) == identity_at(bare, x));
            assert(identity_at(fs, y) == identity_at(bare, y));
        }
    }
    assert(links_lead_to_no_files(bare)) by {
        assert forall|path: Seq<char>|
            ((#[trigger] (bare.own)(path)) is Ok && (bare.own)(path)->Ok_0.is_symlink())
                implies !((bare.target)(path) is Ok && (bare.target)(path)->Ok_0.is_file()) by {
            assert((fs.own)(path) == (bare.own)(path));
            assert((fs.target)(path) == (bare.target)(path));
        }
        assert forall|link: Seq<char>, path: Seq<char>|
            #![trigger link_identity_at(bare, link), identity_at(bare, path)]
            link_identity_at(bare, link) is Some implies link_identity_at(bare, link)
                != identity_at(bare, path) by {
            assert(link_identity_at(fs, link) == link_identity_at(bare, link));
            assert(identity_at(fs, path) == identity_at(bare, path));
        }
    }
    assert(orderly(fs, root, p, done));
    assert(orderly(bare, root, p, done));
    lemma_finds(config, first_depth_first, fs, root, p, done, first_fuel);
    lemma_finds(config, second_depth_first, bare, root, p, done, second_fuel);
    lemma_counts(config, first_depth_first, fs, p, first_fuel);
    lemma_counts(config, second_depth_first, bare, p, second_fuel);
    assert(p.pending[0] == top);
    assert(p.pending.drop_first() =~= Seq::<NodeView>::empty());
    let most = if first_fuel >= second_fuel {
        first_fuel
    } else {
        second_fuel
    };
    lemma_settled_higher(config, fs, top, first_fuel, most);
    lemma_settled_higher(config, bare, top, second_fuel, most);
    lemma_below_stripped(config, fs, bare, top, most);
    assert(below_all(config, fs, p.pending.drop_first(), first_fuel) =~= Multiset::empty());
    assert(below_all(config, bare, p.pending.drop_first(), second_fuel) =~= Multiset::empty());
    assert(below_all(config, fs, p.pending, first_fuel) =~= below(config, fs, top, first_fuel));
    assert(below_all(config, bare, p.pending, second_fuel) =~= below(
        config,
        bare,
        top,
        second_fuel,
    ));
    assert(dirs_below_all(config, fs, p.pending.drop_first(), first_fuel) == 0);
    assert(dirs_below_all(config, bare, p.pending.drop_first(), second_fuel) == 0);
    assert(dirs_below_all(config, fs, p.pending, first_fuel) == dirs_below(
        config,
        fs,
        top,
        first_fuel,
    ));
    assert(dirs_below_all(config, bare, p.pending, second_fuel) == dirs_below(
        config,
        bare,
        top,
        second_fuel,
    ));
    assert(bag(first.entries) == bag(second.entries));
    lemma_bag_totals(first.entries, second.entries);
}

} // verus!
