use std::collections::HashMap;

use wiztree_metafile::analyzer::{AnalysisResult, FileAnalyzer, FileEntry};
use wiztree_metafile::config::{AnalyzerConfig, TraversalStrategy};
use wiztree_metafile::error::AnalyzerError;
use wiztree_metafile::fs::{FileIdentity, FileKind, FileMetadata, FsReply, FsRequest, RawEntry};

/// A file system in memory, for the traversals to ask.
struct Node {
    kind: FileKind,
    len: u64,
    ino: u64,
    children: Vec<String>,
    link_to: Option<String>,
    unreadable: bool,
}

struct MemFs {
    nodes: HashMap<String, Node>,
    next_ino: u64,
}

impl MemFs {
    fn new() -> Self {
        let mut fs = MemFs { nodes: HashMap::new(), next_ino: 1 };
        fs.insert("root", FileKind::Directory, 0, None);
        fs
    }

    fn insert(&mut self, path: &str, kind: FileKind, len: u64, link_to: Option<&str>) {
        let ino = self.next_ino;
        self.next_ino += 1;
        self.nodes.insert(
            path.to_string(),
            Node {
                kind,
                len,
                ino,
                children: Vec::new(),
                link_to: link_to.map(|t| t.to_string()),
                unreadable: false,
            },
        );
        if let Some(at) = path.rfind('/') {
            let parent = &path[..at];
            self.nodes.get_mut(parent).unwrap().children.push(path.to_string());
        }
    }

    fn dir(&mut self, path: &str) {
        self.insert(path, FileKind::Directory, 0, None);
    }

    fn file(&mut self, path: &str, len: u64) {
        self.insert(path, FileKind::File, len, None);
    }

    fn symlink(&mut self, path: &str, to: &str) {
        self.insert(path, FileKind::Symlink, 0, Some(to));
    }

    /// A second name for the file at `of`.
    fn hard_link(&mut self, path: &str, of: &str) {
        let (len, ino) = {
            let node = &self.nodes[of];
            (node.len, node.ino)
        };
        self.insert(path, FileKind::File, len, None);
        self.nodes.get_mut(path).unwrap().ino = ino;
    }

    fn make_unreadable(&mut self, path: &str) {
        self.nodes.get_mut(path).unwrap().unreadable = true;
    }

    fn own(&self, path: &str) -> Result<FileMetadata, String> {
        match self.nodes.get(path) {
            Some(node) => Ok(FileMetadata {
                kind: node.kind,
                len: node.len,
                identity: Some(FileIdentity { dev: 1, ino: node.ino }),
            }),
            None => Err("No such file or directory".to_string()),
        }
    }

    fn resolve(&self, path: &str) -> Result<String, String> {
        let mut at = path.to_string();
        for _ in 0..16 {
            match self.nodes.get(&at) {
                None => return Err("No such file or directory".to_string()),
                Some(node) => match &node.link_to {
                    Some(to) => at = to.clone(),
                    None => return Ok(at),
                },
            }
        }
        Err("Too many levels of symbolic links".to_string())
    }

    fn answer(&self, request: &FsRequest) -> FsReply {
        match request {
            FsRequest::LinkMetadata(path) => FsReply::Metadata(self.own(path)),
            FsRequest::Canonicalize(path) => FsReply::Path(self.resolve(path)),
            FsRequest::Metadata(path) => {
                FsReply::Metadata(self.resolve(path).and_then(|at| self.own(&at)))
            }
            FsRequest::ReadLink(path) => FsReply::Path(match self.nodes.get(path) {
                Some(Node { link_to: Some(to), .. }) => Ok(to.clone()),
                _ => Err("Invalid argument".to_string()),
            }),
            FsRequest::ReadDir(path) => FsReply::Entries(match self.nodes.get(path) {
                Some(node) if node.unreadable => Err("Permission denied".to_string()),
                Some(node) => Ok(node
                    .children
                    .iter()
                    .map(|child| RawEntry { path: child.clone(), metadata: self.own(child).ok() })
                    .collect()),
                None => Err("No such file or directory".to_string()),
            }),
            FsRequest::Finished => unreachable!(),
        }
    }
}

fn config(strategy: TraversalStrategy) -> AnalyzerConfig {
    let mut config = AnalyzerConfig::new("root".to_string());
    config.traversal_strategy = strategy;
    config
}

/// Runs an analysis to its end and returns the result with the requests made.
fn run(config: AnalyzerConfig, fs: &MemFs) -> (AnalysisResult, Vec<FsRequest>) {
    let analyzer = FileAnalyzer::new(config);
    let root = match fs.answer(&FsRequest::Metadata(analyzer.config().root_path.clone())) {
        FsReply::Metadata(r) => r.ok(),
        _ => unreachable!(),
    };
    let (mut analysis, mut request) = analyzer.analyze(root).unwrap();
    let mut asked = Vec::new();
    let mut steps = 0;
    while !matches!(request, FsRequest::Finished) {
        assert!(!analysis.is_finished());
        steps += 1;
        assert!(steps < 10_000, "the traversal does not end");
        let reply = fs.answer(&request);
        asked.push(request);
        request = analyzer.resume(&mut analysis, reply);
    }
    assert!(analysis.is_finished());
    (analyzer.finish(analysis), asked)
}

fn summary(result: &AnalysisResult) -> Vec<(String, u64, usize)> {
    let mut all: Vec<(String, u64, usize)> =
        result.entries.iter().map(|e| (e.path.clone(), e.size, e.depth)).collect();
    all.sort();
    all
}

fn paths(result: &AnalysisResult) -> Vec<String> {
    result.entries.iter().map(|e| e.path.clone()).collect()
}

fn sample_tree() -> MemFs {
    let mut fs = MemFs::new();
    fs.file("root/a.txt", 10);
    fs.dir("root/sub");
    fs.file("root/sub/b.txt", 20);
    fs.dir("root/sub/deep");
    fs.file("root/sub/deep/c.txt", 30);
    fs.file("root/z.txt", 40);
    fs
}

#[test]
fn strategies_find_the_same_records() {
    let fs = sample_tree();
    let (dfs, _) = run(config(TraversalStrategy::DepthFirst), &fs);
    let (bfs, _) = run(config(TraversalStrategy::BreadthFirst), &fs);
    assert_eq!(summary(&dfs), summary(&bfs));
    assert_eq!(
        summary(&dfs),
        vec![
            ("root/a.txt".to_string(), 10, 1),
            ("root/sub/b.txt".to_string(), 20, 2),
            ("root/sub/deep/c.txt".to_string(), 30, 3),
            ("root/z.txt".to_string(), 40, 1),
        ]
    );
    assert_eq!(dfs.directory_count, 3);
    assert_eq!(bfs.directory_count, 3);
}

#[test]
fn strategies_differ_in_order_only() {
    let fs = sample_tree();
    let (dfs, _) = run(config(TraversalStrategy::DepthFirst), &fs);
    let (bfs, _) = run(config(TraversalStrategy::BreadthFirst), &fs);
    assert_eq!(
        paths(&dfs),
        vec!["root/a.txt", "root/sub/b.txt", "root/sub/deep/c.txt", "root/z.txt"]
    );
    assert_eq!(
        paths(&bfs),
        vec!["root/a.txt", "root/z.txt", "root/sub/b.txt", "root/sub/deep/c.txt"]
    );
}

#[test]
fn total_size_is_the_sum_of_the_records() {
    let fs = sample_tree();
    let (result, _) = run(config(TraversalStrategy::DepthFirst), &fs);
    let sum: u64 = result.entries.iter().map(|e| e.size).sum();
    assert_eq!(result.total_size, sum);
    assert_eq!(result.total_size, 100);
    assert_eq!(result.file_count, 4);
    assert_eq!(result.file_count, result.entries.len());
    assert_eq!(result.symlink_count, 0);
    assert!(!result.incomplete);
    assert!(result.warnings.is_empty());
}

#[test]
fn depth_limit_stops_reading_and_recording() {
    let mut fs = sample_tree();
    // Reading this directory fails, so that a read would leave a warning.
    fs.make_unreadable("root/sub/deep");
    for strategy in [TraversalStrategy::DepthFirst, TraversalStrategy::BreadthFirst] {
        let mut limited = config(strategy);
        limited.max_depth = Some(2);
        let (result, asked) = run(limited, &fs);
        assert!(result.entries.iter().all(|e| e.depth <= 2));
        assert_eq!(
            summary(&result),
            vec![
                ("root/a.txt".to_string(), 10, 1),
                ("root/sub/b.txt".to_string(), 20, 2),
                ("root/z.txt".to_string(), 40, 1),
            ]
        );
        assert!(result.warnings.is_empty());
        assert!(!asked
            .iter()
            .any(|r| matches!(r, FsRequest::ReadDir(p) if p == "root/sub/deep")));
        // The directory at the limit is still counted, but not read.
        assert_eq!(result.directory_count, 3);
    }
}

#[test]
fn depth_limit_of_one_reads_the_root_only() {
    let fs = sample_tree();
    let mut limited = config(TraversalStrategy::DepthFirst);
    limited.max_depth = Some(1);
    let (result, asked) = run(limited, &fs);
    assert_eq!(paths(&result), vec!["root/a.txt", "root/z.txt"]);
    assert!(result.entries.iter().all(|e| e.depth == 1));
    let reads: Vec<&FsRequest> =
        asked.iter().filter(|r| matches!(r, FsRequest::ReadDir(_))).collect();
    assert_eq!(reads.len(), 1);
}

#[test]
fn unreadable_directory_is_a_warning() {
    let mut fs = sample_tree();
    fs.make_unreadable("root/sub");
    let (result, _) = run(config(TraversalStrategy::BreadthFirst), &fs);
    assert_eq!(paths(&result), vec!["root/a.txt", "root/z.txt"]);
    assert_eq!(
        result.warnings,
        vec!["Cannot read directory root/sub: IO error: Permission denied".to_string()]
    );
    assert_eq!(result.directory_count, 2);
}

#[test]
fn min_size_filters_small_files() {
    let fs = sample_tree();
    for strategy in [TraversalStrategy::DepthFirst, TraversalStrategy::BreadthFirst] {
        let mut filtered = config(strategy);
        filtered.min_file_size = 20;
        let (result, _) = run(filtered, &fs);
        assert!(result.entries.iter().all(|e| e.size >= 20));
        assert_eq!(
            summary(&result),
            vec![
                ("root/sub/b.txt".to_string(), 20, 2),
                ("root/sub/deep/c.txt".to_string(), 30, 3),
                ("root/z.txt".to_string(), 40, 1),
            ]
        );
        assert_eq!(result.total_size, 90);
    }
}

#[test]
fn hard_links_are_counted_once() {
    let mut fs = MemFs::new();
    fs.file("root/one", 7);
    fs.hard_link("root/two", "root/one");
    // Two files of their own with the same size.
    fs.file("root/three", 7);
    fs.file("root/four", 7);
    let (result, _) = run(config(TraversalStrategy::DepthFirst), &fs);
    assert_eq!(paths(&result), vec!["root/one", "root/three", "root/four"]);
    assert_eq!(result.total_size, 21);
}

#[test]
fn small_hard_link_is_not_remembered() {
    // A file below the size filter is not marked as seen.
    let mut fs = MemFs::new();
    fs.file("root/one", 7);
    fs.hard_link("root/two", "root/one");
    let mut filtered = config(TraversalStrategy::DepthFirst);
    filtered.min_file_size = 8;
    let (result, _) = run(filtered, &fs);
    assert!(result.entries.is_empty());
}

#[test]
fn circular_link_is_a_warning() {
    let mut fs = sample_tree();
    fs.symlink("root/sub/deep/up", "root/sub");
    for strategy in [TraversalStrategy::DepthFirst, TraversalStrategy::BreadthFirst] {
        let (result, _) = run(config(strategy), &fs);
        assert_eq!(
            result.warnings,
            vec!["Circular symlink detected: root/sub/deep/up".to_string()]
        );
        assert_eq!(result.file_count, 4);
        assert_eq!(result.symlink_count, 0);
        assert!(!result.incomplete);
    }
}

#[test]
fn link_to_a_file_is_recorded_with_its_target() {
    let mut fs = MemFs::new();
    fs.file("root/data", 12);
    fs.symlink("root/link", "root/data");
    let (result, asked) = run(config(TraversalStrategy::DepthFirst), &fs);
    assert_eq!(paths(&result), vec!["root/data", "root/link"]);
    let link: &FileEntry = &result.entries[1];
    assert!(link.is_symlink);
    assert_eq!(link.size, 12);
    assert_eq!(link.target, Some("root/data".to_string()));
    assert_eq!(result.entries[0].target, None);
    assert!(!result.entries[0].is_symlink);
    assert_eq!(result.symlink_count, 1);
    assert_eq!(result.total_size, 24);
    assert!(asked.iter().any(|r| matches!(r, FsRequest::ReadLink(p) if p == "root/link")));
}

#[test]
fn link_to_a_directory_is_not_followed() {
    let mut fs = MemFs::new();
    fs.dir("root/real");
    fs.file("root/real/f", 5);
    fs.dir("root/other");
    fs.symlink("root/other/ln", "root/elsewhere");
    fs.dir("root/elsewhere");
    fs.file("root/elsewhere/g", 6);
    let (result, _) = run(config(TraversalStrategy::DepthFirst), &fs);
    assert_eq!(paths(&result), vec!["root/real/f", "root/elsewhere/g"]);
    assert_eq!(
        result.warnings,
        Vec::<String>::new(),
        "a link to a directory that was not entered yet is skipped silently"
    );
}

#[test]
fn broken_link_is_a_warning() {
    let mut fs = MemFs::new();
    fs.symlink("root/dangling", "root/nowhere");
    fs.file("root/f", 1);
    let (result, _) = run(config(TraversalStrategy::DepthFirst), &fs);
    assert_eq!(paths(&result), vec!["root/f"]);
    assert_eq!(
        result.warnings,
        vec![
            "Cannot access root/dangling: Path error: Failed to canonicalize path root/dangling: \
             No such file or directory"
                .to_string()
        ]
    );
}

#[test]
fn vanished_child_is_a_warning() {
    let mut fs = MemFs::new();
    fs.file("root/f", 1);
    fs.nodes.get_mut("root").unwrap().children.push("root/gone".to_string());
    let (result, _) = run(config(TraversalStrategy::BreadthFirst), &fs);
    // The listing leaves out a child whose metadata cannot be read.
    assert_eq!(paths(&result), vec!["root/f"]);
    assert!(result.warnings.is_empty());
}

#[test]
fn file_limit_cuts_the_traversal_short() {
    let mut fs = MemFs::new();
    for name in ["a", "b", "c", "d", "e"] {
        fs.file(&format!("root/{name}"), 1);
    }
    for strategy in [TraversalStrategy::DepthFirst, TraversalStrategy::BreadthFirst] {
        let mut limited = config(strategy);
        limited.max_files = Some(2);
        let (result, _) = run(limited, &fs);
        assert_eq!(result.entries.len(), 2);
        assert_eq!(result.file_count, 2);
        assert!(result.incomplete);
        assert_eq!(paths(&result), vec!["root/a", "root/b"]);
    }
}

#[test]
fn file_limit_that_is_not_reached_leaves_the_result_complete() {
    let mut fs = MemFs::new();
    fs.file("root/a", 1);
    fs.file("root/b", 1);
    let mut limited = config(TraversalStrategy::DepthFirst);
    limited.max_files = Some(2);
    let (result, _) = run(limited, &fs);
    assert_eq!(result.entries.len(), 2);
    assert!(!result.incomplete);
}

#[test]
fn file_limit_of_zero_ends_at_once() {
    let fs = sample_tree();
    let mut limited = config(TraversalStrategy::BreadthFirst);
    limited.max_files = Some(0);
    let (result, asked) = run(limited, &fs);
    assert!(result.entries.is_empty());
    assert!(result.incomplete);
    assert!(asked.is_empty());
    assert_eq!(result.directory_count, 0);
}

#[test]
fn ignored_paths_are_left_out_with_their_subtrees() {
    let mut fs = sample_tree();
    fs.file("root/scratch.tmp", 3);
    fs.dir("root/cache.tmp");
    fs.file("root/cache.tmp/kept.txt", 4);
    for strategy in [TraversalStrategy::DepthFirst, TraversalStrategy::BreadthFirst] {
        let mut ignoring = config(strategy);
        ignoring.set_ignore_patterns(vec!["*.tmp".to_string()]).unwrap();
        let (result, asked) = run(ignoring, &fs);
        assert_eq!(
            summary(&result),
            vec![
                ("root/a.txt".to_string(), 10, 1),
                ("root/sub/b.txt".to_string(), 20, 2),
                ("root/sub/deep/c.txt".to_string(), 30, 3),
                ("root/z.txt".to_string(), 40, 1),
            ]
        );
        assert_eq!(result.directory_count, 3);
        // Nothing is asked about an ignored path.
        assert!(!asked.iter().any(|r| match r {
            FsRequest::LinkMetadata(p)
            | FsRequest::Canonicalize(p)
            | FsRequest::Metadata(p)
            | FsRequest::ReadLink(p)
            | FsRequest::ReadDir(p) => p.contains(".tmp"),
            FsRequest::Finished => false,
        }));
    }
}

#[test]
fn ignored_root_yields_nothing() {
    let fs = sample_tree();
    let mut ignoring = config(TraversalStrategy::DepthFirst);
    ignoring.set_ignore_patterns(vec!["root".to_string()]).unwrap();
    ignoring.max_files = Some(0);
    let (result, asked) = run(ignoring, &fs);
    assert!(result.entries.is_empty());
    assert!(asked.is_empty());
    assert!(!result.incomplete);
}

#[test]
fn wrong_reply_asks_again() {
    let fs = sample_tree();
    let analyzer = FileAnalyzer::new(config(TraversalStrategy::DepthFirst));
    let root = FileMetadata { kind: FileKind::Directory, len: 0, identity: None };
    let (mut analysis, request) = analyzer.analyze(Some(root)).unwrap();
    assert!(matches!(&request, FsRequest::LinkMetadata(p) if p == "root"));
    let again = analyzer.resume(&mut analysis, FsReply::Path(Ok("root".to_string())));
    assert!(matches!(&again, FsRequest::LinkMetadata(p) if p == "root"));
    let next = analyzer.resume(&mut analysis, fs.answer(&again));
    assert!(matches!(&next, FsRequest::Canonicalize(p) if p == "root"));
}

#[test]
fn missing_root_is_a_configuration_error() {
    let analyzer = FileAnalyzer::new(config(TraversalStrategy::DepthFirst));
    match analyzer.analyze(None) {
        Err(AnalyzerError::InvalidConfig(text)) => {
            assert_eq!(text, "Root path does not exist: root")
        }
        _ => panic!("an invalid configuration was accepted"),
    }
}

#[test]
fn root_that_cannot_be_read_is_a_warning() {
    let fs = MemFs { nodes: HashMap::new(), next_ino: 1 };
    let analyzer = FileAnalyzer::new(config(TraversalStrategy::DepthFirst));
    let root = FileMetadata { kind: FileKind::Directory, len: 0, identity: None };
    let (mut analysis, request) = analyzer.analyze(Some(root)).unwrap();
    let request = analyzer.resume(&mut analysis, fs.answer(&request));
    assert!(matches!(request, FsRequest::Finished));
    let result = analyzer.finish(analysis);
    assert_eq!(
        result.warnings,
        vec!["Cannot access root: No such file or directory".to_string()]
    );
}

#[test]
fn single_thread_needs_no_pool() {
    let mut one = config(TraversalStrategy::DepthFirst);
    one.thread_count = 1;
    assert!(!FileAnalyzer::new(one).uses_thread_pool());
    let mut four = config(TraversalStrategy::DepthFirst);
    four.thread_count = 4;
    assert!(FileAnalyzer::new(four).uses_thread_pool());
}

fn totals(result: &AnalysisResult) -> (usize, u64, usize, usize) {
    (result.file_count, result.total_size, result.symlink_count, result.directory_count)
}

#[test]
fn listing_order_does_not_change_what_is_found() {
    let forward = sample_tree();
    let mut backward = sample_tree();
    for node in backward.nodes.values_mut() {
        node.children.reverse();
    }
    for first in [TraversalStrategy::DepthFirst, TraversalStrategy::BreadthFirst] {
        for second in [TraversalStrategy::DepthFirst, TraversalStrategy::BreadthFirst] {
            let (one, _) = run(config(first), &forward);
            let (other, _) = run(config(second), &backward);
            assert_eq!(summary(&one), summary(&other));
            assert_eq!(totals(&one), totals(&other));
            assert_eq!(totals(&one), (4, 100, 0, 3));
        }
    }
    let (one, _) = run(config(TraversalStrategy::DepthFirst), &forward);
    let (other, _) = run(config(TraversalStrategy::DepthFirst), &backward);
    assert_ne!(paths(&one), paths(&other));
}

#[test]
fn links_to_directories_add_warnings_only() {
    let bare = sample_tree();
    let mut linked = sample_tree();
    linked.symlink("root/sub/loop", "root");
    linked.symlink("root/sub/deep/side", "root/sub");
    linked.symlink("root/dangling", "root/nowhere");
    for strategy in [TraversalStrategy::DepthFirst, TraversalStrategy::BreadthFirst] {
        let (with_links, _) = run(config(strategy), &linked);
        let (without, _) = run(config(strategy), &bare);
        assert_eq!(summary(&with_links), summary(&without));
        assert_eq!(totals(&with_links), totals(&without));
        assert!(without.warnings.is_empty());
        let about_loop: Vec<&String> =
            with_links.warnings.iter().filter(|w| w.contains("root/sub/loop")).collect();
        assert_eq!(about_loop, vec!["Circular symlink detected: root/sub/loop"]);
        assert!(with_links.entries.iter().all(|e| !e.path.contains("loop")));
    }
}

#[test]
fn children_of_the_root_have_depth_one() {
    let fs = sample_tree();
    let (result, _) = run(config(TraversalStrategy::BreadthFirst), &fs);
    for entry in &result.entries {
        let below_root = entry.path.matches('/').count();
        assert_eq!(entry.depth, below_root, "{}", entry.path);
        assert!(entry.depth >= 1);
    }
}

#[test]
fn depth_limit_bounds_the_depth_of_records() {
    let fs = sample_tree();
    for limit in 1..5 {
        for strategy in [TraversalStrategy::DepthFirst, TraversalStrategy::BreadthFirst] {
            let mut limited = config(strategy);
            limited.max_depth = Some(limit);
            let (result, asked) = run(limited, &fs);
            assert!(result.entries.iter().all(|e| e.depth <= limit));
            assert_eq!(result.entries.len(), [2, 3, 4, 4][limit - 1]);
            let reads = asked.iter().filter(|r| matches!(r, FsRequest::ReadDir(_))).count();
            assert_eq!(reads, [1, 2, 3, 3][limit - 1]);
        }
    }
}
