use wiztree_metafile::analyzer::FileEntry;
use wiztree_metafile::collector::ResultCollector;
use wiztree_metafile::config::{AnalyzerConfig, TraversalStrategy};
use wiztree_metafile::error::AnalyzerError;
use wiztree_metafile::fs::{
    FailureKind, FileIdentity, FileKind, FileMetadata, RawEntry, ReadFailure,
};
use wiztree_metafile::link_handler::LinkHandler;
use wiztree_metafile::processor::FileProcessor;
use wiztree_metafile::text::{
    appended, digit_of, labelled, push_decimal, replace_char, split_on,
};
use wiztree_metafile::walker::{DirEntry, DirectoryWalker};

fn meta(kind: FileKind, len: u64, ino: Option<u64>) -> FileMetadata {
    FileMetadata { kind, len, identity: ino.map(|ino| FileIdentity { dev: 3, ino }) }
}

fn record(path: &str, size: u64, is_symlink: bool) -> FileEntry {
    FileEntry { path: path.to_string(), size, depth: 2, is_symlink, target: None }
}

// ---- text ----------------------------------------------------------------

#[test]
fn replace_char_replaces_every_occurrence() {
    assert_eq!(replace_char("a\\b\\c", '\\', '/'), "a/b/c");
    assert_eq!(replace_char("", '\\', '/'), "");
    assert_eq!(replace_char("häuser\\ü", '\\', '/'), "häuser/ü");
}

#[test]
fn split_on_keeps_empty_pieces() {
    assert_eq!(split_on("a/b/c", '/'), vec!["a", "b", "c"]);
    assert_eq!(split_on("", '/'), vec![""]);
    assert_eq!(split_on("/a//b/", '/'), vec!["", "a", "", "b", ""]);
    assert_eq!(split_on("plain", '/'), vec!["plain"]);
}

#[test]
fn appended_and_labelled_join_texts() {
    assert_eq!(appended("ab", "cd"), "abcd");
    assert_eq!(labelled("Cannot access ", "p", "gone"), "Cannot access p: gone");
}

// ---- collector -----------------------------------------------------------

#[test]
fn collector_keeps_totals() {
    let mut collector = ResultCollector::new();
    assert_eq!(collector.file_count(), 0);
    collector.add_entry(record("a", 10, false));
    collector.add_entry(record("b", 32, true));
    collector.add_warning("careful".to_string());
    collector.increment_directory_count();
    collector.increment_directory_count();
    assert_eq!(collector.file_count(), 2);
    let result = collector.finalize();
    assert_eq!(result.total_size, 42);
    assert_eq!(result.file_count, 2);
    assert_eq!(result.symlink_count, 1);
    assert_eq!(result.directory_count, 2);
    assert_eq!(result.warnings, vec!["careful".to_string()]);
    assert_eq!(result.entries[1].path, "b");
    assert!(!result.incomplete);
}

#[test]
fn collector_total_wraps_at_64_bits() {
    let mut collector = ResultCollector::new();
    collector.add_entry(record("a", u64::MAX, false));
    collector.add_entry(record("b", 3, false));
    assert_eq!(collector.finalize().total_size, 2);
}

#[test]
fn collector_incomplete_flag_follows_the_last_call() {
    let mut collector = ResultCollector::new();
    collector.set_incomplete(true);
    collector.set_incomplete(false);
    assert!(!collector.finalize().incomplete);
    let mut collector = ResultCollector::new();
    collector.set_incomplete(true);
    let result = collector.finalize();
    assert!(result.incomplete);
    assert_eq!(result.total_size, 0);
    assert!(result.entries.is_empty());
}

// ---- errors --------------------------------------------------------------

#[test]
fn error_messages_name_their_kind() {
    assert_eq!(AnalyzerError::Io("x".to_string()).message(), "IO error: x");
    assert_eq!(
        AnalyzerError::InvalidConfig("x".to_string()).message(),
        "Invalid configuration: x"
    );
    assert_eq!(AnalyzerError::PathError("x".to_string()).message(), "Path error: x");
    assert_eq!(AnalyzerError::ThreadPool("x".to_string()).message(), "Thread pool error: x");
}

// ---- configuration -------------------------------------------------------

#[test]
fn new_configuration_has_no_limits() {
    let config = AnalyzerConfig::new("here".to_string());
    assert_eq!(config.max_depth, None);
    assert_eq!(config.max_files, None);
    assert_eq!(config.traversal_strategy, TraversalStrategy::DepthFirst);
    assert_eq!(config.min_file_size, 0);
    assert!(config.thread_count >= 1);
    assert_eq!(config.output_path, None);
    assert_eq!(config.root_path, "here");
    assert!(config.ignore_patterns.is_none());
    assert!(!config.should_ignore("anything"));
    assert_eq!(TraversalStrategy::default(), TraversalStrategy::DepthFirst);
}

#[test]
fn ignore_patterns_match_paths() {
    let mut config = AnalyzerConfig::new("here".to_string());
    config
        .set_ignore_patterns(vec!["*.tmp".to_string(), "**/node_modules".to_string()])
        .unwrap();
    assert!(config.should_ignore("a/b/c.tmp"));
    assert!(config.should_ignore("x/node_modules"));
    assert!(!config.should_ignore("a/b/c.txt"));
    assert_eq!(config.ignore_patterns.as_ref().unwrap().len(), 2);
    config.set_ignore_patterns(Vec::new()).unwrap();
    assert!(config.ignore_patterns.is_none());
    assert!(!config.should_ignore("a/b/c.tmp"));
}

#[test]
fn invalid_pattern_is_rejected_and_changes_nothing() {
    let mut config = AnalyzerConfig::new("here".to_string());
    config.set_ignore_patterns(vec!["*.tmp".to_string()]).unwrap();
    match config.set_ignore_patterns(vec!["ok".to_string(), "a[".to_string()]) {
        Err(AnalyzerError::InvalidConfig(text)) => {
            assert!(text.starts_with("Invalid glob pattern 'a[': "), "{}", text);
            assert!(text.contains("unclosed character class"), "{}", text);
        }
        _ => panic!("an invalid pattern was accepted"),
    }
    assert!(config.should_ignore("x.tmp"));
    assert!(!config.should_ignore("ok"));
}

#[test]
fn pattern_and_build_errors_have_their_texts() {
    match AnalyzerConfig::pattern_error("a[", "why") {
        AnalyzerError::InvalidConfig(text) => assert_eq!(text, "Invalid glob pattern 'a[': why"),
        _ => panic!("wrong kind of error"),
    }
    match AnalyzerConfig::build_error("why") {
        AnalyzerError::InvalidConfig(text) => assert_eq!(text, "Failed to build glob set: why"),
        _ => panic!("wrong kind of error"),
    }
}

fn fault(config: &AnalyzerConfig, root: Option<FileMetadata>, cpus: usize) -> Option<String> {
    match config.validate_on(root, cpus) {
        Ok(()) => None,
        Err(AnalyzerError::InvalidConfig(text)) => Some(text),
        Err(_) => panic!("wrong kind of error"),
    }
}

#[test]
fn validation_reports_the_first_fault() {
    let dir = Some(meta(FileKind::Directory, 0, None));
    let file = Some(meta(FileKind::File, 0, None));
    let mut config = AnalyzerConfig::new("here".to_string());
    config.thread_count = 2;
    assert_eq!(fault(&config, dir, 4), None);
    assert_eq!(fault(&config, dir, 2), None);
    assert_eq!(fault(&config, None, 4), Some("Root path does not exist: here".to_string()));
    assert_eq!(fault(&config, file, 4), Some("Root path is not a directory: here".to_string()));
    config.max_depth = Some(0);
    config.thread_count = 0;
    assert_eq!(fault(&config, dir, 4), Some("Maximum depth must be at least 1".to_string()));
    assert_eq!(fault(&config, file, 4), Some("Root path is not a directory: here".to_string()));
    config.max_depth = Some(1);
    assert_eq!(fault(&config, dir, 4), Some("Thread count must be at least 1".to_string()));
    config.thread_count = 120;
    assert_eq!(
        fault(&config, dir, 16),
        Some("Thread count 120 exceeds CPU count 16".to_string())
    );
    config.thread_count = 10;
    assert_eq!(fault(&config, dir, 9), Some("Thread count 10 exceeds CPU count 9".to_string()));
}

#[test]
fn validation_on_this_machine_accepts_one_thread() {
    let dir = Some(meta(FileKind::Directory, 0, None));
    let mut config = AnalyzerConfig::new("here".to_string());
    assert!(config.validate(dir).is_ok());
    config.thread_count = 1;
    assert!(config.validate(dir).is_ok());
    config.thread_count = usize::MAX;
    assert!(matches!(config.validate(dir), Err(AnalyzerError::InvalidConfig(_))));
    assert!(matches!(config.validate(None), Err(AnalyzerError::InvalidConfig(_))));
}

#[test]
fn thread_count_is_clamped() {
    assert_eq!(AnalyzerConfig::clamp_threads(0, 8), 1);
    assert_eq!(AnalyzerConfig::clamp_threads(5, 8), 5);
    assert_eq!(AnalyzerConfig::clamp_threads(8, 8), 8);
    assert_eq!(AnalyzerConfig::clamp_threads(9, 8), 8);
    let mut config = AnalyzerConfig::new("here".to_string());
    let cpus = config.thread_count;
    config.thread_count = 0;
    config.clamp_thread_count();
    assert_eq!(config.thread_count, 1);
    config.thread_count = usize::MAX;
    config.clamp_thread_count();
    assert_eq!(config.thread_count, cpus);
}

// ---- guard ---------------------------------------------------------------

#[test]
fn guard_remembers_entered_directories() {
    let mut guard = LinkHandler::new();
    assert_eq!(guard.is_circular("p", Ok("/real/p".to_string())).unwrap(), false);
    guard.mark_visited("p", Ok("/real/p".to_string())).unwrap();
    guard.mark_visited("p", Ok("/real/p".to_string())).unwrap();
    assert_eq!(guard.is_circular("link", Ok("/real/p".to_string())).unwrap(), true);
    assert_eq!(guard.is_circular("link", Ok("/real/q".to_string())).unwrap(), false);
}

#[test]
fn guard_reports_paths_without_canonical_form() {
    let mut guard = LinkHandler::new();
    match guard.is_circular("p", Err("denied".to_string())) {
        Err(AnalyzerError::PathError(text)) => {
            assert_eq!(text, "Failed to canonicalize path p: denied")
        }
        _ => panic!("the failure was swallowed"),
    }
    match guard.mark_visited("q", Err("gone".to_string())) {
        Err(AnalyzerError::PathError(text)) => {
            assert_eq!(text, "Failed to canonicalize path q: gone")
        }
        _ => panic!("the failure was swallowed"),
    }
    match guard.resolve_link("l", Err("odd".to_string())) {
        Err(AnalyzerError::PathError(text)) => assert_eq!(text, "Failed to resolve symlink l: odd"),
        _ => panic!("the failure was swallowed"),
    }
    assert_eq!(guard.resolve_link("l", Ok("t".to_string())).unwrap(), "t");
}

#[test]
fn guard_knows_a_file_from_its_second_sight() {
    let mut guard = LinkHandler::new();
    let a = meta(FileKind::File, 1, Some(7));
    let same_inode_other_device =
        FileMetadata { identity: Some(FileIdentity { dev: 4, ino: 7 }), ..a };
    assert!(!guard.is_duplicate_inode(&a));
    assert!(guard.is_duplicate_inode(&a));
    assert!(!guard.is_duplicate_inode(&same_inode_other_device));
    assert!(!guard.is_duplicate_inode(&meta(FileKind::File, 1, Some(8))));
    assert!(guard.is_duplicate_inode(&meta(FileKind::Symlink, 9, Some(8))));
    let big = FileMetadata { identity: Some(FileIdentity { dev: u64::MAX, ino: u64::MAX }), ..a };
    assert!(!guard.is_duplicate_inode(&big));
    assert!(guard.is_duplicate_inode(&big));
}

#[test]
fn file_without_identity_is_never_a_duplicate() {
    let mut guard = LinkHandler::new();
    let anonymous = meta(FileKind::File, 1, None);
    assert!(!guard.is_duplicate_inode(&anonymous));
    assert!(!guard.is_duplicate_inode(&anonymous));
    assert_eq!(FileIdentity::from_metadata(&anonymous), None);
    assert_eq!(
        FileIdentity::from_metadata(&meta(FileKind::File, 1, Some(5))),
        Some(FileIdentity { dev: 3, ino: 5 })
    );
}

// ---- walker --------------------------------------------------------------

fn listing() -> Vec<RawEntry> {
    vec![
        RawEntry { path: "d/a".to_string(), metadata: Some(meta(FileKind::File, 1, Some(1))) },
        RawEntry { path: "d/b".to_string(), metadata: None },
        RawEntry { path: "d/c".to_string(), metadata: Some(meta(FileKind::Directory, 0, Some(2))) },
    ]
}

#[test]
fn read_dir_annotates_depth_and_skips_unreadable_children() {
    let walker = DirectoryWalker::new();
    let entries = walker.read_dir(Ok(listing()), 3, Some(3)).unwrap();
    let seen: Vec<(&str, usize)> = entries.iter().map(|e| (e.path.as_str(), e.depth)).collect();
    assert_eq!(seen, vec![("d/a", 3), ("d/c", 3)]);
    assert!(entries[1].metadata.is_dir());
    assert_eq!(walker.read_dir(Ok(listing()), 1, None).unwrap().len(), 2);
    let deepest = walker.read_dir(Ok(listing()), usize::MAX, None).unwrap();
    assert!(deepest.iter().all(|e| e.depth == usize::MAX));
    assert_eq!(deepest.len(), 2);
}

#[test]
fn read_dir_beyond_the_limit_is_empty() {
    let walker = DirectoryWalker::new();
    assert!(walker.read_dir(Ok(listing()), 4, Some(3)).unwrap().is_empty());
    assert!(walker.read_dir(Err("denied".to_string()), 4, Some(3)).unwrap().is_empty());
    assert!(walker.read_dir(Ok(listing()), usize::MAX, Some(2)).unwrap().is_empty());
}

#[test]
fn read_dir_passes_a_failure_on() {
    let walker = DirectoryWalker::new();
    match walker.read_dir(Err("denied".to_string()), 3, Some(3)) {
        Err(AnalyzerError::Io(text)) => assert_eq!(text, "denied"),
        _ => panic!("the failure was swallowed"),
    }
}

#[test]
fn should_traverse_looks_at_kind_and_depth() {
    let walker = DirectoryWalker::new();
    let dir = DirEntry { path: "d".to_string(), metadata: meta(FileKind::Directory, 0, None), depth: 3 };
    let file = DirEntry { path: "f".to_string(), metadata: meta(FileKind::File, 0, None), depth: 1 };
    // The children of a directory at depth 3 lie at depth 4.
    assert!(walker.should_traverse(&dir, Some(4)));
    assert!(walker.should_traverse(&dir, None));
    assert!(!walker.should_traverse(&dir, Some(3)));
    assert!(!walker.should_traverse(&file, None));
    let deepest = DirEntry { depth: usize::MAX, ..dir.clone() };
    assert!(!walker.should_traverse(&deepest, None));
    assert!(walker.should_traverse_depth(0, Some(0)));
    assert!(!walker.should_traverse_depth(1, Some(0)));
    assert!(walker.should_traverse_depth(usize::MAX, None));
}

#[test]
fn check_symlink_finds_links_into_entered_directories() {
    let walker = DirectoryWalker::new();
    let mut guard = LinkHandler::new();
    guard.mark_visited("d", Ok("/d".to_string())).unwrap();
    let link = meta(FileKind::Symlink, 0, Some(1));
    let dir = meta(FileKind::Directory, 0, Some(2));
    assert!(walker.check_symlink(&guard, "l", Ok(link), Ok("/d".to_string())).unwrap());
    assert!(!walker.check_symlink(&guard, "l", Ok(link), Ok("/e".to_string())).unwrap());
    assert!(!walker.check_symlink(&guard, "d", Ok(dir), Ok("/d".to_string())).unwrap());
    assert!(!walker.check_symlink(&guard, "d", Ok(dir), Err("unused".to_string())).unwrap());
    assert!(matches!(
        walker.check_symlink(&guard, "l", Err("gone".to_string()), Ok("/d".to_string())),
        Err(AnalyzerError::Io(text)) if text == "gone"
    ));
    assert!(matches!(
        walker.check_symlink(&guard, "l", Ok(link), Err("loop".to_string())),
        Err(AnalyzerError::PathError(text)) if text == "Failed to canonicalize path l: loop"
    ));
}

// ---- classifier ----------------------------------------------------------

fn processor(min: u64) -> FileProcessor {
    let mut config = AnalyzerConfig::new("here".to_string());
    config.min_file_size = min;
    FileProcessor::new(&config)
}

#[test]
fn size_filter_keeps_files_at_the_threshold() {
    let p = processor(10);
    assert!(!p.should_include(9));
    assert!(p.should_include(10));
    assert!(p.should_include(11));
    assert!(processor(0).should_include(0));
}

#[test]
fn regular_file_is_recorded_once() {
    let p = processor(0);
    let mut guard = LinkHandler::new();
    let file = meta(FileKind::File, 5, Some(1));
    let first = p
        .process_file(&mut guard, "f", 2, Ok(file), Some(file), Err("not a link".to_string()))
        .unwrap()
        .unwrap();
    assert_eq!(first.path, "f");
    assert_eq!(first.size, 5);
    assert_eq!(first.depth, 2);
    assert!(!first.is_symlink);
    assert_eq!(first.target, None);
    let second =
        p.process_file(&mut guard, "g", 2, Ok(file), Some(file), Ok("ignored".to_string()));
    assert!(second.unwrap().is_none());
}

#[test]
fn link_and_its_target_are_both_recorded() {
    let p = processor(0);
    let mut guard = LinkHandler::new();
    let file = meta(FileKind::File, 5, Some(1));
    let link = meta(FileKind::Symlink, 1, Some(2));
    let linked = p
        .process_file(&mut guard, "l", 3, Ok(link), Some(file), Ok("f".to_string()))
        .unwrap()
        .unwrap();
    assert!(linked.is_symlink);
    assert_eq!(linked.size, 5);
    assert_eq!(linked.target, Some("f".to_string()));
    // The file itself was not seen yet: only the link was.
    assert!(p
        .process_file(&mut guard, "f", 3, Ok(file), Some(file), Err("".to_string()))
        .unwrap()
        .is_some());
    // The same link again is a duplicate.
    assert!(p
        .process_file(&mut guard, "l2", 3, Ok(link), Some(file), Ok("f".to_string()))
        .unwrap()
        .is_none());
}

#[test]
fn link_without_readable_text_has_no_target() {
    let p = processor(0);
    let mut guard = LinkHandler::new();
    let linked = p
        .process_file(
            &mut guard,
            "l",
            3,
            Ok(meta(FileKind::Symlink, 1, Some(2))),
            Some(meta(FileKind::File, 5, Some(1))),
            Err("denied".to_string()),
        )
        .unwrap()
        .unwrap();
    assert!(linked.is_symlink);
    assert_eq!(linked.target, None);
}

#[test]
fn classifier_rejects_what_is_no_eligible_file() {
    let p = processor(10);
    let mut guard = LinkHandler::new();
    let small = meta(FileKind::File, 9, Some(1));
    let dir = meta(FileKind::Directory, 100, Some(2));
    let link = meta(FileKind::Symlink, 1, Some(3));
    let big = meta(FileKind::File, 10, Some(1));
    let none = || Err("".to_string());
    assert!(p.process_file(&mut guard, "s", 2, Ok(small), Some(small), none()).unwrap().is_none());
    assert!(p.process_file(&mut guard, "d", 2, Ok(link), Some(dir), none()).unwrap().is_none());
    assert!(p.process_file(&mut guard, "b", 2, Ok(link), None, none()).unwrap().is_none());
    // The small file was not marked as seen: the same identity passes once
    // it is large enough.
    assert!(p.process_file(&mut guard, "s", 2, Ok(big), Some(big), none()).unwrap().is_some());
    let denied = ReadFailure { kind: FailureKind::Other, message: "denied".to_string() };
    assert!(matches!(
        p.process_file(&mut guard, "x", 2, Err(denied), None, none()),
        Err(AnalyzerError::Io(text)) if text == "denied"
    ));
}

#[test]
fn missing_file_is_no_failure() {
    let p = processor(0);
    let mut guard = LinkHandler::new();
    let gone = ReadFailure { kind: FailureKind::NotFound, message: "No such file".to_string() };
    let found = p.process_file(&mut guard, "x", 2, Err(gone), None, Err("".to_string()));
    assert!(matches!(found, Ok(None)));
    // The guard has learnt nothing.
    let file = meta(FileKind::File, 5, Some(1));
    assert!(!guard.is_duplicate_inode(&file));
}

#[test]
fn classifier_stages_agree_with_the_whole() {
    let p = processor(0);
    let mut guard = LinkHandler::new();
    let file = meta(FileKind::File, 5, Some(1));
    let link = meta(FileKind::Symlink, 1, Some(2));
    assert!(p.admit_link(&mut guard, &file));
    assert!(p.admit_link(&mut guard, &file));
    assert!(p.admit_link(&mut guard, &link));
    assert!(!p.admit_link(&mut guard, &link));
    assert_eq!(p.accept(&mut guard, &file, Some(file)), Some(5));
    assert_eq!(p.accept(&mut guard, &file, Some(file)), None);
    assert_eq!(p.accept(&mut guard, &link, Some(file)), Some(5));
    assert_eq!(p.accept(&mut guard, &file, None), None);
    let entry = FileProcessor::entry("p".to_string(), 4, 5, &file, Some("t".to_string()));
    assert_eq!(entry.target, None);
    assert_eq!(entry.depth, 4);
    let entry = FileProcessor::entry("p".to_string(), 4, 5, &link, Some("t".to_string()));
    assert_eq!(entry.target, Some("t".to_string()));
    assert!(entry.is_symlink);
}

// ---- strategy names ------------------------------------------------------

#[test]
fn strategy_names_are_read_in_any_case() {
    for name in ["depth-first", "dfs", "depth", "DFS", "Depth-First"] {
        assert_eq!(TraversalStrategy::parse(name), Ok(TraversalStrategy::DepthFirst));
    }
    for name in ["breadth-first", "bfs", "breadth", "BFS", "BREADTH"] {
        assert_eq!(name.parse::<TraversalStrategy>(), Ok(TraversalStrategy::BreadthFirst));
    }
    assert_eq!(
        TraversalStrategy::parse("Sideways"),
        Err("Invalid traversal strategy: Sideways".to_string())
    );
    assert_eq!(
        TraversalStrategy::from_lowercase("dfs", "DFS"),
        Ok(TraversalStrategy::DepthFirst)
    );
    assert_eq!(
        TraversalStrategy::from_lowercase("DFS", "DFS"),
        Err("Invalid traversal strategy: DFS".to_string())
    );
}

#[test]
fn numbers_are_written_in_decimal() {
    let mut text = String::from("n=");
    push_decimal(&mut text, 0);
    text.push(',');
    push_decimal(&mut text, 7);
    text.push(',');
    push_decimal(&mut text, 10);
    text.push(',');
    push_decimal(&mut text, 9_000_001);
    assert_eq!(text, "n=0,7,10,9000001");
    let mut max = String::new();
    push_decimal(&mut max, u64::MAX);
    assert_eq!(max, u64::MAX.to_string());
    assert_eq!(digit_of(0), '0');
    assert_eq!(digit_of(9), '9');
}

#[test]
fn first_pattern_that_does_not_parse_is_blamed() {
    let mut config = AnalyzerConfig::new("here".to_string());
    let patterns = vec!["*.ok".to_string(), "{a".to_string(), "b[".to_string()];
    match config.set_ignore_patterns(patterns) {
        Err(AnalyzerError::InvalidConfig(text)) => {
            assert!(text.starts_with("Invalid glob pattern '{a': "), "{}", text)
        }
        _ => panic!("an invalid pattern was accepted"),
    }
    assert!(config.ignore_patterns.is_none());
    // Patterns that parse are accepted, and the set matches as they do.
    config.set_ignore_patterns(vec!["f\\oo".to_string(), "*.rs".to_string()]).unwrap();
    assert!(config.should_ignore("lib.rs"));
    assert!(!config.should_ignore("lib.py"));
}

#[test]
fn configuration_can_be_cloned() {
    let mut config = AnalyzerConfig::new("here".to_string());
    config.max_depth = Some(3);
    config.set_ignore_patterns(vec!["*.tmp".to_string()]).unwrap();
    let copy = config.clone();
    assert_eq!(copy.max_depth, Some(3));
    assert_eq!(copy.root_path, "here");
    assert!(copy.should_ignore("a.tmp"));
    assert!(!copy.should_ignore("a.txt"));
}
