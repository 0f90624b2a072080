use wiztree_metafile::analyzer::{AnalysisResult, FileEntry};
use wiztree_metafile::output::metafile::MetafileFormatter;
use wiztree_metafile::output::OutputFormatter;

fn record(path: &str, size: u64) -> FileEntry {
    FileEntry { path: path.to_string(), size, depth: 1, is_symlink: false, target: None }
}

fn result_of(entries: Vec<FileEntry>) -> AnalysisResult {
    let total_size = entries.iter().map(|e| e.size).sum();
    AnalysisResult {
        total_size,
        file_count: entries.len(),
        directory_count: 0,
        symlink_count: 0,
        entries,
        warnings: Vec::new(),
        incomplete: false,
    }
}

#[test]
fn tree_attributes_sizes_to_ancestors() {
    let result = result_of(vec![record("a/b.txt", 10), record("a/c.txt", 20), record("d.txt", 5)]);
    let root = MetafileFormatter::build_tree(&result);
    assert_eq!(root.total_size(), 35);
    assert_eq!(root.size(), 0);
    assert_eq!(root.child_count(), 2);
    let a = root.child("a").unwrap();
    assert_eq!(a.total_size(), 30);
    assert_eq!(a.size(), 0);
    assert_eq!(a.child("b.txt").unwrap().size(), 10);
    assert_eq!(a.child("c.txt").unwrap().total_size(), 20);
    assert_eq!(root.child("d.txt").unwrap().size(), 5);
    assert!(root.child("missing").is_none());
}

#[test]
fn metafile_leaf_bytes_sum_to_total() {
    let result = result_of(vec![record("a/b.txt", 10), record("a/c.txt", 20), record("d.txt", 5)]);
    let doc = MetafileFormatter::document(&result);
    let sum: u64 = doc.inputs.iter().map(|(_, node)| node.bytes).sum();
    assert_eq!(sum, 35);
    assert_eq!(doc.output.bytes, 35);
    assert_eq!(doc.output_name, "wiztree");
    let paths: Vec<&str> = doc.inputs.iter().map(|(p, _)| p.as_str()).collect();
    assert_eq!(paths, vec!["a", "a/b.txt", "a/c.txt", "d.txt"]);
    assert_eq!(doc.inputs[0].1.imports, vec!["a/b.txt".to_string(), "a/c.txt".to_string()]);
    assert_eq!(doc.inputs[0].1.bytes, 0);
}

#[test]
fn metafile_json_has_inputs_and_outputs() {
    let result = result_of(vec![record("a\\b.txt", 10)]);
    let json = MetafileFormatter.format(&result).unwrap();
    assert!(json.contains("\"inputs\""));
    assert!(json.contains("\"outputs\""));
    assert!(json.contains("\"a/b.txt\":{\"bytes\":10,\"imports\":[]}"));
    assert!(json.contains("\"bytesInOutput\":10"));
    assert!(json.contains("\"wiztree\""));
}

#[test]
fn tree_is_the_same_for_both_separators() {
    let result = result_of(vec![record("a\\b.txt", 10), record("a/c.txt", 20)]);
    let root = MetafileFormatter::build_tree(&result);
    assert_eq!(root.child_count(), 1);
    assert_eq!(root.child("a").unwrap().child_count(), 2);
    assert_eq!(MetafileFormatter::normalize_path("x\\y/z"), "x/y/z");
}

#[test]
fn tree_of_nothing_is_an_empty_root() {
    let root = MetafileFormatter::build_tree(&result_of(Vec::new()));
    assert_eq!(root.name(), "ROOT");
    assert_eq!(root.total_size(), 0);
    assert_eq!(root.child_count(), 0);
    let doc = MetafileFormatter::document(&result_of(Vec::new()));
    assert!(doc.inputs.is_empty());
    assert!(doc.output.inputs.is_empty());
    assert_eq!(doc.output.bytes, 0);
}

#[test]
fn last_record_of_a_path_wins() {
    let result = result_of(vec![record("a/b", 10), record("a/b", 3)]);
    let root = MetafileFormatter::build_tree(&result);
    let a = root.child("a").unwrap();
    assert_eq!(a.child_count(), 1);
    assert_eq!(a.child("b").unwrap().size(), 3);
    assert_eq!(a.child("b").unwrap().total_size(), 3);
    // The ancestors have counted both records.
    assert_eq!(a.total_size(), 13);
    assert_eq!(root.total_size(), 13);
}

#[test]
fn children_keep_the_order_of_first_sight() {
    let result = result_of(vec![record("z", 1), record("a/x", 2), record("m", 3), record("a/y", 4)]);
    let root = MetafileFormatter::build_tree(&result);
    let names: Vec<String> =
        (0..root.child_count()).map(|i| root.child_at(i).name().clone()).collect();
    assert_eq!(names, vec!["z", "a", "m"]);
    assert_eq!(root.child_at(1).total_size(), 6);
}

#[test]
fn absolute_path_has_an_empty_first_segment() {
    let doc = MetafileFormatter::document(&result_of(vec![record("/top/f", 9)]));
    let keys: Vec<&str> = doc.inputs.iter().map(|(p, _)| p.as_str()).collect();
    assert_eq!(keys, vec!["", "/top", "/top/f"]);
    assert_eq!(doc.inputs[0].1.imports, vec!["/top".to_string()]);
    assert_eq!(doc.inputs[2].1.bytes, 9);
}

#[test]
fn every_import_edge_leads_to_an_input() {
    let result = result_of(vec![
        record("a/b/c.txt", 1),
        record("a/b/d.txt", 2),
        record("a/e.txt", 3),
        record("f/g.txt", 4),
    ]);
    let doc = MetafileFormatter::document(&result);
    assert_eq!(doc.inputs.len(), 7);
    for (_, node) in &doc.inputs {
        for edge in &node.imports {
            assert!(doc.inputs.iter().any(|(path, _)| path == edge), "{edge} leads nowhere");
        }
    }
    let sizes: Vec<(String, u64)> =
        doc.inputs.iter().map(|(p, n)| (p.clone(), n.bytes)).collect();
    assert_eq!(doc.output.inputs, sizes);
}

#[test]
fn add_path_attributes_one_file() {
    let mut root = MetafileFormatter::build_tree(&result_of(Vec::new()));
    let parts = vec!["x".to_string(), "y".to_string()];
    MetafileFormatter::add_path(&mut root, &parts, 11);
    MetafileFormatter::add_path(&mut root, &[], 4);
    assert_eq!(root.total_size(), 15);
    assert_eq!(root.child("x").unwrap().total_size(), 11);
    assert_eq!(root.child("x").unwrap().child("y").unwrap().size(), 11);
}

#[test]
fn traverse_tree_starts_below_a_parent() {
    let root = MetafileFormatter::build_tree(&result_of(vec![record("a/b", 5)]));
    let mut inputs = Vec::new();
    MetafileFormatter::traverse_tree(root.child("a").unwrap(), &mut inputs, Some("top".to_string()));
    let keys: Vec<&str> = inputs.iter().map(|(p, _)| p.as_str()).collect();
    assert_eq!(keys, vec!["top/a", "top/a/b"]);
    assert_eq!(inputs[0].1.imports, vec!["top/a/b".to_string()]);
}

#[test]
fn large_texts_are_flagged() {
    assert!(!MetafileFormatter::too_large(0x1fff_ffe8));
    assert!(MetafileFormatter::too_large(0x1fff_ffe9));
}

#[test]
fn encoder_failure_becomes_a_serialization_error() {
    let failure = serde_json::from_str::<u8>("x").unwrap_err();
    let text = failure.to_string();
    match MetafileFormatter::encoded(Err(failure)) {
        Err(e) => {
            assert!(matches!(e, wiztree_metafile::AnalyzerError::Serialization(_)));
            assert_eq!(e.message(), format!("Serialization error: {text}"));
        }
        Ok(_) => panic!("the failure was swallowed"),
    }
    assert_eq!(MetafileFormatter::encoded(Ok("{}".to_string())).unwrap(), "{}");
}

#[test]
fn metafile_json_parses_back() {
    let result = result_of(vec![record("a/b.txt", 10), record("a/c.txt", 20), record("d.txt", 5)]);
    let json = MetafileFormatter.format(&result).unwrap();
    let parsed: serde_metafile::Metafile = serde_json::from_str(&json).unwrap();
    assert_eq!(parsed.inputs.len(), 4);
    assert_eq!(parsed.inputs["a"].bytes, 0);
    assert_eq!(parsed.inputs["a"].imports.len(), 2);
    assert_eq!(parsed.inputs["a"].imports[0].path, "a/b.txt");
    assert_eq!(parsed.inputs["a/c.txt"].bytes, 20);
    let output = &parsed.outputs["wiztree"];
    assert_eq!(output.bytes, 35);
    assert_eq!(output.inputs.len(), 4);
    assert_eq!(output.inputs["d.txt"].bytes_in_output, 5);
    assert!(output.entry_point.is_none());
    let leaves: u64 = parsed.inputs.values().map(|input| input.bytes).sum();
    assert_eq!(leaves, 35);
}

#[test]
fn input_paths_are_distinct() {
    let result = result_of(vec![
        record("a/b/c", 1),
        record("a/b", 2),
        record("a/bc", 3),
        record("ab/c", 4),
        record("a\\b\\c", 5),
    ]);
    let doc = MetafileFormatter::document(&result);
    let mut keys: Vec<&str> = doc.inputs.iter().map(|(p, _)| p.as_str()).collect();
    let all = keys.len();
    keys.sort();
    keys.dedup();
    assert_eq!(keys.len(), all);
    assert_eq!(keys, vec!["a", "a/b", "a/b/c", "a/bc", "ab", "ab/c"]);
}

#[test]
fn totals_do_not_depend_on_the_order_of_the_records() {
    let forward = vec![record("a/b/c", 1), record("a/d", 2), record("e", 4), record("a/b/f", 8)];
    let mut backward = forward.clone();
    backward.reverse();
    let one = MetafileFormatter::build_tree(&result_of(forward));
    let other = MetafileFormatter::build_tree(&result_of(backward));
    for tree in [&one, &other] {
        assert_eq!(tree.total_size(), 15);
        let a = tree.child("a").unwrap();
        assert_eq!(a.total_size(), 11);
        assert_eq!(a.size(), 0);
        assert_eq!(a.child("b").unwrap().total_size(), 9);
        assert_eq!(a.child("b").unwrap().child("f").unwrap().size(), 8);
        assert_eq!(a.child("d").unwrap().size(), 2);
        assert_eq!(tree.child("e").unwrap().total_size(), 4);
    }
    // The children stand in the order in which they were first seen.
    assert_eq!(one.child("a").unwrap().child("b").unwrap().child_at(0).name(), "c");
    assert_eq!(other.child("a").unwrap().child("b").unwrap().child_at(0).name(), "f");
}

#[test]
fn file_that_is_also_a_directory_keeps_both_sizes() {
    let result = result_of(vec![record("a", 5), record("a/b", 3)]);
    let root = MetafileFormatter::build_tree(&result);
    let a = root.child("a").unwrap();
    assert_eq!(a.size(), 5);
    assert_eq!(a.total_size(), 8);
    assert_eq!(root.total_size(), 8);
}

#[test]
fn text_report_lists_totals_warnings_and_records() {
    let mut result = result_of(vec![record("a/b.txt", 10), record("l", 1_038_566)]);
    result.entries[1].is_symlink = true;
    result.entries[1].target = Some("a/b.txt".to_string());
    result.entries[1].depth = 12;
    result.symlink_count = 1;
    result.directory_count = 3;
    result.warnings = vec!["Cannot access x: gone".to_string(), "second".to_string()];
    result.incomplete = true;
    let megabytes = format!("{:.2}", result.total_size as f64 / 1_048_576.0);
    let text = wiztree_metafile::output::TextFormatter.report(&result, &megabytes);
    assert_eq!(
        text,
        "=== File Analysis Results ===\n\n\
         Total Size: 1038576 bytes (0.99 MB)\n\
         File Count: 2\n\
         Directory Count: 3\n\
         Symlink Count: 1\n\
         \n⚠ WARNING: Analysis incomplete (limits reached)\n\
         \n=== Warnings (2) ===\n\
         \x20 - Cannot access x: gone\n\
         \x20 - second\n\
         \n=== Files (2) ===\n\
         \x20 [Depth 1] 10 bytes: a/b.txt\n\
         \x20 [Depth 12] 1038566 bytes: l -> a/b.txt\n"
    );
}

#[test]
fn text_report_of_nothing_has_the_totals_only() {
    let text = wiztree_metafile::output::TextFormatter.report(&result_of(Vec::new()), "0.00");
    assert_eq!(
        text,
        "=== File Analysis Results ===\n\n\
         Total Size: 0 bytes (0.00 MB)\n\
         File Count: 0\n\
         Directory Count: 0\n\
         Symlink Count: 0\n"
    );
}
