use bound::engine::{aggregate, count_files, find_file, resolve_file, unresolved_references, visit, Aggregate, FilterSpec, Limits, SourceFile, Tree};
use bound::telemetry::{estimate_remaining_nanos, report_due, Telemetry};

fn chars(s: &str) -> Vec<char> {
    s.chars().collect()
}

fn file(path: &str, depth: usize, body: &str) -> SourceFile {
    SourceFile { path: chars(path), depth: Some(depth), bytes: body.as_bytes().to_vec(), same_as: None }
}

fn loaded(path: &str, body: &str) -> SourceFile {
    SourceFile { path: chars(path), depth: None, bytes: body.as_bytes().to_vec(), same_as: None }
}

fn alias(path: &str, target: usize) -> SourceFile {
    SourceFile { path: chars(path), depth: None, bytes: Vec::new(), same_as: Some(target) }
}

fn filter(ext: Option<&str>, dependency_aware: bool) -> FilterSpec {
    FilterSpec { extension: ext.map(chars), dependency_aware }
}

fn no_limits() -> Limits {
    Limits { token_limit: None, size_limit: None, depth_limit: None }
}

fn out(a: &Aggregate) -> String {
    a.text.iter().collect()
}

#[test]
fn dependency_comes_before_the_file_that_imports_it() {
    let tree = Tree { files: vec![file("p/a.py", 0, "import b"), file("p/b.py", 0, "B")] };
    let a = aggregate(&tree, &filter(Some("py"), true), &no_limits());
    assert_eq!(out(&a), "B\nimport b\n");
    assert_eq!(a.order, vec![1, 0]);
}

#[test]
fn cycle_terminates_and_each_file_once() {
    let tree = Tree { files: vec![file("p/a.py", 0, "import b"), file("p/b.py", 0, "import a")] };
    let a = aggregate(&tree, &filter(Some("py"), true), &no_limits());
    assert_eq!(out(&a), "import a\nimport b\n");
    assert_eq!(a.telemetry.files_processed, 2);
    assert_eq!(a.visited, vec![true, true]);
}

#[test]
fn self_import_is_harmless() {
    let tree = Tree { files: vec![file("a.py", 0, "import a")] };
    let a = aggregate(&tree, &filter(Some("py"), true), &no_limits());
    assert_eq!(out(&a), "import a\n");
}

#[test]
fn filter_leaves_other_extensions_out() {
    let tree = Tree { files: vec![file("r/a.py", 0, "A"), file("r/b.rs", 0, "B"), file("r/c.py", 0, "C")] };
    let a = aggregate(&tree, &filter(Some("py"), false), &no_limits());
    assert_eq!(out(&a), "A\nC\n");
    assert_eq!(a.visited, vec![true, false, true]);
}

#[test]
fn expansion_never_appends_a_file_of_another_extension() {
    let tree = Tree { files: vec![file("r/a.py", 0, "import b.rs"), file("r/b/rs.py", 1, "X"), file("r/b.rs", 0, "R")] };
    let a = aggregate(&tree, &filter(Some("py"), true), &no_limits());
    assert_eq!(out(&a), "X\nimport b.rs\n");
}

#[test]
fn no_filter_takes_every_file() {
    let tree = Tree { files: vec![file("r/a.py", 0, "A"), file("r/b", 0, "B")] };
    let a = aggregate(&tree, &filter(None, false), &no_limits());
    assert_eq!(out(&a), "A\nB\n");
}

#[test]
fn depth_limit_zero_keeps_root_files_only() {
    let tree = Tree { files: vec![file("r/a.py", 0, "A"), file("r/s/b.py", 1, "B"), file("r/s/t/c.py", 2, "C")] };
    let limits = Limits { token_limit: None, size_limit: None, depth_limit: Some(0) };
    let a = aggregate(&tree, &filter(Some("py"), false), &limits);
    assert_eq!(out(&a), "A\n");
    let limits = Limits { token_limit: None, size_limit: None, depth_limit: Some(1) };
    let a = aggregate(&tree, &filter(None, false), &limits);
    assert_eq!(out(&a), "A\nB\n");
}

#[test]
fn limits_shape_each_file_and_counters_use_raw_values() {
    let tree = Tree { files: vec![file("a.txt", 0, "alpha beta gamma delta epsilon")] };
    let limits = Limits { token_limit: Some(3), size_limit: Some(5), depth_limit: None };
    let a = aggregate(&tree, &filter(None, false), &limits);
    assert_eq!(out(&a), "alpha\n");
    assert_eq!(a.telemetry.tokens_aggregated, 5);
    assert_eq!(a.telemetry.bytes_read, 30);
}

#[test]
fn invalid_utf8_is_replaced_not_fatal() {
    let tree = Tree { files: vec![SourceFile { path: chars("x.bin"), depth: Some(0), bytes: vec![b'a', 0xff, b'b'], same_as: None }] };
    let a = aggregate(&tree, &filter(None, false), &no_limits());
    assert_eq!(out(&a), "a\u{fffd}b\n");
    assert_eq!(a.telemetry.bytes_read, 3);
}

#[test]
fn two_runs_give_identical_output() {
    let tree = Tree { files: vec![
        file("p/a.py", 0, "import b\nimport s.c"), file("p/b.py", 0, "from s.c import x"),
        file("p/s/c.py", 1, "C"), file("p/d.txt", 0, "D"),
    ] };
    let f = filter(Some("py"), true);
    let first = aggregate(&tree, &f, &no_limits());
    let second = aggregate(&tree, &f, &no_limits());
    assert_eq!(out(&first), out(&second));
    assert_eq!(out(&first), "C\nfrom s.c import x\nimport b\nimport s.c\n");
}

#[test]
fn dependency_below_depth_limit_is_still_followed() {
    let tree = Tree { files: vec![file("p/a.py", 0, "import s.c"), file("p/s/c.py", 1, "C")] };
    let limits = Limits { token_limit: None, size_limit: None, depth_limit: Some(0) };
    let a = aggregate(&tree, &filter(Some("py"), true), &limits);
    assert_eq!(out(&a), "C\nimport s.c\n");
}

#[test]
fn visit_one_entry_at_a_time() {
    let tree = Tree { files: vec![file("a.c", 0, "#include \"b.c\""), file("b.c", 0, "b")] };
    let f = filter(Some("c"), true);
    let l = no_limits();
    let mut agg = Aggregate::new(&tree, &f, &l);
    visit(&tree, &f, &l, 1, &mut agg);
    assert_eq!(out(&agg), "b\n");
    visit(&tree, &f, &l, 0, &mut agg);
    assert_eq!(out(&agg), "b\n#include \"b.c\"\n");
    visit(&tree, &f, &l, 1, &mut agg);
    assert_eq!(agg.telemetry.files_processed, 2);
}

#[test]
fn find_file_by_path() {
    let tree = Tree { files: vec![file("a", 0, ""), file("b", 0, "")] };
    assert_eq!(find_file(&tree, &chars("b")), Some(1));
    assert_eq!(find_file(&tree, &chars("c")), None);
}

#[test]
fn count_takes_files_a_run_may_append() {
    let mut link = alias("l.py", 0);
    link.depth = Some(0);
    let tree = Tree { files: vec![file("a.py", 0, ""), file("Makefile", 0, ""), file("b.rs", 0, ""), file("s/c.py", 1, ""), link] };
    assert_eq!(count_files(&tree, &filter(Some("py"), false), &no_limits()), 2);
    let limits = Limits { token_limit: None, size_limit: None, depth_limit: Some(0) };
    assert_eq!(count_files(&tree, &filter(Some("py"), false), &limits), 1);
}

#[test]
fn walked_second_path_is_not_appended_again() {
    let mut link = alias("p/l.py", 0);
    link.depth = Some(0);
    let tree = Tree { files: vec![file("p/a.py", 0, "A"), link] };
    let a = aggregate(&tree, &filter(Some("py"), true), &no_limits());
    assert_eq!(out(&a), "A\n");
    assert_eq!(a.visited, vec![true, false]);
}

#[test]
fn remaining_time_estimate() {
    assert_eq!(estimate_remaining_nanos(1000, 2, 10), 4000);
    assert_eq!(estimate_remaining_nanos(1000, 10, 5), 0);
    assert_eq!(estimate_remaining_nanos(u128::MAX, 1, 3), u64::MAX);
    assert_eq!(estimate_remaining_nanos(7, 3, 4), 2);
}

#[test]
fn report_every_tenth_and_last() {
    assert!(report_due(9, 10, 50));
    assert!(!report_due(10, 11, 50));
    assert!(report_due(11, 12, 12));
    assert!(report_due(5, 23, 100));
    assert!(!report_due(3, 3, 3));
}

#[test]
fn telemetry_starts_at_zero() {
    let t = Telemetry::new();
    assert_eq!(t.files_processed, 0);
    assert!(t.ebt(10).is_none());
}

#[test]
fn parent_directory_reference_is_resolved() {
    let tree = Tree { files: vec![file("p/src/m.c", 1, "#include \"../inc/x.c\""), file("p/inc/x.c", 1, "X")] };
    let a = aggregate(&tree, &filter(Some("c"), true), &no_limits());
    assert_eq!(out(&a), "X\n#include \"../inc/x.c\"\n");
}

#[test]
fn reference_leaving_the_root_is_followed() {
    let tree = Tree { files: vec![file("p/a.c", 0, "#include \"../ext/x.c\""), loaded("ext/x.c", "X")] };
    let f = filter(Some("c"), true);
    assert!(unresolved_references(&tree, &f).is_empty());
    let a = aggregate(&tree, &f, &no_limits());
    assert_eq!(out(&a), "X\n#include \"../ext/x.c\"\n");
}

#[test]
fn absolute_include_is_followed() {
    let tree = Tree { files: vec![file("p/a.c", 0, "#include \"/abs/x.h\""), loaded("/abs/x.h", "H")] };
    let a = aggregate(&tree, &filter(None, true), &no_limits());
    assert_eq!(out(&a), "H\n#include \"/abs/x.h\"\n");
}

#[test]
fn loaded_files_are_not_walked() {
    let tree = Tree { files: vec![file("p/a.py", 0, "A"), loaded("q/b.py", "B")] };
    let a = aggregate(&tree, &filter(Some("py"), true), &no_limits());
    assert_eq!(out(&a), "A\n");
}

#[test]
fn two_paths_to_one_file_append_it_once() {
    let tree = Tree { files: vec![
        file("p/a.py", 0, "import link\nimport b"), file("p/b.py", 0, "B"), alias("p/link.py", 1),
    ] };
    assert_eq!(resolve_file(&tree, &chars("p/link.py")), Some(1));
    let a = aggregate(&tree, &filter(Some("py"), true), &no_limits());
    assert_eq!(out(&a), "B\nimport link\nimport b\n");
    assert_eq!(a.telemetry.files_processed, 2);
}

#[test]
fn unresolved_references_lists_missing_targets() {
    let tree = Tree { files: vec![file("p/a.py", 0, "import b\nimport c"), file("p/c.py", 0, "C"), file("p/d.rs", 0, "import e")] };
    let missing: Vec<String> = unresolved_references(&tree, &filter(Some("py"), true))
        .iter().map(|c| c.iter().collect()).collect();
    assert_eq!(missing, vec!["p/b.py"]);
    assert!(unresolved_references(&tree, &filter(Some("py"), false)).is_empty());
}
