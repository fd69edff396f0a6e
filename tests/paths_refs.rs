use bound::paths::{extension, file_name_of, join, normalize, parent_dir};
use bound::refs::{extract_references, split_lines};

fn chars(s: &str) -> Vec<char> {
    s.chars().collect()
}

fn text(v: &[char]) -> String {
    v.iter().collect()
}

fn refs(path: &str, body: &str) -> Vec<String> {
    extract_references(&chars(path), &chars(body)).iter().map(|r| text(r)).collect()
}

#[test]
fn extension_of_paths() {
    assert_eq!(extension(&chars("proj/a.py")).map(|e| text(&e)), Some("py".to_string()));
    assert_eq!(extension(&chars("proj/a.tar.gz")).map(|e| text(&e)), Some("gz".to_string()));
    assert_eq!(extension(&chars("proj/.hidden")), None);
    assert_eq!(extension(&chars("proj.d/Makefile")), None);
    assert_eq!(extension(&chars("..")), None);
    assert_eq!(extension(&chars("a.")).map(|e| text(&e)), Some(String::new()));
}

#[test]
fn file_name_and_parent() {
    assert_eq!(text(&file_name_of(&chars("a/b/c.h"))), "c.h");
    assert_eq!(text(&parent_dir(&chars("a/b/c.h"))), "a/b");
    assert_eq!(text(&parent_dir(&chars("c.h"))), "");
    assert_eq!(text(&parent_dir(&chars("/c.h"))), "/");
}

#[test]
fn join_paths() {
    assert_eq!(text(&join(&chars("a/b"), &chars("c.py"))), "a/b/c.py");
    assert_eq!(text(&join(&chars("a/"), &chars("c.py"))), "a/c.py");
    assert_eq!(text(&join(&chars(""), &chars("c.py"))), "c.py");
    assert_eq!(text(&join(&chars("a"), &chars("/x/c.py"))), "/x/c.py");
}

#[test]
fn lines_drop_newlines_and_carriage_returns() {
    let ls: Vec<String> = split_lines(&chars("a\r\nb\n\nc\n")).iter().map(|l| text(l)).collect();
    assert_eq!(ls, vec!["a", "b", "", "c"]);
    assert!(split_lines(&chars("")).is_empty());
}

#[test]
fn python_imports_become_paths() {
    assert_eq!(refs("p/a.py", "import b\nfrom pkg.mod import x\n"), vec!["b.py", "pkg/mod.py"]);
}

#[test]
fn javascript_require_and_import_from() {
    assert_eq!(refs("web/app.js", "const u = require('./util');\nimport x from \"lib\"\n"), vec!["//util.js", "x.js", "lib.js"]);
}

#[test]
fn c_includes_keep_their_names() {
    assert_eq!(refs("src/m.c", "#include \"m.h\"\n#include <stdio.h>\nint x;\n"), vec!["m.h", "stdio.h"]);
    assert_eq!(refs("src/m.c", "#include <sys/types.h>\n"), vec!["sys/types.h"]);
    assert_eq!(refs("src/m.c", "#include <config>\n"), vec!["config.c"]);
}

#[test]
fn no_references_in_plain_text() {
    assert!(refs("notes.txt", "nothing to see\n  here").is_empty());
}

#[test]
fn several_patterns_on_one_line_in_pattern_order() {
    assert_eq!(refs("x.ts", "import a from 'b'"), vec!["a.ts", "b.ts"]);
}

fn norm(p: &str) -> String {
    text(&normalize(&chars(p)))
}

#[test]
fn normalize_resolves_dots() {
    assert_eq!(norm("a/./b/../c.h"), "a/c.h");
    assert_eq!(norm("/../x"), "/x");
    assert_eq!(norm("../x"), "../x");
    assert_eq!(norm("a/../../x"), "../x");
    assert_eq!(norm("a//b/"), "a/b");
    assert_eq!(norm("./proj/a.py"), "proj/a.py");
}
