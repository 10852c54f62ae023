use code2prompt::exclude::{ExcludeSet, RuleError};
use code2prompt::walk::{
    make_record, make_record_from, normalize, traverse_directory, traverse_file, Entry, FileRecord,
    Traversal, WalkOptions,
};

fn walk(
    entries: &Vec<Entry>,
    wanted: &[&str],
    unwanted: &[&str],
    options: WalkOptions,
) -> (String, Vec<FileRecord>) {
    match traverse_directory("proj", entries, &list(wanted), &list(unwanted), options) {
        Ok(out) => out,
        Err(e) => panic!("{}", e.message()),
    }
}

fn plain() -> WalkOptions {
    WalkOptions {
        line_number: false,
        relative_paths: false,
        exclude_from_tree: false,
        no_codeblock: false,
    }
}

fn file(relative: &str, content: &str) -> Entry {
    Entry {
        relative: relative.to_string(),
        absolute: format!("/work/proj/{}", relative),
        is_dir: false,
        content: Some(content.as_bytes().to_vec()),
    }
}

fn dir(relative: &str) -> Entry {
    Entry {
        relative: relative.to_string(),
        absolute: format!("/work/proj/{}", relative),
        is_dir: true,
        content: None,
    }
}

fn list(items: &[&str]) -> Vec<String> {
    items.iter().map(|s| s.to_string()).collect()
}

#[test]
fn invalid_bytes_are_marked() {
    let text: String = normalize(&[0xFF, 0x41]).iter().collect();
    assert_eq!(text, "[]A");
    let record = make_record("proj", &plain(), "bad.txt", "/work/proj/bad.txt", &[0xFF, 0x41])
        .unwrap();
    assert!(record.code.contains("[]A"));
    assert!(!record.code.contains('\u{FFFD}'));
    assert_eq!(record.code, "```txt\n[]A\n```");
}

#[test]
fn replacement_character_in_the_source_is_marked_too() {
    let text: String = normalize("a\u{FFFD}b".as_bytes()).iter().collect();
    assert_eq!(text, "a[]b");
}

#[test]
fn long_base64_run_in_a_file_is_elided() {
    let content = "A".repeat(120);
    let mut options = plain();
    options.no_codeblock = true;
    let record = make_record("proj", &options, "k.pem", "/work/proj/k.pem", content.as_bytes())
        .unwrap();
    assert_eq!(record.code, format!("{}...{}", "A".repeat(50), "A".repeat(50)));
    assert_eq!(record.code.chars().count(), 103);
}

#[test]
fn blank_files_have_no_record() {
    assert!(make_record("proj", &plain(), "e.rs", "/work/proj/e.rs", b"").is_none());
    assert!(make_record("proj", &plain(), "e.rs", "/work/proj/e.rs", b" \n\t\r\n").is_none());
}

#[test]
fn record_holds_path_extension_and_code() {
    let record = make_record("proj", &plain(), "src/Main.RS", "/work/proj/src/Main.RS", b"fn x() {}")
        .unwrap();
    assert_eq!(record.path, "/work/proj/src/Main.RS");
    assert_eq!(record.extension, "rs");
    assert_eq!(record.code, "```rs\nfn x() {}\n```");
    assert_eq!(record.relative, "src/Main.RS");
}

#[test]
fn relative_paths_start_with_the_label() {
    let mut options = plain();
    options.relative_paths = true;
    options.line_number = true;
    let record = make_record("proj", &options, "src/a.py", "/work/proj/src/a.py", b"x\ny\n").unwrap();
    assert_eq!(record.path, "proj/src/a.py");
    assert_eq!(record.code, "```py\n   1 | x\n   2 | y\n\n```");
}

#[test]
fn files_without_flags_are_all_recorded() {
    let entries = vec![
        dir(""),
        file("a.py", "print(1)\n"),
        file("b.txt", "hello\n"),
        dir("node_modules"),
        file("node_modules/x.js", "module.exports = 1;\n"),
    ];
    let (tree, files) = walk(&entries, &[], &[], plain());
    assert_eq!(files.len(), 2);
    assert_eq!(files[0].path, "/work/proj/a.py");
    assert_eq!(files[1].path, "/work/proj/b.txt");
    assert_eq!(tree, "proj\n├── a.py\n└── b.txt\n");
    assert!(!tree.contains("node_modules"));
}

#[test]
fn include_narrows_records_but_shallow_entries_stay_in_the_tree() {
    let entries = vec![
        dir(""),
        file("a.rs", "fn a() {}"),
        file("b.rs", "fn b() {}"),
        file("c.md", "# c"),
        dir("d1"),
        dir("d1/d2"),
        dir("d1/d2/d3"),
        file("d1/d2/d3/deep.md", "# deep"),
        file("d1/d2/d3/deep.rs", "fn deep() {}"),
    ];
    let (tree, files) = walk(&entries, &["rs"], &[], plain());
    let paths: Vec<&str> = files.iter().map(|f| f.path.as_str()).collect();
    assert_eq!(
        paths,
        vec!["/work/proj/a.rs", "/work/proj/b.rs", "/work/proj/d1/d2/d3/deep.rs"]
    );
    assert!(tree.contains("c.md"));
    assert!(tree.contains("deep.rs"));
    assert!(!tree.contains("deep.md"));
    assert_eq!(
        tree,
        "proj\n├── a.rs\n├── b.rs\n├── c.md\n└── d1\n    └── d2\n        └── d3\n            └── deep.rs\n"
    );
}

#[test]
fn tree_can_be_left_out() {
    let mut options = plain();
    options.exclude_from_tree = true;
    let entries = vec![file("a.py", "x")];
    let (tree, files) = walk(&entries, &[], &[], options);
    assert_eq!(tree, "");
    assert_eq!(files.len(), 1);
}

#[test]
fn unread_and_blank_files_are_in_the_tree_only() {
    let mut unread = file("secret.txt", "");
    unread.content = None;
    let entries = vec![unread, file("blank.txt", "  \n"), file("ok.txt", "ok")];
    let (tree, files) = walk(&entries, &[], &[], plain());
    assert_eq!(files.len(), 1);
    assert_eq!(files[0].relative, "ok.txt");
    assert_eq!(tree, "proj\n├── secret.txt\n├── blank.txt\n└── ok.txt\n");
}

#[test]
fn steps_of_a_walk() {
    let rules = ExcludeSet::new(&list(&["**/gen/**"])).ok().unwrap();
    let mut walk = Traversal::begin("proj", &list(&["**/*.rs"]), rules, plain());
    assert!(!walk.visit("gen", true));
    assert!(!walk.visit("gen/made.rs", false));
    assert!(!walk.add_file("gen/made.rs", "/p/gen/made.rs", b"fn made() {}"));
    assert!(!walk.visit("Cargo.lock", false));
    assert!(!walk.visit("src", true));
    assert!(walk.visit("src/lib.rs", false));
    assert!(walk.add_file("src/lib.rs", "/p/src/lib.rs", b"pub fn f() {}"));
    assert!(!walk.visit("src/notes.txt", false));
    assert!(!walk.add_file("src/notes.txt", "/p/src/notes.txt", b"notes"));
    assert!(walk.visit("src/empty.rs", false));
    assert!(!walk.add_file("src/empty.rs", "/p/src/empty.rs", b"\n"));
    let (tree, files) = walk.finish();
    assert_eq!(files.len(), 1);
    assert_eq!(files[0].path, "/p/src/lib.rs");
    assert_eq!(tree, "proj\n└── src\n    ├── lib.rs\n    ├── notes.txt\n    └── empty.rs\n");
}

#[test]
fn single_file_root() {
    let (tree, files) = traverse_file("/work/a.rs", Some(b"fn a() {}"), plain());
    assert_eq!(tree, "/work/a.rs");
    assert_eq!(files.len(), 1);
    assert_eq!(files[0].path, "/work/a.rs");
    assert_eq!(files[0].extension, "rs");
    assert_eq!(files[0].code, "```rs\nfn a() {}\n```");
    let (tree, files) = traverse_file("/work/a.rs", None, plain());
    assert_eq!(tree, "/work/a.rs");
    assert!(files.is_empty());
    let (_, files) = traverse_file("/work/a.rs", Some(b"  "), plain());
    assert!(files.is_empty());
}

#[test]
fn excluded_entries_leave_no_trace() {
    let entries = vec![
        dir(""),
        dir(".git"),
        file(".git/config", "[core]"),
        dir("src"),
        file("src/main.rs", "fn main() {}"),
        file("src/main.rs.log", "log"),
        file("logo.png", "png"),
        file("Cargo.lock", "lock"),
        dir("docs"),
        file("docs/guide.md", "# guide"),
        file("notes.md", "# notes"),
        dir("target"),
        file("target/debug/app", "bin"),
    ];
    let (tree, files) = walk(&entries, &[], &["docs/**", "**/notes.md"], plain());
    let paths: Vec<&str> = files.iter().map(|f| f.relative.as_str()).collect();
    assert_eq!(paths, vec!["src/main.rs"]);
    assert_eq!(tree, "proj\n└── src\n    └── main.rs\n");
}

#[test]
fn exclude_and_include_together() {
    let entries = vec![
        file("a.rs", "fn a() {}"),
        file("b.rs", "fn b() {}"),
        file("c.py", "c = 1"),
    ];
    let (tree, files) = walk(&entries, &["rs"], &["**/b.*"], plain());
    let paths: Vec<&str> = files.iter().map(|f| f.relative.as_str()).collect();
    assert_eq!(paths, vec!["a.rs"]);
    assert_eq!(tree, "proj\n├── a.rs\n└── c.py\n");
}

#[test]
fn broken_exclude_rule_is_reported() {
    let entries = vec![file("a.rs", "fn a() {}")];
    match traverse_directory(
        "proj",
        &entries,
        &Vec::new(),
        &list(&["**/*.md", "src/[a"]),
        plain(),
    ) {
        Err(RuleError::Rule(rule, detail)) => {
            assert_eq!(rule, "!src/[a");
            let e = RuleError::Rule(rule, detail.clone());
            assert_eq!(
                e.message(),
                format!("Invalid exclude rule '!src/[a': {}", detail)
            );
        }
        _ => panic!("the rule must be refused"),
    }
}

#[test]
fn compiled_rules_exclude_files_and_directories() {
    let rules = ExcludeSet::new(&list(&["md"])).ok().unwrap();
    assert!(rules.excludes("node_modules", true));
    assert!(rules.excludes("node_modules/x.js", false));
    assert!(rules.excludes("a/b/README.md", false));
    assert!(!rules.excludes("src", true));
    assert!(!rules.excludes("src/lib.rs", false));
    assert!(!rules.excludes("", true));
    assert!(!rules.excludes("build", false));
    assert!(rules.excludes("build", true));
}

#[test]
fn rule_errors_have_messages() {
    let e = RuleError::RuleSet("too large".to_string());
    assert_eq!(e.message(), "Invalid exclude rules: too large");
    let e = RuleError::Rule("!x".to_string(), "bad".to_string());
    assert_eq!(e.message(), "Invalid exclude rule '!x': bad");
}

#[test]
fn no_record_holds_the_replacement_character() {
    let inputs: Vec<Vec<u8>> = vec![
        vec![0xFF, 0xFE, b'a', b'\n', 0xC3, b'b'],
        "ok \u{FFFD} text\nsecond \u{FFFD}\u{FFFD} line".as_bytes().to_vec(),
        vec![0xE2, 0x82, b'x', 0xF0, 0x9F, b'\n', b'y'],
    ];
    for bytes in inputs {
        for line_number in [false, true] {
            for no_codeblock in [false, true] {
                let options = WalkOptions {
                    line_number,
                    relative_paths: false,
                    exclude_from_tree: false,
                    no_codeblock,
                };
                let record = make_record("p", &options, "f.txt", "/p/f.txt", &bytes).unwrap();
                assert!(!record.code.contains('\u{FFFD}'));
                assert!(record.code.contains("[]"));
            }
        }
    }
}

#[test]
fn backslash_and_trailing_whitespace_in_exclude_patterns() {
    match ExcludeSet::new(&list(&["**\\x"])) {
        Err(RuleError::Rule(rule, _)) => assert_eq!(rule, "!**\\x"),
        _ => panic!("a rule with a backslash must be refused"),
    }
    let rules = ExcludeSet::new(&list(&["**/*.md \t", "tmp/** "])).ok().unwrap();
    assert!(rules.excludes("a/b.md", false));
    assert!(rules.excludes("tmp/x", false));
    assert!(rules.excludes("tmp", true));
    assert!(!rules.excludes("a/b.rs", false));
}

#[test]
fn extension_that_is_no_text_is_left_out() {
    let record = make_record("p", &plain(), "a.t\u{FFFD}t", "/p/a.t\u{FFFD}t", b"x").unwrap();
    assert_eq!(record.extension, "");
    assert_eq!(record.code, "```\nx\n```");
    assert!(!record.code.contains('\u{FFFD}'));
}

#[test]
fn steps_over_given_outcomes() {
    let rules = ExcludeSet::new(&Vec::new()).ok().unwrap();
    let mut walk = Traversal::begin("proj", &Vec::new(), rules, plain());
    walk.note("a/b/c/d/deep.txt", false, false);
    walk.note("a/shallow.txt", false, false);
    walk.note("x/y/z/w/passed.rs", false, true);
    walk.note("gone.rs", true, true);
    assert!(walk.keep_text("x/y/z/w/passed.rs", "/p/x/y/z/w/passed.rs", "fn p() {}", false, true));
    assert!(!walk.keep_text("a/shallow.txt", "/p/a/shallow.txt", "text", false, false));
    assert!(!walk.keep_text("gone.rs", "/p/gone.rs", "fn g() {}", true, true));
    assert!(!walk.keep_text("blank.rs", "/p/blank.rs", " \n", false, true));
    let (tree, files) = walk.finish();
    assert_eq!(files.len(), 1);
    assert_eq!(files[0].code, "```rs\nfn p() {}\n```");
    assert_eq!(
        tree,
        "proj\n├── a\n│   └── shallow.txt\n└── x\n    └── y\n        └── z\n            └── w\n                └── passed.rs\n"
    );
}

#[test]
fn record_from_decoded_text() {
    let record = make_record_from("p", &plain(), "a.rs", "/p/a.rs", "let s = \"\u{FFFD}\";").unwrap();
    assert_eq!(record.code, "```rs\nlet s = \"[]\";\n```");
    assert!(make_record_from("p", &plain(), "a.rs", "/p/a.rs", "\n").is_none());
}
