use code2prompt::filter::{
    all_patterns_compile, are_portable, compiles, decide, is_portable, matches_any, passes,
    should_include_file, try_should_include_file,
};

fn list(items: &[&str]) -> Vec<String> {
    items.iter().map(|s| s.to_string()).collect()
}

#[test]
fn patterns_compile_or_not() {
    assert!(compiles("**/*.rs"));
    assert!(compiles("src/[a-z]?.txt"));
    assert!(!compiles("a**b"));
    assert!(!compiles("***"));
    assert!(!compiles("[abc"));
    assert!(all_patterns_compile(&list(&["*.rs", "**/x"])));
    assert!(!all_patterns_compile(&list(&["*.rs", "[", "**/x"])));
    assert!(all_patterns_compile(&list(&[])));
}

#[test]
fn backslash_makes_a_text_not_portable() {
    assert!(is_portable("src/main.rs"));
    assert!(!is_portable("src\\main.rs"));
    assert!(are_portable(&list(&["a", "b/c"])));
    assert!(!are_portable(&list(&["a", "b\\c"])));
}

#[test]
fn some_pattern_matches() {
    let patterns = list(&["**/*.rs", "docs/*"]);
    assert!(matches_any(&patterns, "/p/src/main.rs"));
    assert!(matches_any(&patterns, "docs/readme.md"));
    assert!(!matches_any(&patterns, "/p/src/main.py"));
    assert!(!matches_any(&list(&[]), "anything"));
}

#[test]
fn matching_is_the_glob_crate_s() {
    let cases = [
        ("**/*.rs", "/a/b/c.rs"),
        ("**/*.rs", "c.rs"),
        ("*.rs", "a/b.rs"),
        ("a?c", "abc"),
        ("a?c", "ac"),
        ("[!a]*", "abc"),
        ("**/Dockerfile", "x/Dockerfile"),
        ("**/.env*", "app/.env.local"),
        ("src", "src"),
        ("src", "src/lib.rs"),
    ];
    for (pattern, text) in cases {
        let expected = glob::Pattern::new(pattern).unwrap().matches(text);
        assert_eq!(matches_any(&list(&[pattern]), text), expected);
        assert_eq!(passes(&list(&[pattern]), text), expected);
    }
}

#[test]
fn ignored_path_is_dropped() {
    assert!(!should_include_file(
        "/p/build/out.rs",
        &list(&["**/*.rs"]),
        &list(&[]),
        true,
        &list(&["**/build/**"])
    ));
}

#[test]
fn include_and_exclude_with_priority() {
    let inc = list(&["**/*.rs"]);
    let exc = list(&["**/gen/**"]);
    let none = list(&[]);
    assert!(should_include_file("/p/src/a.rs", &inc, &exc, false, &none));
    assert!(!should_include_file("/p/gen/a.py", &inc, &exc, true, &none));
    assert!(should_include_file("/p/gen/a.rs", &inc, &exc, true, &none));
    assert!(!should_include_file("/p/gen/a.rs", &inc, &exc, false, &none));
    assert!(!should_include_file("/p/src/a.py", &inc, &exc, true, &none));
    assert!(should_include_file("/p/src/a.py", &none, &exc, false, &none));
    assert!(should_include_file("/p/src/a.py", &none, &none, false, &none));
}

#[test]
fn undecidable_inputs_give_no_decision() {
    let none = list(&[]);
    assert_eq!(
        try_should_include_file("/p/a.rs", &list(&["**/*.rs"]), &none, false, &none),
        Some(true)
    );
    assert_eq!(
        try_should_include_file("/p/a.rs", &list(&["a**"]), &none, false, &none),
        None
    );
    assert_eq!(
        try_should_include_file("/p/a.rs", &none, &list(&["[x"]), false, &none),
        None
    );
    assert_eq!(
        try_should_include_file("/p/a.rs", &none, &none, false, &list(&["***"])),
        None
    );
}

#[test]
fn texts_with_a_backslash_are_decided_too() {
    let none = list(&[]);
    let expected = glob::Pattern::new("**/*.rs").unwrap().matches("C:\\p\\a.rs");
    assert_eq!(
        try_should_include_file("C:\\p\\a.rs", &list(&["**/*.rs"]), &none, false, &none),
        Some(expected)
    );
    assert_eq!(
        try_should_include_file("/p/a\\b.rs", &none, &list(&["**/*.rs"]), false, &none),
        Some(false)
    );
}

#[test]
fn decision_over_the_three_matches() {
    for priority in [false, true] {
        for no_includes in [false, true] {
            for included in [false, true] {
                for excluded in [false, true] {
                    assert!(!decide(true, included, excluded, priority, no_includes));
                }
            }
            assert_eq!(decide(false, true, true, priority, no_includes), priority);
            assert!(decide(false, true, false, priority, no_includes));
            assert!(!decide(false, false, true, priority, no_includes));
            assert_eq!(decide(false, false, false, priority, no_includes), no_includes);
        }
    }
}

#[test]
fn include_patterns_narrow_and_broken_ones_let_all_pass() {
    assert!(passes(&list(&[]), "a/b.txt"));
    assert!(passes(&list(&["**/*.rs"]), "a/b.rs"));
    assert!(!passes(&list(&["**/*.rs"]), "a/b.txt"));
    assert!(passes(&list(&["**/*.rs", "**/*.txt"]), "a/b.txt"));
    assert!(passes(&list(&["a**b"]), "a/b.txt"));
}
