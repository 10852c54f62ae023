use code2prompt::pattern::{
    default_excludes, exclude_rules, negate, parse_ignore_file, parse_patterns, to_exclude_rule,
    to_include_glob,
};
use code2prompt::{get_encoding, get_model_info, Encoding};

fn list(items: &[&str]) -> Vec<String> {
    items.iter().map(|s| s.to_string()).collect()
}

#[test]
fn no_list_gives_no_pattern() {
    assert_eq!(parse_patterns(&None), Vec::<String>::new());
    assert_eq!(parse_patterns(&Some(String::new())), Vec::<String>::new());
}

#[test]
fn bare_extension_becomes_recursive_glob() {
    assert_eq!(parse_patterns(&Some("rs".to_string())), list(&["**/*.rs"]));
}

#[test]
fn words_are_trimmed_and_empty_words_skipped() {
    assert_eq!(
        parse_patterns(&Some(" rs , ,py,, ".to_string())),
        list(&["**/*.rs", "**/*.py"])
    );
}

#[test]
fn docker_and_env_expand_in_any_case() {
    assert_eq!(
        parse_patterns(&Some("Docker,ENV".to_string())),
        list(&[
            "**/Dockerfile",
            "**/docker-compose.yml",
            "**/docker-compose.yaml",
            "**/.env",
            "**/.env.*"
        ])
    );
}

#[test]
fn globs_and_paths_pass_through() {
    assert_eq!(
        parse_patterns(&Some("src/*.rs, docs/readme ,*.md".to_string())),
        list(&["src/*.rs", "docs/readme", "*.md"])
    );
}

#[test]
fn negation_is_added_once() {
    assert_eq!(negate("**/*.rs"), "!**/*.rs");
    assert_eq!(negate("!**/*.rs"), "!**/*.rs");
    assert_eq!(negate(""), "!");
}

#[test]
fn default_rules_are_the_fixed_list() {
    let rules = default_excludes();
    assert_eq!(rules.len(), 108);
    assert_eq!(rules[0], "!**/.git/**");
    assert_eq!(rules[107], "!**/*.swo");
    assert!(rules.iter().all(|r| r.starts_with("!**/")));
    for name in [
        "!**/node_modules/**",
        "!**/target/**",
        "!**/__pycache__/**",
        "!**/Cargo.lock",
        "!**/*.lock",
        "!**/*.png",
        "!**/*.log",
        "!**/Thumbs.db",
        "!**/*.xlsx",
    ] {
        assert!(rules.iter().any(|r| r == name));
    }
}

#[test]
fn user_excludes_follow_the_defaults() {
    let rules = exclude_rules(&list(&["**/*.md", "!docs/**", "lock"]));
    let plain: Vec<String> = rules.iter().filter(|r| !r.ends_with('/')).cloned().collect();
    assert_eq!(plain.len(), 111);
    assert_eq!(plain[..108], default_excludes()[..]);
    assert_eq!(plain[108], "!**/*.md");
    assert_eq!(plain[109], "!docs/**");
    assert_eq!(plain[110], "!**/*.lock");
}

#[test]
fn rules_for_a_directory_s_content_bring_the_rule_for_the_directory() {
    let rules = exclude_rules(&list(&["gen/**"]));
    assert_eq!(rules.len(), 108 + 34 + 2);
    assert_eq!(rules[0], "!**/.git/**");
    assert_eq!(rules[1], "!**/.git/");
    assert_eq!(rules[2], "!**/.svn/**");
    assert_eq!(rules[3], "!**/.svn/");
    assert_eq!(rules[142], "!gen/**");
    assert_eq!(rules[143], "!gen/");
    for (i, rule) in rules.iter().enumerate() {
        assert!(rule.starts_with('!'));
        if rule.ends_with("/**") {
            assert_eq!(rules[i + 1], rule[..rule.len() - 2]);
        }
    }
}

#[test]
fn ignore_file_lines_are_trimmed_and_comments_dropped() {
    let text = "# build output\n  target/  \n\n*.tmp\r\n   # indented comment\nnotes.txt";
    assert_eq!(
        parse_ignore_file(text),
        list(&["target/", "*.tmp", "notes.txt"])
    );
    assert_eq!(parse_ignore_file(""), Vec::<String>::new());
}

#[test]
fn include_globs_of_words() {
    assert_eq!(to_include_glob("Dockerfile"), "**/Dockerfile");
    assert_eq!(to_include_glob("docker"), "**/Dockerfile");
    assert_eq!(to_include_glob("ENV"), "**/.env*");
    assert_eq!(to_include_glob("rs"), "**/*.rs");
    assert_eq!(to_include_glob("src/lib"), "src/lib");
    assert_eq!(to_include_glob("**/*.py"), "**/*.py");
}

#[test]
fn exclude_rules_work_as_overrides_of_the_walk() {
    let mut builder = ignore::overrides::OverrideBuilder::new("/project");
    for rule in exclude_rules(&parse_patterns(&Some("md".to_string()))) {
        builder.add(&rule).unwrap();
    }
    let overrides = builder.build().unwrap();
    assert!(overrides.matched("/project/node_modules/x.js", false).is_ignore());
    assert!(overrides.matched("/project/deep/target/debug/app", false).is_ignore());
    assert!(overrides.matched("/project/Cargo.lock", false).is_ignore());
    assert!(overrides.matched("/project/img/logo.png", false).is_ignore());
    assert!(overrides.matched("/project/README.md", false).is_ignore());
    assert!(overrides.matched("/project/node_modules", true).is_ignore());
    assert!(overrides.matched("/project/x/.git", true).is_ignore());
    assert!(!overrides.matched("/project/a.py", false).is_ignore());
    assert!(!overrides.matched("/project/b.txt", false).is_ignore());
    assert!(!overrides.matched("/project/src", true).is_ignore());
    assert!(!overrides.matched("/project/tmp", false).is_ignore());
}

#[test]
fn two_branch_names() {
    assert_eq!(
        code2prompt::parse_branches("main, feature/x "),
        Some(("main".to_string(), "feature/x".to_string()))
    );
    assert_eq!(code2prompt::parse_branches("main"), None);
    assert_eq!(code2prompt::parse_branches("a,b,c"), None);
    assert_eq!(code2prompt::parse_branches("a, "), None);
    assert_eq!(code2prompt::parse_branches(",b"), None);
    assert_eq!(code2prompt::parse_branches(""), None);
}

#[test]
fn encodings_by_name() {
    assert_eq!(get_encoding(&None), Encoding::Cl100k);
    assert_eq!(get_encoding(&Some("cl100k".to_string())), Encoding::Cl100k);
    assert_eq!(get_encoding(&Some("p50k".to_string())), Encoding::P50k);
    assert_eq!(get_encoding(&Some("p50k_edit".to_string())), Encoding::P50kEdit);
    assert_eq!(get_encoding(&Some("r50k".to_string())), Encoding::R50k);
    assert_eq!(get_encoding(&Some("gpt2".to_string())), Encoding::R50k);
    assert_eq!(get_encoding(&Some("unknown".to_string())), Encoding::Cl100k);
    assert_eq!(get_model_info(&None), "ChatGPT models, text-embedding-ada-002");
    assert_eq!(
        get_model_info(&Some("gpt2".to_string())),
        "GPT-3 models like davinci"
    );
}

#[test]
fn plain_words_exclude_by_extension() {
    assert_eq!(to_exclude_rule("lock"), "!**/*.lock");
    assert_eq!(to_exclude_rule("**/*.md"), "!**/*.md");
    assert_eq!(to_exclude_rule("docs/x"), "!docs/x");
    assert_eq!(to_exclude_rule("!keep"), "!keep");
}
