use code2prompt::path::{depth, extension, file_name, label, name_extension, path_names};
use std::path::Path;

fn list(items: &[&str]) -> Vec<String> {
    items.iter().map(|s| s.to_string()).collect()
}

const SAMPLES: [&str; 22] = [
    "",
    ".",
    "..",
    "/",
    "//",
    "a",
    "a/",
    "a/.",
    "a/..",
    "./a",
    "../a",
    "/a/b.rs",
    "a//b///c.tar.gz",
    "a/./b",
    ".gitignore",
    "src/.env.local",
    "x/y/z.",
    "/usr/bin/",
    "foo.txt/.//",
    "a/b/../c.TXT",
    "./",
    "/.",
];

#[test]
fn file_name_agrees_with_std() {
    for s in SAMPLES {
        let expected = Path::new(s)
            .file_name()
            .map(|n| n.to_str().unwrap().to_string());
        assert_eq!(file_name(s), expected);
    }
}

#[test]
fn extension_agrees_with_std() {
    for s in SAMPLES {
        let expected = Path::new(s)
            .extension()
            .and_then(|e| e.to_str())
            .unwrap_or("")
            .to_string();
        assert_eq!(extension(s), expected);
    }
    assert_eq!(name_extension("archive.tar.gz"), "gz");
    assert_eq!(name_extension(".hidden"), "");
    assert_eq!(name_extension("Makefile"), "");
}

#[test]
fn depth_agrees_with_std_components() {
    for s in SAMPLES {
        assert_eq!(depth(s), Path::new(s).components().count());
    }
}

#[test]
fn tree_names_are_the_normal_components() {
    for s in SAMPLES {
        let expected: Vec<String> = Path::new(s)
            .components()
            .filter_map(|c| match c {
                std::path::Component::Normal(n) => Some(n.to_str().unwrap().to_string()),
                _ => None,
            })
            .collect();
        assert_eq!(path_names(s, false), expected);
    }
    assert_eq!(path_names("a/../b/./c", true), list(&["a", "..", "b", "c"]));
}

#[test]
fn label_is_the_base_name() {
    assert_eq!(label("/home/me/project", "/work"), "project");
    assert_eq!(label("project/", "/work"), "project");
    assert_eq!(label("src/main.rs", "/work"), "main.rs");
}

#[test]
fn label_falls_back_to_working_directory() {
    assert_eq!(label(".", "/home/me/work"), "work");
    assert_eq!(label("/", "/home/me/work"), "work");
    assert_eq!(label("", "/home/me/work"), "work");
    assert_eq!(label("a/..", "/home/me/work"), "work");
}

#[test]
fn label_is_a_dot_at_last() {
    assert_eq!(label(".", "/"), ".");
    assert_eq!(label("/", ""), ".");
}

#[test]
fn label_of_absolute_form_is_the_same() {
    let cwd = "/home/me/work";
    for s in [".", "src", "src/lib.rs", "a/b/", "./x"] {
        let absolute = format!("{}/{}", cwd, s);
        assert_eq!(label(&absolute, cwd), label(s, cwd));
    }
}
