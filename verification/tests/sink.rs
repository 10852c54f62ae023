use code2prompt::sink::{
    clipboard_content, keep_existing, parse_paths_from_clipboard, ClipboardError,
};

fn list(items: &[&str]) -> Vec<String> {
    items.iter().map(|s| s.to_string()).collect()
}

#[test]
fn overwrite_ignores_old_content() {
    assert_eq!(clipboard_content(Some("old"), "new", false), "new");
    assert_eq!(clipboard_content(None, "new", false), "new");
}

#[test]
fn append_puts_separator_between() {
    assert_eq!(
        clipboard_content(Some("old"), "new", true),
        "old\n\n----------\n\nnew"
    );
    assert_eq!(clipboard_content(Some(""), "new", true), "\n\n----------\n\nnew");
}

#[test]
fn append_without_old_content_overwrites() {
    assert_eq!(clipboard_content(None, "new", true), "new");
}

#[test]
fn clipboard_text_is_split_at_whitespace() {
    assert_eq!(
        parse_paths_from_clipboard("  /tmp/a\n/tmp/b\t./c  "),
        list(&["/tmp/a", "/tmp/b", "./c"])
    );
    assert_eq!(parse_paths_from_clipboard(" \n "), Vec::<String>::new());
}

#[test]
fn existing_candidates_are_kept_in_order() {
    let candidates = list(&["a", "b", "c"]);
    assert_eq!(
        keep_existing(&candidates, &vec![true, false, true]),
        Ok(list(&["a", "c"]))
    );
}

#[test]
fn no_existing_candidate_is_an_error() {
    let candidates = list(&["a", "b"]);
    assert_eq!(
        keep_existing(&candidates, &vec![false, false]),
        Err(ClipboardError::NoValidPaths)
    );
    assert_eq!(
        keep_existing(&Vec::new(), &Vec::new()),
        Err(ClipboardError::NoValidPaths)
    );
    assert_eq!(
        ClipboardError::NoValidPaths.message(),
        "No valid paths found in clipboard"
    );
}
