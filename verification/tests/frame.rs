use code2prompt::frame::{compose, indent, wrap_root};

#[test]
fn indent_pads_each_line() {
    assert_eq!(indent("a\nb", 2), "  a\n  b");
    assert_eq!(indent("a\n\nb\n", 4), "    a\n    \n    b");
    assert_eq!(indent("", 2), "");
    assert_eq!(indent("x", 0), "x");
}

#[test]
fn indent_agrees_with_lines_and_join() {
    for s in ["", "one", "one\ntwo\r\nthree\n", "\n\n", "a\r"] {
        let expected = s
            .lines()
            .map(|l| format!("   {}", l))
            .collect::<Vec<_>>()
            .join("\n");
        assert_eq!(indent(s, 3), expected);
    }
}

#[test]
fn root_is_wrapped_in_its_tag() {
    assert_eq!(
        wrap_root("proj", "Tree:\nproj\n"),
        "<proj>\n  Tree:\n  proj\n</proj>"
    );
}

#[test]
fn two_roots_are_framed_under_context() {
    let p1 = wrap_root("p1", "first\nroot");
    let p2 = wrap_root("p2", "second");
    assert_eq!(
        compose(&vec![p1, p2]),
        "<context>\n<p1>\n  first\n  root\n</p1>\n\n<p2>\n  second\n</p2>\n</context>"
    );
}

#[test]
fn one_or_no_root_under_context() {
    assert_eq!(compose(&vec!["x".to_string()]), "<context>\nx\n</context>");
    assert_eq!(compose(&Vec::new()), "<context>\n\n</context>");
}
