use code2prompt::tree::TreeNode;

fn names(path: &str) -> Vec<String> {
    path.split('/').map(|s| s.to_string()).collect()
}

fn build(root: &str, paths: &[&str]) -> TreeNode {
    let mut tree = TreeNode::new(root.to_string());
    for p in paths {
        tree.add_path(&names(p));
    }
    tree
}

fn outside(node: &TreeNode) -> termtree::Tree<String> {
    let mut t = termtree::Tree::new(node.label.clone());
    for child in node.children.iter() {
        t.push(outside(child));
    }
    t
}

#[test]
fn single_node_is_one_line() {
    assert_eq!(TreeNode::new("root".to_string()).render(), "root\n");
}

#[test]
fn children_are_drawn_with_glyphs() {
    let tree = build("proj", &["src/main.rs", "src/lib.rs", "README.md"]);
    assert_eq!(
        tree.render(),
        "proj\n├── src\n│   ├── main.rs\n│   └── lib.rs\n└── README.md\n"
    );
}

#[test]
fn shared_prefixes_are_coalesced() {
    let tree = build("r", &["a/b/c", "a/b/d", "a/b/c", "a"]);
    assert_eq!(tree.children.len(), 1);
    assert_eq!(tree.children[0].children.len(), 1);
    assert_eq!(tree.children[0].children[0].children.len(), 2);
    assert_eq!(tree.render(), "r\n└── a\n    └── b\n        ├── c\n        └── d\n");
}

#[test]
fn empty_path_adds_nothing() {
    let mut tree = TreeNode::new("r".to_string());
    tree.add_path(&Vec::new());
    assert_eq!(tree.children.len(), 0);
}

#[test]
fn drawing_agrees_with_termtree() {
    let cases: Vec<Vec<&str>> = vec![
        vec![],
        vec!["a"],
        vec!["a", "b", "c"],
        vec!["a/b", "a/c/d", "e", "a/c/f", "g/h/i/j", "g/k"],
        vec!["x/y/z", "x/y", "x", "w", "x/y/z/q"],
    ];
    for paths in cases {
        let tree = build("root", &paths);
        assert_eq!(tree.render(), outside(&tree).to_string());
    }
}
