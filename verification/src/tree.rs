//! The source tree: a rooted tree of labels, built from relative paths and
//! drawn with box-drawing glyphs.

use crate::text::{push_range, push_str, string_of, texts};
use vstd::prelude::*;

verus! {

/// A node of the source tree with the nodes below it, in the order in which
/// they were added.
pub struct TreeNode {
    pub label: String,
    pub children: Vec<TreeNode>,
}

/// What a tree is: a label and the trees below it, in order.
pub ghost struct Shape {
    pub label: Seq<char>,
    pub children: Seq<Shape>,
}

/// The shape of `node`.
pub open spec fn shape_of(node: TreeNode) -> Shape
    decreases node,
{
    Shape {
        label: node.label@,
        children: Seq::new(
            node.children.len() as nat,
            |i: int|
                if 0 <= i < node.children.len() {
                    shape_of(node.children[i])
                } else {
                    arbitrary()
                },
        ),
    }
}

impl View for TreeNode {
    type V = Shape;

    open spec fn view(&self) -> Shape {
        shape_of(*self)
    }
}

/// The shapes of a list of nodes.
pub open spec fn shapes(kids: Seq<TreeNode>) -> Seq<Shape> {
    Seq::new(kids.len(), |i: int| kids[i]@)
}

/// A tree of one node.
pub open spec fn leaf(label: Seq<char>) -> Shape {
    Shape { label, children: Seq::empty() }
}

/// The position of the first tree of `kids` with the label `name`, or
/// `kids.len()` where there is none.
pub open spec fn child_index(kids: Seq<Shape>, name: Seq<char>) -> int
    decreases kids.len(),
{
    if kids.len() == 0 || kids[0].label == name {
        0
    } else {
        1 + child_index(kids.drop_first(), name)
    }
}

/// The tree `t` after the path `names` was added below its root: each name
/// goes down into the child that has it as label, or, where there is none,
/// into a new last child.
pub open spec fn grown(t: Shape, names: Seq<Seq<char>>) -> Shape
    decreases names.len(),
{
    if names.len() == 0 {
        t
    } else {
        let k = child_index(t.children, names[0]);
        if 0 <= k < t.children.len() {
            Shape {
                label: t.label,
                children: t.children.update(k, grown(t.children[k], names.drop_first())),
            }
        } else {
            Shape {
                label: t.label,
                children: t.children.push(grown(leaf(names[0]), names.drop_first())),
            }
        }
    }
}

/// `child_index` is the least position with the label.
pub proof fn lemma_child_index(kids: Seq<Shape>, name: Seq<char>)
    ensures
        0 <= child_index(kids, name) <= kids.len(),
        forall|k: int| 0 <= k < child_index(kids, name) ==> (#[trigger] kids[k]).label != name,
        child_index(kids, name) < kids.len() ==> kids[child_index(kids, name)].label == name,
    decreases kids.len(),
{
    if kids.len() == 0 || kids[0].label == name {
    } else {
        let t = kids.drop_first();
        lemma_child_index(t, name);
        assert forall|k: int| 0 <= k < child_index(kids, name) implies (#[trigger] kids[k]).label
            != name by {
            if k > 0 {
                assert(kids[k] == t[k - 1]);
            }
        }
    }
}

/// A position with the label and none before it is `child_index`.
pub proof fn lemma_child_index_is(kids: Seq<Shape>, name: Seq<char>, k: int)
    requires
        0 <= k <= kids.len(),
        forall|i: int| 0 <= i < k ==> (#[trigger] kids[i]).label != name,
        k < kids.len() ==> kids[k].label == name,
    ensures
        child_index(kids, name) == k,
    decreases k,
{
    if k > 0 {
        let t = kids.drop_first();
        assert forall|i: int| 0 <= i < k - 1 implies (#[trigger] t[i]).label != name by {
            assert(t[i] == kids[i + 1]);
        }
        lemma_child_index_is(t, name, k - 1);
    }
}

impl TreeNode {
    /// A tree of one node with the label `label`.
    pub fn new(label: String) -> (node: TreeNode)
        ensures
            node@ == leaf(label@),
    {
        let node = TreeNode { label, children: Vec::new() };
        assert(node@.children =~= Seq::<Shape>::empty());
        node
    }

    /// The children's shapes are the shapes of the children.
    pub proof fn lemma_view(&self)
        ensures
            self@.label == self.label@,
            self@.children == shapes(self.children@),
    {
        assert(self@.children.len() == self.children@.len());
        assert forall|i: int| 0 <= i < self.children@.len() implies self@.children[i]
            == self.children@[i]@ by {
        }
        assert(self@.children =~= shapes(self.children@));
    }

    /// The position of the first child with the label `name`, or the number
    /// of children.
    fn find_child(&self, name: &String) -> (k: usize)
        ensures
            k == child_index(self@.children, name@),
            k <= self.children.len(),
    {
        let mut k: usize = 0;
        proof {
            self.lemma_view();
        }
        while k < self.children.len() && self.children[k].label != *name
            invariant
                k <= self.children.len(),
                self@.children == shapes(self.children@),
                forall|i: int| 0 <= i < k ==> (#[trigger] self@.children[i]).label != name@,
            decreases self.children.len() - k,
        {
            proof {
                self.children[k as int].lemma_view();
            }
            k += 1;
        }
        proof {
            if k < self.children.len() {
                self.children[k as int].lemma_view();
            }
            lemma_child_index_is(self@.children, name@, k as int);
        }
        k
    }

    /// Adds the path `names[from..]` below this node.
    fn add_from(&mut self, names: &Vec<String>, from: usize)
        requires
            from <= names.len(),
        ensures
            final(self)@ == grown(old(self)@, texts(names@).skip(from as int)),
        decreases names.len() - from,
    {
        if from == names.len() {
            return ;
        }
        let ghost rest = texts(names@).skip(from as int);
        let ghost before = self@;
        proof {
            assert(rest[0] == names@[from as int]@);
            assert(rest.drop_first() == texts(names@).skip(from + 1));
            self.lemma_view();
        }
        let k = self.find_child(&names[from]);
        if k == self.children.len() {
            let fresh = TreeNode::new(names[from].clone());
            self.children.push(fresh);
        }
        let ghost kids = self.children@;
        self.children[k].add_from(names, from + 1);
        proof {
            self.lemma_view();
            assert(self.children@ == kids.update(k as int, self.children@[k as int]));
            assert(self@.children =~= grown(before, rest).children);
        }
    }

    /// Adds a path below the root: one node for each name that is not yet
    /// there, each under the node of the name before it.
    pub fn add_path(&mut self, names: &Vec<String>)
        ensures
            final(self)@ == grown(old(self)@, texts(names@)),
    {
        proof {
            assert(texts(names@).skip(0) == texts(names@));
        }
        self.add_from(names, 0);
    }
}

/// What stands before a label: the glyph of a last child or of another one.
pub open spec fn item_glyph(last: bool) -> Seq<char> {
    if last {
        seq!['\u{2514}', '\u{2500}', '\u{2500}', ' ']
    } else {
        seq!['\u{251C}', '\u{2500}', '\u{2500}', ' ']
    }
}

/// What stands, on the lines below a child, in that child's column: blanks
/// below a last child, a vertical bar below another one.
pub open spec fn skip_glyph(last: bool) -> Seq<char> {
    if last {
        seq![' ', ' ', ' ', ' ']
    } else {
        seq!['\u{2502}', ' ', ' ', ' ']
    }
}

/// The lines of the trees `kids[from..]` and of all below them: for each tree
/// a line with `prefix`, its glyph and its label, followed by the lines of
/// its children under a prefix that is longer by one column.
pub open spec fn entries_text(kids: Seq<Shape>, from: int, prefix: Seq<char>) -> Seq<char>
    decreases kids, kids.len() - from,
{
    if from < 0 || from >= kids.len() {
        Seq::empty()
    } else {
        let last = from == kids.len() - 1;
        prefix + item_glyph(last) + kids[from].label + seq!['\n'] + entries_text(
            kids[from].children,
            0,
            prefix + skip_glyph(last),
        ) + entries_text(kids, from + 1, prefix)
    }
}

/// The drawing of a tree: the root's label on a line of its own, then the
/// lines of all nodes below it. Every line ends with a line feed. This is
/// the drawing that the `termtree` crate gives with its default glyphs; it
/// is short enough to be stated here in full, so the library draws the tree
/// itself and the drawing is proved, not taken on trust.
pub open spec fn tree_text(t: Shape) -> Seq<char> {
    t.label + seq!['\n'] + entries_text(t.children, 0, Seq::empty())
}

/// Appends the lines of `kids` and of all below them to `out`.
fn push_entries(out: &mut Vec<char>, kids: &Vec<TreeNode>, prefix: &Vec<char>)
    ensures
        final(out)@ == old(out)@ + entries_text(shapes(kids@), 0, prefix@),
    decreases kids,
{
    let mut i: usize = 0;
    proof {
        assert(out@ + entries_text(shapes(kids@), 0, prefix@) == old(out)@ + entries_text(
            shapes(kids@),
            0,
            prefix@,
        ));
    }
    while i < kids.len()
        invariant
            i <= kids.len(),
            out@ + entries_text(shapes(kids@), i as int, prefix@) == old(out)@ + entries_text(
                shapes(kids@),
                0,
                prefix@,
            ),
        decreases kids.len() - i,
    {
        let ghost before = out@;
        let last = i + 1 == kids.len();
        let mut deeper: Vec<char> = Vec::new();
        push_range(&mut deeper, prefix, 0, prefix.len());
        push_range(out, prefix, 0, prefix.len());
        if last {
            out.push('\u{2514}');
            deeper.push(' ');
        } else {
            out.push('\u{251C}');
            deeper.push('\u{2502}');
        }
        out.push('\u{2500}');
        out.push('\u{2500}');
        out.push(' ');
        deeper.push(' ');
        deeper.push(' ');
        deeper.push(' ');
        push_str(out, kids[i].label.as_str());
        out.push('\n');
        proof {
            kids@[i as int].lemma_view();
            assert(prefix@.subrange(0, prefix.len() as int) == prefix@);
            assert(deeper@ =~= prefix@ + skip_glyph(last));
            assert(out@ =~= before + (prefix@ + item_glyph(last) + shapes(kids@)[i as int].label
                + seq!['\n']));
        }
        let ghost line = out@;
        push_entries(out, &kids[i].children, &deeper);
        proof {
            let all = shapes(kids@);
            let below = entries_text(all[i as int].children, 0, prefix@ + skip_glyph(last));
            let after = entries_text(all, i + 1, prefix@);
            assert(out@ == line + below);
            assert(entries_text(all, i as int, prefix@) == prefix@ + item_glyph(last)
                + all[i as int].label + seq!['\n'] + below + after);
            assert(before + (prefix@ + item_glyph(last) + all[i as int].label + seq!['\n'] + below
                + after) =~= out@ + after);
        }
        i += 1;
    }
    proof {
        assert(out@ + entries_text(shapes(kids@), i as int, prefix@) == out@);
    }
}

impl TreeNode {
    /// Draws the tree: the root's label on the first line, then one line for
    /// each node below it, children in order under their parent.
    pub fn render(&self) -> (text: String)
        ensures
            text@ == tree_text(self@),
    {
        let mut out: Vec<char> = Vec::new();
        push_str(&mut out, self.label.as_str());
        out.push('\n');
        let prefix: Vec<char> = Vec::new();
        push_entries(&mut out, &self.children, &prefix);
        proof {
            self.lemma_view();
            assert(prefix@ == Seq::<char>::empty());
            assert(out@ =~= tree_text(self@));
        }
        string_of(&out)
    }
}

/// The node that the path `names` leads to from the root of `t`: each name
/// leads to the first child with that label.
pub open spec fn node_at(t: Shape, names: Seq<Seq<char>>) -> Option<Shape>
    decreases names.len(),
{
    if names.len() == 0 {
        Some(t)
    } else {
        let k = child_index(t.children, names[0]);
        if 0 <= k < t.children.len() {
            node_at(t.children[k], names.drop_first())
        } else {
            None
        }
    }
}

/// Whether the path `names` leads to a node of `t`.
pub open spec fn has_path(t: Shape, names: Seq<Seq<char>>) -> bool {
    node_at(t, names) is Some
}

/// Whether the path `names` leads to a node of `t` without children.
pub open spec fn is_leaf_path(t: Shape, names: Seq<Seq<char>>) -> bool {
    node_at(t, names) matches Some(node) && node.children.len() == 0
}

/// Whether the path `p` is the beginning of the path `q`.
pub open spec fn is_prefix(p: Seq<Seq<char>>, q: Seq<Seq<char>>) -> bool {
    p.len() <= q.len() && q.take(p.len() as int) == p
}

/// The child of `t` under which a path that starts with `name` goes on: the
/// first child with that label, or a new node.
pub open spec fn branch(t: Shape, name: Seq<char>) -> Shape {
    let k = child_index(t.children, name);
    if 0 <= k < t.children.len() {
        t.children[k]
    } else {
        leaf(name)
    }
}

/// A path is the beginning of another one where their first names agree and
/// so do the rest.
proof fn lemma_prefix_step(p: Seq<Seq<char>>, q: Seq<Seq<char>>)
    requires
        p.len() > 0,
        q.len() > 0,
    ensures
        is_prefix(p, q) <==> (p[0] == q[0] && is_prefix(p.drop_first(), q.drop_first())),
{
    let n = p.len() as int;
    if is_prefix(p, q) {
        assert(q.take(n)[0] == p[0]);
        assert(q.drop_first().take(n - 1) =~= q.take(n).drop_first());
    }
    if p[0] == q[0] && is_prefix(p.drop_first(), q.drop_first()) {
        assert forall|j: int| 0 <= j < n implies q.take(n)[j] == p[j] by {
            if j > 0 {
                assert(q.drop_first().take(n - 1)[j - 1] == p.drop_first()[j - 1]);
            }
        }
        assert(q.take(n) =~= p);
    }
}

/// Growing a tree keeps the label of its root.
proof fn lemma_grown_label(t: Shape, names: Seq<Seq<char>>)
    ensures
        grown(t, names).label == t.label,
{
}

/// What a path leads to after the tree grew by `names`: a path that starts
/// as `names` does goes on in the grown branch; any other path leads to what
/// it led to before.
proof fn lemma_grown_node(t: Shape, names: Seq<Seq<char>>, q: Seq<Seq<char>>)
    requires
        names.len() > 0,
        q.len() > 0,
    ensures
        q[0] == names[0] ==> node_at(grown(t, names), q) == node_at(
            grown(branch(t, names[0]), names.drop_first()),
            q.drop_first(),
        ),
        q[0] != names[0] ==> node_at(grown(t, names), q) == node_at(t, q),
{
    let g = grown(t, names);
    let k = child_index(t.children, names[0]);
    let j = child_index(t.children, q[0]);
    let sub = grown(branch(t, names[0]), names.drop_first());
    lemma_child_index(t.children, names[0]);
    lemma_child_index(t.children, q[0]);
    lemma_grown_label(branch(t, names[0]), names.drop_first());
    if k < t.children.len() {
        assert(g.children == t.children.update(k, sub));
        assert forall|i: int| 0 <= i < j implies (#[trigger] g.children[i]).label != q[0] by {
            assert(t.children[i].label != q[0]);
        }
        lemma_child_index_is(g.children, q[0], j);
    } else {
        assert(g.children == t.children.push(sub));
        if q[0] == names[0] {
            assert forall|i: int| 0 <= i < k implies (#[trigger] g.children[i]).label != q[0] by {
                assert(t.children[i].label != q[0]);
            }
            lemma_child_index_is(g.children, q[0], k);
        } else if j < t.children.len() {
            assert forall|i: int| 0 <= i < j implies (#[trigger] g.children[i]).label != q[0] by {
                assert(t.children[i].label != q[0]);
            }
            lemma_child_index_is(g.children, q[0], j);
        } else {
            assert forall|i: int| 0 <= i < g.children.len() implies (#[trigger] g.children[i]).label
                != q[0] by {
                if i < t.children.len() {
                    assert(t.children[i].label != q[0]);
                }
            }
            lemma_child_index_is(g.children, q[0], g.children.len() as int);
        }
    }
}

/// After a path was added, it leads to a node.
pub proof fn lemma_grown_has_path(t: Shape, names: Seq<Seq<char>>)
    ensures
        has_path(grown(t, names), names),
    decreases names.len(),
{
    if names.len() > 0 {
        lemma_grown_node(t, names, names);
        lemma_grown_has_path(branch(t, names[0]), names.drop_first());
    }
}

/// A path that led to a node leads to one after the tree grew.
pub proof fn lemma_grown_keeps_paths(t: Shape, names: Seq<Seq<char>>, q: Seq<Seq<char>>)
    requires
        has_path(t, q),
    ensures
        has_path(grown(t, names), q),
    decreases names.len(),
{
    if names.len() > 0 && q.len() > 0 {
        lemma_grown_node(t, names, q);
        if q[0] == names[0] {
            lemma_grown_keeps_paths(branch(t, names[0]), names.drop_first(), q.drop_first());
        }
    }
}

/// A path that leads to a node after the tree grew by `names` led to one
/// before, or is a beginning of `names`.
pub proof fn lemma_grown_paths(t: Shape, names: Seq<Seq<char>>, q: Seq<Seq<char>>)
    requires
        has_path(grown(t, names), q),
    ensures
        has_path(t, q) || is_prefix(q, names),
    decreases names.len(),
{
    if names.len() > 0 && q.len() > 0 {
        lemma_grown_node(t, names, q);
        if q[0] == names[0] {
            let b = branch(t, names[0]);
            lemma_grown_paths(b, names.drop_first(), q.drop_first());
            lemma_prefix_step(q, names);
            if !is_prefix(q.drop_first(), names.drop_first()) {
                assert(has_path(b, q.drop_first()));
                let k = child_index(t.children, names[0]);
                if !(0 <= k < t.children.len()) {
                    lemma_leaf_paths(names[0], q.drop_first());
                    assert(names.drop_first().take(0) =~= q.drop_first());
                    assert(is_prefix(q.drop_first(), names.drop_first()));
                }
            }
        }
    } else if q.len() == 0 {
        assert(names.take(0) =~= q);
    }
}

/// Only the empty path leads to a node of a tree of one node.
proof fn lemma_leaf_paths(label: Seq<char>, q: Seq<Seq<char>>)
    requires
        has_path(leaf(label), q),
    ensures
        q.len() == 0,
{
}

/// A path that leads to a node without children after the tree grew by
/// `names` is `names` itself, or led to such a node before.
pub proof fn lemma_grown_leaves(t: Shape, names: Seq<Seq<char>>, q: Seq<Seq<char>>)
    requires
        is_leaf_path(grown(t, names), q),
    ensures
        q == names || is_leaf_path(t, q),
    decreases names.len(),
{
    if names.len() > 0 {
        if q.len() == 0 {
            // the root of the grown tree has a child
            assert(grown(t, names).children.len() > 0);
        } else {
            lemma_grown_node(t, names, q);
            if q[0] == names[0] {
                let b = branch(t, names[0]);
                let rest = names.drop_first();
                lemma_grown_leaves(b, rest, q.drop_first());
                if q.drop_first() == rest {
                    assert(q =~= seq![q[0]] + q.drop_first());
                    assert(names =~= seq![names[0]] + rest);
                    assert(q =~= names);
                } else {
                    let k = child_index(t.children, names[0]);
                    if !(0 <= k < t.children.len()) {
                        lemma_leaf_paths(names[0], q.drop_first());
                        // the new branch has no children only where the path ends
                        assert(is_leaf_path(grown(b, rest), q.drop_first()));
                        if rest.len() > 0 {
                            assert(grown(b, rest).children.len() > 0);
                        }
                        assert(rest.len() == 0);
                        assert(q.drop_first() =~= rest);
                    }
                }
            }
        }
    }
}

/// A path to a node without children still leads to one after the tree grew
/// by `names`, unless it is a proper beginning of `names`.
pub proof fn lemma_grown_keeps_leaves(t: Shape, names: Seq<Seq<char>>, p: Seq<Seq<char>>)
    requires
        is_leaf_path(t, p),
        is_prefix(p, names) ==> p == names,
    ensures
        is_leaf_path(grown(t, names), p),
    decreases names.len(),
{
    if names.len() > 0 {
        if p.len() == 0 {
            assert(names.take(0) =~= p);
        } else {
            lemma_grown_node(t, names, p);
            if p[0] == names[0] {
                lemma_prefix_step(p, names);
                if is_prefix(p.drop_first(), names.drop_first()) {
                    assert(p.drop_first() == names.drop_first());
                }
                lemma_grown_keeps_leaves(branch(t, names[0]), names.drop_first(), p.drop_first());
            }
        }
    }
}

/// The path that was added leads to a node without children, where no path
/// of the tree went on beyond it.
pub proof fn lemma_grown_new_leaf(t: Shape, names: Seq<Seq<char>>)
    requires
        forall|q: Seq<Seq<char>>| #[trigger] has_path(t, q) && is_prefix(names, q) ==> q == names,
    ensures
        is_leaf_path(grown(t, names), names),
    decreases names.len(),
{
    if names.len() == 0 {
        if t.children.len() > 0 {
            let q = seq![t.children[0].label];
            assert(child_index(t.children, q[0]) == 0);
            assert(q.drop_first() =~= Seq::<Seq<char>>::empty());
            assert(node_at(t.children[0], q.drop_first()) is Some);
            assert(has_path(t, q));
            assert(q.take(0) =~= names);
        }
    } else {
        lemma_grown_node(t, names, names);
        let b = branch(t, names[0]);
        let rest = names.drop_first();
        let k = child_index(t.children, names[0]);
        assert forall|q: Seq<Seq<char>>| #[trigger] has_path(b, q) && is_prefix(rest, q) implies q
            == rest by {
            if 0 <= k < t.children.len() {
                let full = seq![names[0]] + q;
                assert(full.drop_first() =~= q);
                assert(has_path(t, full));
                lemma_prefix_step(names, full);
                assert(full == names);
            } else {
                lemma_leaf_paths(names[0], q);
                assert(q.take(rest.len() as int) =~= q);
            }
        }
        lemma_grown_new_leaf(b, rest);
    }
}

/// No two of the trees have the same label.
pub open spec fn distinct_labels(kids: Seq<Shape>) -> bool {
    forall|i: int, j: int|
        0 <= i < j < kids.len() ==> (#[trigger] kids[i]).label != (#[trigger] kids[j]).label
}

/// Whether the tree holds every name once at each level: no node has two
/// children with the same label.
pub open spec fn coalesced(t: Shape) -> bool
    decreases t,
{
    &&& distinct_labels(t.children)
    &&& forall|i: int| 0 <= i < t.children.len() ==> coalesced(#[trigger] t.children[i])
}

/// Adding a path keeps every name once at each level: a path that is there
/// in part shares what is there.
pub proof fn lemma_grown_coalesced(t: Shape, names: Seq<Seq<char>>)
    requires
        coalesced(t),
    ensures
        coalesced(grown(t, names)),
    decreases names.len(),
{
    if names.len() > 0 {
        let g = grown(t, names);
        let k = child_index(t.children, names[0]);
        let b = branch(t, names[0]);
        let sub = grown(b, names.drop_first());
        lemma_child_index(t.children, names[0]);
        lemma_grown_label(b, names.drop_first());
        if k < t.children.len() {
            assert(coalesced(t.children[k]));
        }
        lemma_grown_coalesced(b, names.drop_first());
        assert forall|i: int, j: int| 0 <= i < j < g.children.len() implies (
        #[trigger] g.children[i]).label != (#[trigger] g.children[j]).label by {
            if k < t.children.len() {
                assert(g.children[i].label == t.children[i].label);
                assert(g.children[j].label == t.children[j].label);
            } else if j == k {
                assert(t.children[i].label != names[0]);
            }
        }
        assert forall|i: int| 0 <= i < g.children.len() implies coalesced(
            #[trigger] g.children[i],
        ) by {
            if i != k {
                assert(g.children[i] == t.children[i]);
            }
        }
    }
}

} // verus!
