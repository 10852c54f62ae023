//! Paths as texts. A path is a list of names separated by `/`; empty
//! segments and `.` segments are no names, and `..` is the name of the
//! parent directory.

use crate::text::{chars_of, rows, same_chars, split, split_on, string_of, string_of_range};
use vstd::prelude::*;

verus! {

/// A segment that names something: it is neither empty nor `.`.
pub open spec fn is_name(segment: Seq<char>) -> bool {
    segment.len() > 0 && segment != seq!['.']
}

/// The name of the parent directory.
pub open spec fn parent_name() -> Seq<char> {
    seq!['.', '.']
}

/// Whether `segment` is selected: it is a name, and, unless `with_parent`,
/// not the name of the parent directory.
pub open spec fn selected(segment: Seq<char>, with_parent: bool) -> bool {
    is_name(segment) && (with_parent || segment != parent_name())
}

/// The selected segments, in order.
pub open spec fn select(segments: Seq<Seq<char>>, with_parent: bool) -> Seq<Seq<char>>
    decreases segments.len(),
{
    if segments.len() == 0 {
        Seq::empty()
    } else if selected(segments.last(), with_parent) {
        select(segments.drop_last(), with_parent).push(segments.last())
    } else {
        select(segments.drop_last(), with_parent)
    }
}

/// The names of a path, `..` included.
pub open spec fn parts(path: Seq<char>) -> Seq<Seq<char>> {
    select(split_on(path, '/'), true)
}

/// The names of a path under which it is put into a tree: those that name a
/// file or a directory.
pub open spec fn tree_names(path: Seq<char>) -> Seq<Seq<char>> {
    select(split_on(path, '/'), false)
}

/// The number of components of a path: its names, one more for the root of
/// an absolute path, and one more where a relative path starts with `.`.
pub open spec fn depth_of(path: Seq<char>) -> nat {
    let rooted = path.len() > 0 && path[0] == '/';
    let dotted = !rooted && split_on(path, '/')[0] == seq!['.'];
    parts(path).len() + (if rooted || dotted {
        1nat
    } else {
        0nat
    })
}

/// The last name of a path, if it has one and it is not `..`.
pub open spec fn file_name_of(path: Seq<char>) -> Option<Seq<char>> {
    let names = parts(path);
    if names.len() == 0 || names.last() == parent_name() {
        None
    } else {
        Some(names.last())
    }
}

/// The position of the last `c` in `s`, or -1.
pub open spec fn last_index(s: Seq<char>, c: char) -> int
    decreases s.len(),
{
    if s.len() == 0 {
        -1
    } else if s.last() == c {
        s.len() - 1
    } else {
        last_index(s.drop_last(), c)
    }
}

/// The extension of a file name: what follows its last dot, unless the name
/// has no dot or only the one it starts with.
pub open spec fn extension_of_name(name: Seq<char>) -> Seq<char> {
    let k = last_index(name, '.');
    if k <= 0 {
        Seq::empty()
    } else {
        name.skip(k + 1)
    }
}

/// The extension of a path: that of its file name, or nothing.
pub open spec fn extension_of(path: Seq<char>) -> Seq<char> {
    match file_name_of(path) {
        Some(name) => extension_of_name(name),
        None => Seq::empty(),
    }
}

/// The label of a root: its file name; for a path without one, the file name
/// of the working directory; and `.` where that has none either.
pub open spec fn label_of(path: Seq<char>, current_dir: Seq<char>) -> Seq<char> {
    match file_name_of(path) {
        Some(name) => name,
        None => match file_name_of(current_dir) {
            Some(name) => name,
            None => seq!['.'],
        },
    }
}

/// Segments that are not selected after the first `n` do not count.
pub proof fn lemma_select_take(segments: Seq<Seq<char>>, with_parent: bool, n: int)
    requires
        0 <= n <= segments.len(),
        forall|j: int| n <= j < segments.len() ==> !selected(#[trigger] segments[j], with_parent),
    ensures
        select(segments, with_parent) == select(segments.take(n), with_parent),
    decreases segments.len() - n,
{
    if n == segments.len() {
        assert(segments.take(n) == segments);
    } else {
        lemma_select_take(segments.drop_last(), with_parent, n);
        assert(segments.drop_last().take(n) == segments.take(n));
    }
}

/// Whether the characters are a name.
fn names_something(segment: &Vec<char>) -> (r: bool)
    ensures
        r == is_name(segment@),
{
    if segment.len() == 0 {
        false
    } else if segment.len() == 1 && segment[0] == '.' {
        assert(segment@ =~= seq!['.']);
        false
    } else {
        assert(segment@ != seq!['.']) by {
            if segment@.len() == 1 {
                assert(seq!['.'][0] == '.');
            }
        }
        true
    }
}

/// Whether the characters are `..`.
fn names_parent(segment: &Vec<char>) -> (r: bool)
    ensures
        r == (segment@ == parent_name()),
{
    if segment.len() == 2 && segment[0] == '.' && segment[1] == '.' {
        assert(segment@ =~= parent_name());
        true
    } else {
        assert(segment@ != parent_name()) by {
            if segment@.len() == 2 {
                assert(parent_name()[0] == '.');
                assert(parent_name()[1] == '.');
            }
        }
        false
    }
}

/// The names of `path`, in order; those of the parent directory only where
/// `with_parent` is set.
pub fn path_names(path: &str, with_parent: bool) -> (names: Vec<String>)
    ensures
        crate::text::texts(names@) == select(split_on(path@, '/'), with_parent),
{
    let chars = chars_of(path);
    let segments = split(&chars, '/');
    let mut names: Vec<String> = Vec::new();
    let mut i: usize = 0;
    proof {
        assert(rows(segments@).take(0) == Seq::<Seq<char>>::empty());
        assert(crate::text::texts(names@) == select(rows(segments@).take(0), with_parent));
    }
    while i < segments.len()
        invariant
            i <= segments.len(),
            crate::text::texts(names@) == select(rows(segments@).take(i as int), with_parent),
        decreases segments.len() - i,
    {
        proof {
            let next = rows(segments@).take(i + 1);
            assert(next.drop_last() == rows(segments@).take(i as int));
            assert(next.last() == segments@[i as int]@);
        }
        if names_something(&segments[i]) && (with_parent || !names_parent(&segments[i])) {
            let ghost before = crate::text::texts(names@);
            names.push(string_of(&segments[i]));
            assert(crate::text::texts(names@) == before.push(segments@[i as int]@));
        }
        i += 1;
    }
    proof {
        assert(rows(segments@).take(segments.len() as int) == rows(segments@));
    }
    names
}

/// The number of components of `path`.
pub fn depth(path: &str) -> (d: usize)
    ensures
        d == depth_of(path@),
{
    let chars = chars_of(path);
    let segments = split(&chars, '/');
    let mut count: usize = 0;
    let mut i: usize = 0;
    proof {
        assert(rows(segments@).take(0) == Seq::<Seq<char>>::empty());
        crate::text::lemma_first_index(path@, '/');
    }
    assert(segments.len() > 0) by {
        assert(split_on(path@, '/').len() > 0);
        assert(rows(segments@).len() == segments.len());
    }
    while i < segments.len()
        invariant
            i <= segments.len(),
            count <= i,
            count == select(rows(segments@).take(i as int), true).len(),
        decreases segments.len() - i,
    {
        proof {
            let next = rows(segments@).take(i + 1);
            assert(next.drop_last() == rows(segments@).take(i as int));
            assert(next.last() == segments@[i as int]@);
        }
        if names_something(&segments[i]) {
            count += 1;
        }
        i += 1;
    }
    proof {
        assert(rows(segments@).take(segments.len() as int) == rows(segments@));
        assert(rows(segments@)[0] == segments@[0]@);
    }
    let rooted = chars.len() > 0 && chars[0] == '/';
    let dotted = !rooted && segments[0].len() == 1 && segments[0][0] == '.';
    proof {
        if dotted {
            assert(segments@[0]@ =~= seq!['.']);
        } else if !rooted {
            assert(segments@[0]@ != seq!['.']) by {
                if segments@[0]@.len() == 1 {
                    assert(seq!['.'][0] == '.');
                }
            }
        }
        if rooted {
            // the segment before the first `/` is empty, so one segment is no name
            assert(crate::text::first_index(path@, '/') == 0);
            assert(rows(segments@)[0] =~= Seq::<char>::empty());
            lemma_select_len(rows(segments@), true, 0);
        } else if dotted {
            lemma_select_len(rows(segments@), true, 0);
        }
    }
    if rooted || dotted {
        count + 1
    } else {
        count
    }
}

/// A segment that is not selected leaves room for one more.
pub proof fn lemma_select_len(segments: Seq<Seq<char>>, with_parent: bool, k: int)
    requires
        0 <= k < segments.len(),
        !selected(segments[k], with_parent),
    ensures
        select(segments, with_parent).len() < segments.len(),
    decreases segments.len(),
{
    lemma_select_bound(segments.drop_last(), with_parent);
    if k < segments.len() - 1 {
        lemma_select_len(segments.drop_last(), with_parent, k);
    }
}

/// No more segments are selected than there are.
pub proof fn lemma_select_bound(segments: Seq<Seq<char>>, with_parent: bool)
    ensures
        select(segments, with_parent).len() <= segments.len(),
    decreases segments.len(),
{
    if segments.len() > 0 {
        lemma_select_bound(segments.drop_last(), with_parent);
    }
}

/// The last name of `path`, unless it has none or ends in `..`.
pub fn file_name(path: &str) -> (name: Option<String>)
    ensures
        match name {
            Some(n) => file_name_of(path@) == Some(n@),
            None => file_name_of(path@) is None,
        },
{
    let chars = chars_of(path);
    let segments = split(&chars, '/');
    let mut i: usize = segments.len();
    while i > 0 && !names_something(&segments[i - 1])
        invariant
            i <= segments.len(),
            forall|j: int| i <= j < segments.len() ==> !is_name(#[trigger] rows(segments@)[j]),
        decreases i,
    {
        i -= 1;
    }
    proof {
        lemma_select_take(rows(segments@), true, i as int);
        if i > 0 {
            let head = rows(segments@).take(i as int);
            assert(head.last() == segments@[i - 1]@);
        } else {
            assert(rows(segments@).take(0) == Seq::<Seq<char>>::empty());
        }
    }
    if i == 0 || names_parent(&segments[i - 1]) {
        None
    } else {
        Some(string_of(&segments[i - 1]))
    }
}

/// A position that holds `c`, with no `c` after it, is `last_index`; so is
/// -1 where `c` does not occur.
pub proof fn lemma_last_index_is(s: Seq<char>, c: char, k: int)
    requires
        -1 <= k < s.len(),
        forall|j: int| k < j < s.len() ==> s[j] != c,
        k >= 0 ==> s[k] == c,
    ensures
        last_index(s, c) == k,
    decreases s.len(),
{
    if s.len() > 0 && k < s.len() - 1 {
        lemma_last_index_is(s.drop_last(), c, k);
    }
}

/// The extension of the file name `name`.
pub fn name_extension(name: &str) -> (ext: String)
    ensures
        ext@ == extension_of_name(name@),
{
    let chars = chars_of(name);
    let mut k: usize = chars.len();
    while k > 0 && chars[k - 1] != '.'
        invariant
            k <= chars.len(),
            forall|j: int| k <= j < chars.len() ==> chars@[j] != '.',
        decreases k,
    {
        k -= 1;
    }
    proof {
        lemma_last_index_is(chars@, '.', k - 1);
    }
    if k <= 1 {
        String::new()
    } else {
        proof {
            assert(chars@.skip(k as int) == chars@.subrange(k as int, chars.len() as int));
        }
        string_of_range(&chars, k, chars.len())
    }
}

/// The extension of `path`: what follows the last dot of its file name, or
/// nothing where there is no file name, no dot, or only a leading one.
pub fn extension(path: &str) -> (ext: String)
    ensures
        ext@ == extension_of(path@),
{
    match file_name(path) {
        Some(name) => name_extension(name.as_str()),
        None => String::new(),
    }
}

/// The display name of a root: the file name of `path`, or, where it has
/// none (as `.` and `/`), that of the working directory `current_dir`, or
/// `.` at last.
pub fn label(path: &str, current_dir: &str) -> (name: String)
    ensures
        name@ == label_of(path@, current_dir@),
{
    match file_name(path) {
        Some(name) => name,
        None => match file_name(current_dir) {
            Some(name) => name,
            None => {
                let mut dot = String::new();
                dot.push('.');
                assert(dot@ =~= seq!['.']);
                dot
            },
        },
    }
}

/// A text made of two texts with a `sep` between them splits into the
/// pieces of the first followed by the pieces of the second.
pub proof fn lemma_split_joined(a: Seq<char>, b: Seq<char>, sep: char)
    ensures
        split_on(a + seq![sep] + b, sep) == split_on(a, sep) + split_on(b, sep),
    decreases a.len(),
{
    let whole = a + seq![sep] + b;
    let k = crate::text::first_index(a, sep);
    crate::text::lemma_first_index(a, sep);
    assert forall|i: int| 0 <= i < k implies whole[i] != sep by {
        assert(whole[i] == a[i]);
    }
    if k == a.len() {
        assert(whole[k] == sep);
        crate::text::lemma_first_index_is(whole, sep, k);
        assert(whole.take(k) =~= a);
        assert(whole.skip(k + 1) =~= b);
        assert(split_on(a, sep) == seq![a]);
    } else {
        assert(whole[k] == a[k]);
        crate::text::lemma_first_index_is(whole, sep, k);
        assert(whole.take(k) =~= a.take(k));
        assert(whole.skip(k + 1) =~= a.skip(k + 1) + seq![sep] + b);
        lemma_split_joined(a.skip(k + 1), b, sep);
        assert(seq![a.take(k)] + (split_on(a.skip(k + 1), sep) + split_on(b, sep)) =~= (seq![
            a.take(k),
        ] + split_on(a.skip(k + 1), sep)) + split_on(b, sep));
    }
}

/// The segments selected from two lists are those of the first followed by
/// those of the second.
pub proof fn lemma_select_joined(x: Seq<Seq<char>>, y: Seq<Seq<char>>, with_parent: bool)
    ensures
        select(x + y, with_parent) == select(x, with_parent) + select(y, with_parent),
    decreases y.len(),
{
    if y.len() == 0 {
        assert(x + y =~= x);
        assert(select(x, with_parent) + select(y, with_parent) =~= select(x, with_parent));
    } else {
        lemma_select_joined(x, y.drop_last(), with_parent);
        assert((x + y).drop_last() =~= x + y.drop_last());
        assert((x + y).last() == y.last());
        if selected(y.last(), with_parent) {
            assert((select(x, with_parent) + select(y.drop_last(), with_parent)).push(y.last())
                =~= select(x, with_parent) + select(y.drop_last(), with_parent).push(y.last()));
        }
    }
}

/// The label of a path does not change when the path is written out below
/// the working directory.
pub proof fn lemma_label_below_working_directory(path: Seq<char>, current_dir: Seq<char>)
    ensures
        label_of(current_dir + seq!['/'] + path, current_dir) == label_of(path, current_dir),
{
    let full = current_dir + seq!['/'] + path;
    lemma_split_joined(current_dir, path, '/');
    lemma_select_joined(split_on(current_dir, '/'), split_on(path, '/'), true);
    assert(parts(full) == parts(current_dir) + parts(path));
    if parts(path).len() > 0 {
        assert(parts(full).last() == parts(path).last());
    } else {
        assert(parts(full) =~= parts(current_dir));
    }
}

} // verus!
