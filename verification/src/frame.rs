//! The multi-root framer: each root's rendered text is indented and wrapped
//! in a tag named by the root's label, and the blocks are put together under
//! one `context` tag.

use crate::text::{
    chars_of, join, lines, push_range, push_str, rows, split_lines, string_of, texts,
};
use vstd::prelude::*;

verus! {

/// `n` spaces.
pub open spec fn spaces(n: nat) -> Seq<char> {
    Seq::new(n, |i: int| ' ')
}

/// Each line with `n` spaces before it.
pub open spec fn indented_lines(ls: Seq<Seq<char>>, n: nat) -> Seq<Seq<char>> {
    Seq::new(ls.len(), |i: int| spaces(n) + ls[i])
}

/// The lines of `text`, each with `n` spaces before it, with a line feed
/// between each two of them and none at the end.
pub open spec fn indented(text: Seq<char>, n: nat) -> Seq<char> {
    join(indented_lines(lines(text), n), seq!['\n'])
}

/// How far a root's text is indented inside its tag.
pub open spec fn frame_indent() -> nat {
    2
}

/// A root's block: the opening tag, the text indented, the closing tag, each
/// on lines of their own.
pub open spec fn framed(label: Seq<char>, rendered: Seq<char>) -> Seq<char> {
    seq!['<'] + label + seq!['>', '\n'] + indented(rendered, frame_indent()) + seq!['\n', '<', '/']
        + label + seq!['>']
}

/// The blocks under one `context` tag, with an empty line between each two.
pub open spec fn composed(blocks: Seq<Seq<char>>) -> Seq<char> {
    "<context>\n"@ + join(blocks, seq!['\n', '\n']) + "\n</context>"@
}

/// Appends `n` spaces to `out`.
fn push_spaces(out: &mut Vec<char>, n: usize)
    ensures
        final(out)@ == old(out)@ + spaces(n as nat),
{
    let mut i: usize = 0;
    assert(out@ =~= old(out)@ + spaces(0));
    while i < n
        invariant
            i <= n,
            out@ == old(out)@ + spaces(i as nat),
        decreases n - i,
    {
        out.push(' ');
        assert(out@ =~= old(out)@ + spaces((i + 1) as nat));
        i += 1;
    }
}

/// Indents each line of `text` by `count` spaces. The lines are joined with
/// line feeds; a line feed at the end of `text` is not kept.
pub fn indent(text: &str, count: usize) -> (out: String)
    ensures
        out@ == indented(text@, count as nat),
{
    let chars = chars_of(text);
    let out = indent_chars(&chars, count);
    string_of(&out)
}

/// Indents each line of `chars` by `count` spaces.
fn indent_chars(chars: &Vec<char>, count: usize) -> (out: Vec<char>)
    ensures
        out@ == indented(chars@, count as nat),
{
    let ls = split_lines(chars);
    let ghost all = indented_lines(rows(ls@), count as nat);
    let mut out: Vec<char> = Vec::new();
    let mut i: usize = 0;
    proof {
        assert(all.take(0) == Seq::<Seq<char>>::empty());
    }
    while i < ls.len()
        invariant
            i <= ls.len(),
            all == indented_lines(rows(ls@), count as nat),
            out@ == join(all.take(i as int), seq!['\n']),
        decreases ls.len() - i,
    {
        let ghost before = out@;
        if i > 0 {
            out.push('\n');
        }
        push_spaces(&mut out, count);
        push_range(&mut out, &ls[i], 0, ls[i].len());
        proof {
            let next = all.take(i + 1);
            assert(ls@[i as int]@.subrange(0, ls@[i as int]@.len() as int) == ls@[i as int]@);
            assert(next.drop_last() == all.take(i as int));
            assert(next.last() == spaces(count as nat) + ls@[i as int]@);
            if i > 0 {
                assert(out@ =~= before + seq!['\n'] + next.last());
            } else {
                assert(out@ =~= next.last());
                assert(next[0] == next.last());
            }
        }
        i += 1;
    }
    proof {
        assert(all.take(ls.len() as int) == all);
    }
    out
}

/// Wraps the rendered text of one root in the tag of its label:
/// `<label>`, the text indented by two spaces, `</label>`.
pub fn wrap_root(label: &str, rendered: &str) -> (block: String)
    ensures
        block@ == framed(label@, rendered@),
{
    let text = chars_of(rendered);
    let inner = indent_chars(&text, 2);
    let mut out: Vec<char> = Vec::new();
    out.push('<');
    push_str(&mut out, label);
    out.push('>');
    out.push('\n');
    push_range(&mut out, &inner, 0, inner.len());
    out.push('\n');
    out.push('<');
    out.push('/');
    push_str(&mut out, label);
    out.push('>');
    proof {
        assert(inner@.subrange(0, inner.len() as int) == inner@);
        assert(out@ =~= framed(label@, rendered@));
    }
    string_of(&out)
}

/// Puts the blocks of all roots together: `<context>`, the blocks with an
/// empty line between each two, `</context>`.
pub fn compose(blocks: &Vec<String>) -> (out: String)
    ensures
        out@ == composed(texts(blocks@)),
{
    let mut body: Vec<char> = Vec::new();
    let mut i: usize = 0;
    proof {
        assert(texts(blocks@).take(0) == Seq::<Seq<char>>::empty());
    }
    while i < blocks.len()
        invariant
            i <= blocks.len(),
            body@ == join(texts(blocks@).take(i as int), seq!['\n', '\n']),
        decreases blocks.len() - i,
    {
        let ghost before = body@;
        if i > 0 {
            body.push('\n');
            body.push('\n');
        }
        push_str(&mut body, blocks[i].as_str());
        proof {
            let next = texts(blocks@).take(i + 1);
            assert(next.drop_last() == texts(blocks@).take(i as int));
            assert(next.last() == blocks@[i as int]@);
            if i > 0 {
                assert(body@ =~= before + seq!['\n', '\n'] + next.last());
            } else {
                assert(body@ =~= next.last());
                assert(next[0] == next.last());
            }
        }
        i += 1;
    }
    proof {
        assert(texts(blocks@).take(blocks.len() as int) == texts(blocks@));
    }
    let mut out: Vec<char> = Vec::new();
    push_str(&mut out, "<context>\n");
    push_range(&mut out, &body, 0, body.len());
    push_str(&mut out, "\n</context>");
    proof {
        assert(body@.subrange(0, body.len() as int) == body@);
        assert(out@ =~= composed(texts(blocks@)));
    }
    string_of(&out)
}

} // verus!
