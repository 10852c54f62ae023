//! What goes to the clipboard and what comes from it: the text to set when
//! appending, and the paths named by a text that was read.

use crate::text::{chars_of, push_str, rows, split_whitespace, string_of, texts, words};
use vstd::prelude::*;

verus! {

/// What stands between the old content of the clipboard and the new one.
pub open spec fn separator() -> Seq<char> {
    "\n\n----------\n\n"@
}

/// The text to put on the clipboard: the rendered text, after the old
/// content and the separator where appending is asked for and there is old
/// content.
pub open spec fn clipboard_text(existing: Option<Seq<char>>, rendered: Seq<char>, append: bool)
    -> Seq<char> {
    match existing {
        Some(old_text) if append => old_text + separator() + rendered,
        _ => rendered,
    }
}

/// The text to put on the clipboard. `existing` is what the clipboard held,
/// where it could be read.
pub fn clipboard_content(existing: Option<&str>, rendered: &str, append: bool) -> (content: String)
    ensures
        content@ == clipboard_text(
            match existing {
                Some(e) => Some(e@),
                None => None,
            },
            rendered@,
            append,
        ),
{
    let mut out: Vec<char> = Vec::new();
    if append {
        match existing {
            Some(old_text) => {
                push_str(&mut out, old_text);
                push_str(&mut out, "\n\n----------\n\n");
            },
            None => {},
        }
    }
    push_str(&mut out, rendered);
    string_of(&out)
}

/// Why no path came from the clipboard.
#[derive(Debug, PartialEq, Eq, Clone, Copy)]
pub enum ClipboardError {
    /// No word of the text is an existing path.
    NoValidPaths,
}

impl ClipboardError {
    /// The message for the user.
    pub fn message(&self) -> (text: String)
        ensures
            text@ == "No valid paths found in clipboard"@,
    {
        String::from_str("No valid paths found in clipboard")
    }
}

/// The words of a text read from the clipboard, each of which may be a path:
/// the text is split at whitespace.
pub fn parse_paths_from_clipboard(content: &str) -> (candidates: Vec<String>)
    ensures
        texts(candidates@) == words(content@),
{
    let chars = chars_of(content);
    let pieces = split_whitespace(&chars);
    let mut out: Vec<String> = Vec::new();
    let mut i: usize = 0;
    while i < pieces.len()
        invariant
            i <= pieces.len(),
            texts(out@) == rows(pieces@).take(i as int),
        decreases pieces.len() - i,
    {
        let ghost before = texts(out@);
        out.push(string_of(&pieces[i]));
        proof {
            assert(texts(out@) =~= before.push(pieces@[i as int]@));
            assert(rows(pieces@).take(i + 1) =~= rows(pieces@).take(i as int).push(
                pieces@[i as int]@,
            ));
        }
        i += 1;
    }
    assert(rows(pieces@).take(pieces.len() as int) == rows(pieces@));
    out
}

/// The candidates that exist, in order.
pub open spec fn existing(candidates: Seq<Seq<char>>, exists: Seq<bool>) -> Seq<Seq<char>>
    decreases candidates.len(),
{
    if candidates.len() == 0 || exists.len() != candidates.len() {
        Seq::empty()
    } else if exists.last() {
        existing(candidates.drop_last(), exists.drop_last()).push(candidates.last())
    } else {
        existing(candidates.drop_last(), exists.drop_last())
    }
}

/// Keeps the candidates that exist, as `exists` says of each in turn, and
/// fails where none is left.
pub fn keep_existing(candidates: &Vec<String>, exists: &Vec<bool>) -> (paths: Result<
    Vec<String>,
    ClipboardError,
>)
    requires
        exists.len() == candidates.len(),
    ensures
        match paths {
            Ok(kept) => kept.len() > 0 && texts(kept@) == existing(texts(candidates@), exists@),
            Err(e) => e == ClipboardError::NoValidPaths && existing(
                texts(candidates@),
                exists@,
            ).len() == 0,
        },
{
    let mut kept: Vec<String> = Vec::new();
    let mut i: usize = 0;
    proof {
        assert(texts(candidates@).take(0) == Seq::<Seq<char>>::empty());
    }
    while i < candidates.len()
        invariant
            i <= candidates.len(),
            exists.len() == candidates.len(),
            texts(kept@) == existing(texts(candidates@).take(i as int), exists@.take(i as int)),
        decreases candidates.len() - i,
    {
        proof {
            let next = texts(candidates@).take(i + 1);
            assert(next.drop_last() == texts(candidates@).take(i as int));
            assert(exists@.take(i + 1).drop_last() == exists@.take(i as int));
            assert(next.last() == candidates@[i as int]@);
        }
        if exists[i] {
            let ghost before = texts(kept@);
            kept.push(candidates[i].clone());
            assert(texts(kept@) =~= before.push(candidates@[i as int]@));
        }
        i += 1;
    }
    proof {
        assert(texts(candidates@).take(candidates.len() as int) == texts(candidates@));
        assert(exists@.take(exists.len() as int) == exists@);
    }
    if kept.len() == 0 {
        Err(ClipboardError::NoValidPaths)
    } else {
        Ok(kept)
    }
}

} // verus!
