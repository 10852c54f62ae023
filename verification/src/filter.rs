//! Glob matching and the decisions built on it: whether a path passes the
//! include patterns, and whether a path is kept under include and exclude
//! patterns with a priority between them.
//!
//! The matching itself is the `glob` crate's. Its outcome is named here, not
//! defined: `glob_compiles` and `glob_matches`.

use crate::text::{chars_of, has_char, texts};
use vstd::prelude::*;

verus! {

/// Whether `glob::Pattern::new` accepts `pattern`.
pub uninterp spec fn glob_compiles(pattern: Seq<char>) -> bool;

/// Whether the pattern that `glob::Pattern::new` makes of `pattern` matches
/// `text` under `glob::Pattern::matches`.
pub uninterp spec fn glob_matches(pattern: Seq<char>, text: Seq<char>) -> bool;

/// A text without a backslash. The `glob` crate treats the backslash as a
/// path separator on some platforms and as an ordinary character on others;
/// of texts that hold none its outcome is the same everywhere.
pub open spec fn portable(s: Seq<char>) -> bool {
    !s.contains('\\')
}

/// A list of texts without a backslash.
pub open spec fn all_portable(list: Seq<Seq<char>>) -> bool {
    forall|i: int| 0 <= i < list.len() ==> portable(#[trigger] list[i])
}

/// A list of patterns that `glob::Pattern::new` accepts.
pub open spec fn all_compile(patterns: Seq<Seq<char>>) -> bool {
    forall|i: int| 0 <= i < patterns.len() ==> glob_compiles(#[trigger] patterns[i])
}

/// Compiles `pattern` with `glob::Pattern::new` and matches `text` against it
/// with `glob::Pattern::matches`: `None` where the pattern does not compile.
/// For a pattern and a text without a backslash the outcome is what the two
/// names say; of other inputs nothing is claimed.
#[verifier::external_body]
fn glob_match(pattern: &str, text: &str) -> (m: Option<bool>)
    ensures
        portable(pattern@) && portable(text@) ==> m == (if glob_compiles(pattern@) {
            Some(glob_matches(pattern@, text@))
        } else {
            None::<bool>
        }),
{
    match glob::Pattern::new(pattern) {
        Ok(compiled) => Some(compiled.matches(text)),
        Err(_) => None,
    }
}

/// Whether `s` holds no backslash.
pub fn is_portable(s: &str) -> (r: bool)
    ensures
        r == portable(s@),
{
    let chars = chars_of(s);
    !has_char(&chars, '\\')
}

/// Whether no text of `list` holds a backslash.
pub fn are_portable(list: &Vec<String>) -> (r: bool)
    ensures
        r == all_portable(texts(list@)),
{
    let mut i: usize = 0;
    while i < list.len()
        invariant
            i <= list.len(),
            forall|k: int| 0 <= k < i ==> portable(#[trigger] texts(list@)[k]),
        decreases list.len() - i,
    {
        if !is_portable(list[i].as_str()) {
            assert(!portable(texts(list@)[i as int]));
            return false;
        }
        i += 1;
    }
    true
}

/// Whether `pattern` is a glob pattern that compiles.
pub fn compiles(pattern: &str) -> (r: bool)
    ensures
        portable(pattern@) ==> r == glob_compiles(pattern@),
{
    proof {
        assert(portable(""@)) by {
            reveal_strlit("");
        }
    }
    glob_match(pattern, "").is_some()
}

/// A list of patterns of which those without a backslash compile.
pub open spec fn compile_if_portable(patterns: Seq<Seq<char>>) -> bool {
    forall|i: int|
        0 <= i < patterns.len() && portable(#[trigger] patterns[i]) ==> glob_compiles(patterns[i])
}

/// Whether every pattern of `patterns` compiles.
pub fn all_patterns_compile(patterns: &Vec<String>) -> (r: bool)
    ensures
        all_portable(texts(patterns@)) ==> r == all_compile(texts(patterns@)),
        r ==> compile_if_portable(texts(patterns@)),
{
    let mut i: usize = 0;
    while i < patterns.len()
        invariant
            i <= patterns.len(),
            forall|k: int|
                0 <= k < i && portable(#[trigger] texts(patterns@)[k]) ==> glob_compiles(
                    texts(patterns@)[k],
                ),
        decreases patterns.len() - i,
    {
        if !compiles(patterns[i].as_str()) {
            proof {
                if all_portable(texts(patterns@)) {
                    assert(portable(texts(patterns@)[i as int]));
                    assert(!glob_compiles(texts(patterns@)[i as int]));
                }
            }
            return false;
        }
        i += 1;
    }
    proof {
        if all_portable(texts(patterns@)) {
            assert forall|k: int| 0 <= k < patterns.len() implies glob_compiles(
                #[trigger] texts(patterns@)[k],
            ) by {
                assert(portable(texts(patterns@)[k]));
            }
        }
    }
    true
}

/// Some pattern of the list matches `text`.
pub open spec fn any_match(patterns: Seq<Seq<char>>, text: Seq<char>) -> bool {
    exists|i: int| 0 <= i < patterns.len() && glob_matches(#[trigger] patterns[i], text)
}

/// Whether some pattern of `patterns` matches `text`. A pattern that does
/// not compile matches nothing.
pub fn matches_any(patterns: &Vec<String>, text: &str) -> (r: bool)
    ensures
        portable(text@) && all_portable(texts(patterns@)) && all_compile(texts(patterns@)) ==> r
            == any_match(texts(patterns@), text@),
{
    let mut i: usize = 0;
    while i < patterns.len()
        invariant
            i <= patterns.len(),
            portable(text@) && all_portable(texts(patterns@)) && all_compile(texts(patterns@))
                ==> forall|k: int|
                0 <= k < i ==> !glob_matches(#[trigger] texts(patterns@)[k], text@),
        decreases patterns.len() - i,
    {
        proof {
            if all_portable(texts(patterns@)) && all_compile(texts(patterns@)) {
                assert(portable(texts(patterns@)[i as int]));
                assert(glob_compiles(texts(patterns@)[i as int]));
            }
        }
        match glob_match(patterns[i].as_str(), text) {
            Some(true) => {
                proof {
                    if portable(text@) && all_portable(texts(patterns@)) && all_compile(
                        texts(patterns@),
                    ) {
                        assert(glob_matches(texts(patterns@)[i as int], text@));
                    }
                }
                return true;
            },
            _ => {},
        }
        i += 1;
    }
    false
}

/// Whether a path is kept, given what matched it. A path that an ignore
/// pattern matches is dropped. Else the include and the exclude patterns
/// decide: matched by both, the priority decides; by one of them, that one;
/// by neither, the path is kept only where there are no include patterns at
/// all.
pub open spec fn keep_decision(
    ignored: bool,
    included: bool,
    excluded: bool,
    include_priority: bool,
    no_includes: bool,
) -> bool {
    if ignored {
        false
    } else if included && excluded {
        include_priority
    } else if included {
        true
    } else if excluded {
        false
    } else {
        no_includes
    }
}

/// Decides whether a path is kept, given whether an ignore pattern, an
/// include pattern and an exclude pattern matched it, the priority, and
/// whether there are no include patterns.
pub fn decide(
    ignored: bool,
    included: bool,
    excluded: bool,
    include_priority: bool,
    no_includes: bool,
) -> (keep: bool)
    ensures
        keep == keep_decision(ignored, included, excluded, include_priority, no_includes),
{
    if ignored {
        false
    } else if included && excluded {
        include_priority
    } else if included {
        true
    } else if excluded {
        false
    } else {
        no_includes
    }
}

/// Whether a path is kept under the three lists of patterns.
pub open spec fn include_decision(
    path: Seq<char>,
    includes: Seq<Seq<char>>,
    excludes: Seq<Seq<char>>,
    include_priority: bool,
    ignored: Seq<Seq<char>>,
) -> bool {
    keep_decision(
        any_match(ignored, path),
        any_match(includes, path),
        any_match(excludes, path),
        include_priority,
        includes.len() == 0,
    )
}

/// The inputs of which `glob_compiles` and `glob_matches` speak: no text
/// holds a backslash, and every pattern compiles.
pub open spec fn decidable(
    path: Seq<char>,
    includes: Seq<Seq<char>>,
    excludes: Seq<Seq<char>>,
    ignored: Seq<Seq<char>>,
) -> bool {
    &&& portable(path)
    &&& all_portable(includes)
    &&& all_portable(excludes)
    &&& all_portable(ignored)
    &&& all_compile(includes)
    &&& all_compile(excludes)
    &&& all_compile(ignored)
}

/// Whether no text holds a backslash.
pub open spec fn all_texts_portable(
    path: Seq<char>,
    includes: Seq<Seq<char>>,
    excludes: Seq<Seq<char>>,
    ignored: Seq<Seq<char>>,
) -> bool {
    &&& portable(path)
    &&& all_portable(includes)
    &&& all_portable(excludes)
    &&& all_portable(ignored)
}

/// Decides whether the file at `path`, given in its canonical form, is kept
/// under the three lists of glob patterns. Every pattern must compile; that
/// is asked here of the patterns without a backslash, of which alone the
/// names speak. Where no text holds a backslash, the decision is the one
/// over what the names say of the three lists; else it is the decision
/// (`decide`) over what the matcher finds on this platform.
pub fn should_include_file(
    path: &str,
    include_patterns: &Vec<String>,
    exclude_patterns: &Vec<String>,
    include_priority: bool,
    c2pignore_patterns: &Vec<String>,
) -> (keep: bool)
    requires
        compile_if_portable(texts(include_patterns@)),
        compile_if_portable(texts(exclude_patterns@)),
        compile_if_portable(texts(c2pignore_patterns@)),
    ensures
        all_texts_portable(
            path@,
            texts(include_patterns@),
            texts(exclude_patterns@),
            texts(c2pignore_patterns@),
        ) ==> keep == include_decision(
            path@,
            texts(include_patterns@),
            texts(exclude_patterns@),
            include_priority,
            texts(c2pignore_patterns@),
        ),
{
    proof {
        lemma_portable_compile(texts(include_patterns@));
        lemma_portable_compile(texts(exclude_patterns@));
        lemma_portable_compile(texts(c2pignore_patterns@));
    }
    decide(
        matches_any(c2pignore_patterns, path),
        matches_any(include_patterns, path),
        matches_any(exclude_patterns, path),
        include_priority,
        include_patterns.len() == 0,
    )
}

/// Decides as `should_include_file` does where every pattern compiles, and
/// hands back `None` where one does not.
pub fn try_should_include_file(
    path: &str,
    include_patterns: &Vec<String>,
    exclude_patterns: &Vec<String>,
    include_priority: bool,
    c2pignore_patterns: &Vec<String>,
) -> (keep: Option<bool>)
    ensures
        portable(path@) && all_portable(texts(include_patterns@)) && all_portable(
            texts(exclude_patterns@),
        ) && all_portable(texts(c2pignore_patterns@)) ==> keep == (if decidable(
            path@,
            texts(include_patterns@),
            texts(exclude_patterns@),
            texts(c2pignore_patterns@),
        ) {
            Some(
                include_decision(
                    path@,
                    texts(include_patterns@),
                    texts(exclude_patterns@),
                    include_priority,
                    texts(c2pignore_patterns@),
                ),
            )
        } else {
            None::<bool>
        }),
{
    if !all_patterns_compile(include_patterns) || !all_patterns_compile(exclude_patterns)
        || !all_patterns_compile(c2pignore_patterns) {
        return None;
    }
    proof {
        lemma_portable_compile(texts(include_patterns@));
        lemma_portable_compile(texts(exclude_patterns@));
        lemma_portable_compile(texts(c2pignore_patterns@));
    }
    Some(
        should_include_file(
            path,
            include_patterns,
            exclude_patterns,
            include_priority,
            c2pignore_patterns,
        ),
    )
}

/// Patterns without a backslash, of which those without one compile, all
/// compile.
proof fn lemma_portable_compile(patterns: Seq<Seq<char>>)
    requires
        compile_if_portable(patterns),
    ensures
        all_portable(patterns) ==> all_compile(patterns),
{
    if all_portable(patterns) {
        assert forall|i: int| 0 <= i < patterns.len() implies glob_compiles(
            #[trigger] patterns[i],
        ) by {
            assert(portable(patterns[i]));
        }
    }
}

/// Whether `pattern` lets `text` pass as an include pattern: it matches, or
/// it does not compile, in which case it stands for `*` and lets all pass.
pub open spec fn accepts(pattern: Seq<char>, text: Seq<char>) -> bool {
    !glob_compiles(pattern) || glob_matches(pattern, text)
}

/// Whether `text` passes the include patterns: there are none, or one of
/// them accepts it.
pub open spec fn passes_include(patterns: Seq<Seq<char>>, text: Seq<char>) -> bool {
    patterns.len() == 0 || exists|i: int|
        0 <= i < patterns.len() && accepts(#[trigger] patterns[i], text)
}

/// What may come of matching `text` against the include patterns: where no
/// text holds a backslash, whether it passes; else either answer.
pub open spec fn include_outcome(patterns: Seq<Seq<char>>, text: Seq<char>, passed: bool) -> bool {
    portable(text) && all_portable(patterns) ==> passed == passes_include(patterns, text)
}

/// Whether `text` passes the include patterns `patterns`.
pub fn passes(patterns: &Vec<String>, text: &str) -> (r: bool)
    ensures
        include_outcome(texts(patterns@), text@, r),
        patterns.len() == 0 ==> r,
{
    if patterns.len() == 0 {
        return true;
    }
    let mut i: usize = 0;
    while i < patterns.len()
        invariant
            i <= patterns.len(),
            portable(text@) && all_portable(texts(patterns@)) ==> forall|k: int|
                0 <= k < i ==> !accepts(#[trigger] texts(patterns@)[k], text@),
        decreases patterns.len() - i,
    {
        proof {
            if all_portable(texts(patterns@)) {
                assert(portable(texts(patterns@)[i as int]));
            }
        }
        match glob_match(patterns[i].as_str(), text) {
            Some(false) => {},
            _ => {
                assert(portable(text@) && all_portable(texts(patterns@)) ==> accepts(
                    texts(patterns@)[i as int],
                    text@,
                ));
                return true;
            },
        }
        i += 1;
    }
    false
}

} // verus!
