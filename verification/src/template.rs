//! The template binder: which variables a template asks for that the context
//! does not define, how the answers enter the context, and how the context
//! is rendered through a template.

use crate::text::{
    chars_of, is_space, is_whitespace, lemma_trim_idempotent, same_chars, string_of,
    string_of_range, texts,
};
use crate::walk::{records, FileRecord, Record};
use vstd::prelude::*;

verus! {

/// A character with which a variable's name may start.
pub open spec fn is_ident_start(c: char) -> bool {
    ('a' <= c <= 'z') || ('A' <= c <= 'Z') || c == '_'
}

/// A character that may stand in a variable's name.
pub open spec fn is_ident_char(c: char) -> bool {
    is_ident_start(c) || ('0' <= c <= '9')
}

/// The end of the whitespace that starts at `i`.
pub open spec fn space_end(s: Seq<char>, i: int) -> int
    decreases s.len() - i,
{
    if 0 <= i < s.len() && is_space(s[i]) {
        space_end(s, i + 1)
    } else {
        i
    }
}

/// The end of the name characters that start at `i`.
pub open spec fn ident_end(s: Seq<char>, i: int) -> int
    decreases s.len() - i,
{
    if 0 <= i < s.len() && is_ident_char(s[i]) {
        ident_end(s, i + 1)
    } else {
        i
    }
}

/// The variable that is written at `i`, with the position after it: two
/// opening braces, whitespace, a name, whitespace, two closing braces.
pub open spec fn variable_at(s: Seq<char>, i: int) -> Option<(Seq<char>, int)> {
    if 0 <= i && i + 2 <= s.len() && s[i] == '{' && s[i + 1] == '{' {
        let a = space_end(s, i + 2);
        if 0 <= a < s.len() && is_ident_start(s[a]) {
            let b = ident_end(s, a);
            let c = space_end(s, b);
            if a < b <= c && c + 2 <= s.len() && s[c] == '}' && s[c + 1] == '}' {
                Some((s.subrange(a, b), c + 2))
            } else {
                None
            }
        } else {
            None
        }
    } else {
        None
    }
}

/// The names that the template engine and the file list fill in themselves.
pub open spec fn reserved(name: Seq<char>) -> bool {
    name == "path"@ || name == "code"@ || name == "git_diff"@
}

/// The names of the variables written in `s` from `i` on, in order and as
/// often as they are written, without the reserved ones. The text is read
/// from left to right, and after a variable reading goes on behind it.
pub open spec fn variables_from(s: Seq<char>, i: int) -> Seq<Seq<char>>
    decreases s.len() - i,
{
    if i < 0 || i >= s.len() {
        Seq::empty()
    } else {
        match variable_at(s, i) {
            Some((name, end)) => {
                if end <= i {
                    Seq::empty()
                } else if reserved(name) {
                    variables_from(s, end)
                } else {
                    seq![name] + variables_from(s, end)
                }
            },
            None => variables_from(s, i + 1),
        }
    }
}

/// The names of the variables written in a template.
pub open spec fn variables(template: Seq<char>) -> Seq<Seq<char>> {
    variables_from(template, 0)
}

/// The end of the whitespace of `v` that starts at `i`.
fn skip_spaces(v: &Vec<char>, i: usize) -> (end: usize)
    requires
        i <= v.len(),
    ensures
        i <= end <= v.len(),
        end == space_end(v@, i as int),
{
    let mut k: usize = i;
    while k < v.len() && is_whitespace(v[k])
        invariant
            i <= k <= v.len(),
            space_end(v@, i as int) == space_end(v@, k as int),
        decreases v.len() - k,
    {
        k += 1;
    }
    k
}

/// Whether a name may start with `c`.
fn starts_ident(c: char) -> (r: bool)
    ensures
        r == is_ident_start(c),
{
    ('a' <= c && c <= 'z') || ('A' <= c && c <= 'Z') || c == '_'
}

/// The end of the name characters of `v` that start at `i`.
fn skip_ident(v: &Vec<char>, i: usize) -> (end: usize)
    requires
        i <= v.len(),
    ensures
        i <= end <= v.len(),
        end == ident_end(v@, i as int),
{
    let mut k: usize = i;
    while k < v.len() && (starts_ident(v[k]) || ('0' <= v[k] && v[k] <= '9'))
        invariant
            i <= k <= v.len(),
            ident_end(v@, i as int) == ident_end(v@, k as int),
        decreases v.len() - k,
    {
        k += 1;
    }
    k
}

/// The bounds of the name of the variable written at `i`, and the position
/// after the variable.
fn match_variable(v: &Vec<char>, i: usize) -> (found: Option<(usize, usize, usize)>)
    requires
        i < v.len(),
    ensures
        match found {
            Some((a, b, end)) => a <= b <= end <= v.len() && i < end && variable_at(v@, i as int)
                == Some((v@.subrange(a as int, b as int), end as int)),
            None => variable_at(v@, i as int) is None,
        },
{
    if v.len() - i < 2 || v[i] != '{' || v[i + 1] != '{' {
        return None;
    }
    let a = skip_spaces(v, i + 2);
    if a >= v.len() || !starts_ident(v[a]) {
        return None;
    }
    let b = skip_ident(v, a);
    let c = skip_spaces(v, b);
    if v.len() - c < 2 || v[c] != '}' || v[c + 1] != '}' {
        return None;
    }
    Some((a, b, c + 2))
}

/// Whether the characters are a reserved name.
fn is_reserved(name: &Vec<char>) -> (r: bool)
    ensures
        r == reserved(name@),
{
    same_chars(name, &chars_of("path")) || same_chars(name, &chars_of("code")) || same_chars(
        name,
        &chars_of("git_diff"),
    )
}

/// Finds the variables that a template asks for: each `{{ name }}`, where
/// the name starts with a letter or `_` and goes on with letters, digits and
/// `_`, and whitespace may stand around it. The names `path`, `code` and
/// `git_diff` are left out. The names come in the order in which they are
/// written, each as often as it is written.
pub fn extract_undefined_variables(template: &str) -> (names: Vec<String>)
    ensures
        texts(names@) == variables(template@),
{
    let v = chars_of(template);
    let mut names: Vec<String> = Vec::new();
    let mut i: usize = 0;
    proof {
        assert(texts(names@) + variables_from(v@, 0) == variables_from(v@, 0));
    }
    while i < v.len()
        invariant
            i <= v.len(),
            texts(names@) + variables_from(v@, i as int) == variables(v@),
        decreases v.len() - i,
    {
        let ghost before = texts(names@);
        match match_variable(&v, i) {
            Some((a, b, end)) => {
                let mut name: Vec<char> = Vec::new();
                crate::text::push_range(&mut name, &v, a, b);
                if !is_reserved(&name) {
                    names.push(string_of(&name));
                    proof {
                        assert(texts(names@) == before.push(name@));
                        assert(before + (seq![name@] + variables_from(v@, end as int))
                            == before.push(name@) + variables_from(v@, end as int));
                    }
                }
                i = end;
            },
            None => {
                i += 1;
            },
        }
    }
    proof {
        assert(texts(names@) + variables_from(v@, i as int) == texts(names@));
    }
    names
}

/// What a template is rendered over: the root's label, the drawing of the
/// tree, the files, what git reported, and what the user defined.
pub struct RenderContext {
    pub absolute_code_path: String,
    pub source_tree: String,
    pub files: Vec<FileRecord>,
    pub git_diff: String,
    pub git_diff_branch: String,
    pub git_log_branch: String,
    /// The user's variables with their values. `define` keeps each name
    /// once and none of them a fixed key.
    pub extras: Vec<(String, String)>,
}

/// What a context holds.
pub ghost struct ContextView {
    pub absolute_code_path: Seq<char>,
    pub source_tree: Seq<char>,
    pub files: Seq<Record>,
    pub git_diff: Seq<char>,
    pub git_diff_branch: Seq<char>,
    pub git_log_branch: Seq<char>,
    pub extras: Seq<(Seq<char>, Seq<char>)>,
}

/// What a list of named values holds.
pub open spec fn pairs(extras: Seq<(String, String)>) -> Seq<(Seq<char>, Seq<char>)> {
    Seq::new(extras.len(), |i: int| (extras[i].0@, extras[i].1@))
}

impl View for RenderContext {
    type V = ContextView;

    open spec fn view(&self) -> ContextView {
        ContextView {
            absolute_code_path: self.absolute_code_path@,
            source_tree: self.source_tree@,
            files: records(self.files@),
            git_diff: self.git_diff@,
            git_diff_branch: self.git_diff_branch@,
            git_log_branch: self.git_log_branch@,
            extras: pairs(self.extras@),
        }
    }
}

/// The keys that every context has.
pub open spec fn is_fixed_key(name: Seq<char>) -> bool {
    ||| name == "absolute_code_path"@
    ||| name == "source_tree"@
    ||| name == "files"@
    ||| name == "git_diff"@
    ||| name == "git_diff_branch"@
    ||| name == "git_log_branch"@
}

/// The position of the first of `extras` with the name `name`, or their
/// number.
pub open spec fn extra_index(extras: Seq<(Seq<char>, Seq<char>)>, name: Seq<char>) -> int
    decreases extras.len(),
{
    if extras.len() == 0 || extras[0].0 == name {
        0
    } else {
        1 + extra_index(extras.drop_first(), name)
    }
}

/// Whether the context has a value for `name`.
pub open spec fn has_key(c: ContextView, name: Seq<char>) -> bool {
    is_fixed_key(name) || extra_index(c.extras, name) < c.extras.len()
}

/// The names of `names` for which the context has no value, in order.
pub open spec fn missing(c: ContextView, names: Seq<Seq<char>>) -> Seq<Seq<char>>
    decreases names.len(),
{
    if names.len() == 0 {
        Seq::empty()
    } else if has_key(c, names.last()) {
        missing(c, names.drop_last())
    } else {
        missing(c, names.drop_last()).push(names.last())
    }
}

/// The context after `name` was given the value `value`: a fixed key keeps
/// what it has; a name that the user defined before gets the new value; any
/// other name is added.
pub open spec fn defined(c: ContextView, name: Seq<char>, value: Seq<char>) -> ContextView {
    let k = extra_index(c.extras, name);
    ContextView {
        absolute_code_path: c.absolute_code_path,
        source_tree: c.source_tree,
        files: c.files,
        git_diff: c.git_diff,
        git_diff_branch: c.git_diff_branch,
        git_log_branch: c.git_log_branch,
        extras: if is_fixed_key(name) {
            c.extras
        } else if 0 <= k < c.extras.len() {
            c.extras.update(k, (name, value))
        } else {
            c.extras.push((name, value))
        },
    }
}

/// The context after each name was given its value, in order.
pub open spec fn defined_all(c: ContextView, names: Seq<Seq<char>>, values: Seq<Seq<char>>)
    -> ContextView
    decreases names.len(),
{
    if names.len() == 0 || values.len() != names.len() {
        c
    } else {
        defined(defined_all(c, names.drop_last(), values.drop_last()), names.last(), values.last())
    }
}

/// A position with the name and none before it is `extra_index`.
proof fn lemma_extra_index_is(extras: Seq<(Seq<char>, Seq<char>)>, name: Seq<char>, k: int)
    requires
        0 <= k <= extras.len(),
        forall|i: int| 0 <= i < k ==> (#[trigger] extras[i]).0 != name,
        k < extras.len() ==> extras[k].0 == name,
    ensures
        extra_index(extras, name) == k,
    decreases k,
{
    if k > 0 {
        let t = extras.drop_first();
        assert forall|i: int| 0 <= i < k - 1 implies (#[trigger] t[i]).0 != name by {
            assert(t[i] == extras[i + 1]);
        }
        lemma_extra_index_is(t, name, k - 1);
    }
}

/// Whether `name` is one of the keys that every context has.
fn fixed_key(name: &str) -> (r: bool)
    ensures
        r == is_fixed_key(name@),
{
    let n = chars_of(name);
    same_chars(&n, &chars_of("absolute_code_path")) || same_chars(&n, &chars_of("source_tree"))
        || same_chars(&n, &chars_of("files")) || same_chars(&n, &chars_of("git_diff"))
        || same_chars(&n, &chars_of("git_diff_branch")) || same_chars(
        &n,
        &chars_of("git_log_branch"),
    )
}

impl RenderContext {
    /// A context without variables of the user.
    pub fn new(
        absolute_code_path: String,
        source_tree: String,
        files: Vec<FileRecord>,
        git_diff: String,
        git_diff_branch: String,
        git_log_branch: String,
    ) -> (context: RenderContext)
        ensures
            context@ == (ContextView {
                absolute_code_path: absolute_code_path@,
                source_tree: source_tree@,
                files: records(files@),
                git_diff: git_diff@,
                git_diff_branch: git_diff_branch@,
                git_log_branch: git_log_branch@,
                extras: Seq::empty(),
            }),
    {
        let context = RenderContext {
            absolute_code_path,
            source_tree,
            files,
            git_diff,
            git_diff_branch,
            git_log_branch,
            extras: Vec::new(),
        };
        assert(pairs(context.extras@) =~= Seq::empty());
        context
    }

    /// The position of the user's variable `name`, or the number of the
    /// user's variables.
    fn find_extra(&self, name: &str) -> (k: usize)
        ensures
            k <= self.extras.len(),
            k == extra_index(self@.extras, name@),
    {
        let key = String::from_str(name);
        let mut k: usize = 0;
        while k < self.extras.len() && self.extras[k].0 != key
            invariant
                k <= self.extras.len(),
                key@ == name@,
                forall|i: int| 0 <= i < k ==> (#[trigger] self@.extras[i]).0 != name@,
            decreases self.extras.len() - k,
        {
            k += 1;
        }
        proof {
            lemma_extra_index_is(self@.extras, name@, k as int);
        }
        k
    }

    /// Whether the context has a value for `name`.
    pub fn contains_key(&self, name: &str) -> (r: bool)
        ensures
            r == has_key(self@, name@),
    {
        fixed_key(name) || self.find_extra(name) < self.extras.len()
    }

    /// Gives `name` the value `value`, unless it is a fixed key.
    pub fn define(&mut self, name: &str, value: &str)
        ensures
            final(self)@ == defined(old(self)@, name@, value@),
    {
        if fixed_key(name) {
            return ;
        }
        let k = self.find_extra(name);
        let ghost before = pairs(self.extras@);
        if k < self.extras.len() {
            self.extras[k] = (String::from_str(name), String::from_str(value));
            assert(pairs(self.extras@) =~= before.update(k as int, (name@, value@)));
        } else {
            self.extras.push((String::from_str(name), String::from_str(value)));
            assert(pairs(self.extras@) =~= before.push((name@, value@)));
        }
    }

    /// The variables that the template asks for and the context does not
    /// define, in the order in which they are written.
    pub fn undefined_variables(&self, template_content: &str) -> (names: Vec<String>)
        ensures
            texts(names@) == missing(self@, variables(template_content@)),
    {
        let all = extract_undefined_variables(template_content);
        let mut names: Vec<String> = Vec::new();
        let mut i: usize = 0;
        proof {
            assert(texts(all@).take(0) == Seq::<Seq<char>>::empty());
        }
        while i < all.len()
            invariant
                i <= all.len(),
                texts(names@) == missing(self@, texts(all@).take(i as int)),
            decreases all.len() - i,
        {
            proof {
                let next = texts(all@).take(i + 1);
                assert(next.drop_last() == texts(all@).take(i as int));
                assert(next.last() == all@[i as int]@);
            }
            if !self.contains_key(all[i].as_str()) {
                let ghost before = texts(names@);
                names.push(all[i].clone());
                assert(texts(names@) =~= before.push(all@[i as int]@));
            }
            i += 1;
        }
        proof {
            assert(texts(all@).take(all.len() as int) == texts(all@));
        }
        names
    }

    /// Gives each name its value, in order.
    pub fn define_all(&mut self, names: &Vec<String>, values: &Vec<String>)
        requires
            names.len() == values.len(),
        ensures
            final(self)@ == defined_all(old(self)@, texts(names@), texts(values@)),
    {
        let mut i: usize = 0;
        proof {
            assert(texts(names@).take(0) == Seq::<Seq<char>>::empty());
        }
        while i < names.len()
            invariant
                i <= names.len(),
                names.len() == values.len(),
                self@ == defined_all(
                    old(self)@,
                    texts(names@).take(i as int),
                    texts(values@).take(i as int),
                ),
            decreases names.len() - i,
        {
            proof {
                let next = texts(names@).take(i + 1);
                let vals = texts(values@).take(i + 1);
                assert(next.drop_last() == texts(names@).take(i as int));
                assert(vals.drop_last() == texts(values@).take(i as int));
                assert(next.last() == names@[i as int]@);
                assert(vals.last() == values@[i as int]@);
            }
            self.define(names[i].as_str(), values[i].as_str());
            i += 1;
        }
        proof {
            assert(texts(names@).take(names.len() as int) == texts(names@));
            assert(texts(values@).take(values.len() as int) == texts(values@));
        }
    }
}

/// `extra_index` is the least position with the name.
proof fn lemma_extra_index(extras: Seq<(Seq<char>, Seq<char>)>, name: Seq<char>)
    ensures
        0 <= extra_index(extras, name) <= extras.len(),
        forall|k: int| 0 <= k < extra_index(extras, name) ==> (#[trigger] extras[k]).0 != name,
        extra_index(extras, name) < extras.len() ==> extras[extra_index(extras, name)].0 == name,
    decreases extras.len(),
{
    if extras.len() == 0 || extras[0].0 == name {
    } else {
        let t = extras.drop_first();
        lemma_extra_index(t, name);
        assert forall|k: int| 0 <= k < extra_index(extras, name) implies (#[trigger] extras[k]).0
            != name by {
            if k > 0 {
                assert(extras[k] == t[k - 1]);
            }
        }
    }
}

/// After a name was given a value the context has a value for it, and for
/// every name that it had a value for.
pub proof fn lemma_defined_keeps_keys(c: ContextView, name: Seq<char>, value: Seq<char>, m: Seq<char>)
    requires
        has_key(c, m) || m == name,
    ensures
        has_key(defined(c, name, value), m),
{
    let after = defined(c, name, value).extras;
    let k = extra_index(c.extras, name);
    let j = extra_index(c.extras, m);
    lemma_extra_index(c.extras, name);
    lemma_extra_index(c.extras, m);
    if !is_fixed_key(m) && !is_fixed_key(name) {
        if m == name {
            assert forall|i: int| 0 <= i < k implies (#[trigger] after[i]).0 != m by {
                assert(c.extras[i].0 != m);
            }
            lemma_extra_index_is(after, m, k);
        } else {
            assert forall|i: int| 0 <= i < j implies (#[trigger] after[i]).0 != m by {
                assert(c.extras[i].0 != m);
            }
            lemma_extra_index_is(after, m, j);
        }
    }
}

/// After names were given values the context has a value for each of them,
/// and for every name that it had a value for.
pub proof fn lemma_defined_all_keeps_keys(
    c: ContextView,
    names: Seq<Seq<char>>,
    values: Seq<Seq<char>>,
    m: Seq<char>,
)
    requires
        values.len() == names.len(),
        has_key(c, m) || names.contains(m),
    ensures
        has_key(defined_all(c, names, values), m),
    decreases names.len(),
{
    if names.len() > 0 {
        let before = defined_all(c, names.drop_last(), values.drop_last());
        if m != names.last() {
            if !has_key(c, m) {
                let i = choose|i: int| 0 <= i < names.len() && names[i] == m;
                assert(names.drop_last()[i] == m);
            }
            lemma_defined_all_keeps_keys(c, names.drop_last(), values.drop_last(), m);
        }
        lemma_defined_keeps_keys(before, names.last(), values.last(), m);
    }
}

/// Every name without a value is among the missing ones.
proof fn lemma_missing_holds(c: ContextView, names: Seq<Seq<char>>, i: int)
    requires
        0 <= i < names.len(),
        !has_key(c, names[i]),
    ensures
        missing(c, names).contains(names[i]),
    decreases names.len(),
{
    let rest = missing(c, names.drop_last());
    if i == names.len() - 1 {
        assert(missing(c, names).last() == names[i]);
    } else {
        lemma_missing_holds(c, names.drop_last(), i);
        let k = choose|k: int| 0 <= k < rest.len() && rest[k] == names[i];
        assert(missing(c, names)[k] == names[i]);
    }
}

/// Where every name has a value, none is missing.
proof fn lemma_none_missing(c: ContextView, names: Seq<Seq<char>>)
    requires
        forall|i: int| 0 <= i < names.len() ==> has_key(c, #[trigger] names[i]),
    ensures
        missing(c, names) == Seq::<Seq<char>>::empty(),
    decreases names.len(),
{
    if names.len() > 0 {
        assert forall|i: int| 0 <= i < names.drop_last().len() implies has_key(
            c,
            #[trigger] names.drop_last()[i],
        ) by {
            assert(names.drop_last()[i] == names[i]);
        }
        lemma_none_missing(c, names.drop_last());
        assert(has_key(c, names[names.len() - 1]));
    }
}

/// Once the missing names of a template are defined, the template asks for
/// nothing that the context lacks.
pub proof fn lemma_resolved_is_complete(
    before: ContextView,
    template: Seq<char>,
    answers: Seq<Seq<char>>,
    after: ContextView,
)
    requires
        is_resolved(before, template, answers, after),
        answers.len() == missing(before, variables(template)).len(),
    ensures
        missing(after, variables(template)) == Seq::<Seq<char>>::empty(),
{
    let names = variables(template);
    let asked = missing(before, names);
    assert forall|i: int| 0 <= i < names.len() implies has_key(after, #[trigger] names[i]) by {
        if !has_key(before, names[i]) {
            lemma_missing_holds(before, names, i);
        }
        lemma_defined_all_keeps_keys(before, asked, answers, names[i]);
    }
    lemma_none_missing(after, names);
}

/// Whether the resolver may answer `answer` when asked for `name`.
pub open spec fn may_answer<F: Fn(&str) -> String>(resolver: F, name: Seq<char>, answer: Seq<char>)
    -> bool {
    exists|asked: &str, given: String|
        asked@ == name && given@ == answer && #[trigger] resolver.ensures((asked,), given)
}

/// Whether `answers` are answers of the resolver to `names`, one for each.
pub open spec fn answers_of<F: Fn(&str) -> String>(
    resolver: F,
    names: Seq<Seq<char>>,
    answers: Seq<Seq<char>>,
) -> bool {
    &&& answers.len() == names.len()
    &&& forall|i: int| 0 <= i < names.len() ==> may_answer(resolver, names[i], #[trigger] answers[i])
}

/// Whether `after` is `before` with the variables that `template` asks for
/// and `before` lacks defined by `answers`.
pub open spec fn is_resolved(
    before: ContextView,
    template: Seq<char>,
    answers: Seq<Seq<char>>,
    after: ContextView,
) -> bool {
    after == defined_all(before, missing(before, variables(template)), answers)
}

/// Defines the variables that the template asks for and the context lacks:
/// the resolver is asked for each of them, in the order in which they are
/// written, and its answers enter the context. Where a name is written more
/// than once, it is asked for each time and the last answer stays.
pub fn handle_undefined_variables<F: Fn(&str) -> String>(
    data: &mut RenderContext,
    template_content: &str,
    resolver: F,
)
    requires
        forall|name: &str| #[trigger] resolver.requires((name,)),
    ensures
        exists|answers: Seq<Seq<char>>|
            answers_of(resolver, missing(old(data)@, variables(template_content@)), answers)
                && #[trigger] is_resolved(old(data)@, template_content@, answers, final(data)@),
        missing(final(data)@, variables(template_content@)) == Seq::<Seq<char>>::empty(),
{
    let names = data.undefined_variables(template_content);
    let mut values: Vec<String> = Vec::new();
    let mut i: usize = 0;
    while i < names.len()
        invariant
            i <= names.len(),
            values.len() == i,
            forall|name: &str| #[trigger] resolver.requires((name,)),
            forall|k: int|
                0 <= k < i ==> may_answer(resolver, texts(names@)[k], #[trigger] texts(values@)[k]),
        decreases names.len() - i,
    {
        let asked = names[i].as_str();
        let answer = resolver(asked);
        proof {
            assert(resolver.ensures((asked,), answer));
            assert(may_answer(resolver, texts(names@)[i as int], answer@));
        }
        let ghost before = texts(values@);
        values.push(answer);
        proof {
            assert(texts(values@) =~= before.push(answer@));
        }
        i += 1;
    }
    data.define_all(&names, &values);
    proof {
        assert(answers_of(resolver, texts(names@), texts(values@)));
        assert(is_resolved(old(data)@, template_content@, texts(values@), data@));
        lemma_resolved_is_complete(old(data)@, template_content@, texts(values@), data@);
    }
}

/// The hexadecimal digit for `d`, which is below sixteen.
pub open spec fn hex_digit(d: nat) -> char {
    if d < 10 {
        (48 + d) as u8 as char
    } else {
        (87 + d) as u8 as char
    }
}

/// A character as it stands inside a JSON string: the quote, the backslash
/// and the control characters escaped, any other character itself.
pub open spec fn escaped_char(c: char) -> Seq<char> {
    if c == '"' {
        seq!['\\', '"']
    } else if c == '\\' {
        seq!['\\', '\\']
    } else if c == '\n' {
        seq!['\\', 'n']
    } else if c == '\r' {
        seq!['\\', 'r']
    } else if c == '\t' {
        seq!['\\', 't']
    } else if (c as u32) < 0x20 {
        seq!['\\', 'u', '0', '0', hex_digit((c as u32 / 16) as nat), hex_digit((c as u32 % 16) as nat)]
    } else {
        seq![c]
    }
}

/// A text as it stands inside a JSON string.
pub open spec fn escaped(s: Seq<char>) -> Seq<char>
    decreases s.len(),
{
    if s.len() == 0 {
        Seq::empty()
    } else {
        escaped(s.drop_last()) + escaped_char(s.last())
    }
}

/// A text as a JSON string.
pub open spec fn json_string(s: Seq<char>) -> Seq<char> {
    seq!['"'] + escaped(s) + seq!['"']
}

/// A member of a JSON object whose value is a string.
pub open spec fn json_member(key: Seq<char>, value: Seq<char>) -> Seq<char> {
    json_string(key) + seq![':'] + json_string(value)
}

/// A file as a JSON object with its path, its extension and its code.
pub open spec fn file_json(r: Record) -> Seq<char> {
    seq!['{'] + json_member("path"@, r.path) + seq![','] + json_member("extension"@, r.extension)
        + seq![','] + json_member("code"@, r.code) + seq!['}']
}

/// The files as the items of a JSON array, with commas between them.
pub open spec fn file_items(files: Seq<Record>) -> Seq<char>
    decreases files.len(),
{
    if files.len() == 0 {
        Seq::empty()
    } else if files.len() == 1 {
        file_json(files[0])
    } else {
        file_items(files.drop_last()) + seq![','] + file_json(files.last())
    }
}

/// The user's variables as members of a JSON object, each after a comma.
pub open spec fn extra_members(extras: Seq<(Seq<char>, Seq<char>)>) -> Seq<char>
    decreases extras.len(),
{
    if extras.len() == 0 {
        Seq::empty()
    } else {
        extra_members(extras.drop_last()) + seq![','] + json_member(
            extras.last().0,
            extras.last().1,
        )
    }
}

/// The context as the text of a JSON object: its six fixed keys, of which
/// `files` holds an array of objects, and the user's variables after them.
/// The text is the library's own framing of the context, character by
/// character; the engine's reader alone decides what it denotes.
pub open spec fn context_json(c: ContextView) -> Seq<char> {
    json_head(c) + file_items(c.files) + json_tail(c) + extra_members(c.extras) + seq!['}']
}

/// The hexadecimal digit for `d`.
fn to_hex_digit(d: u8) -> (c: char)
    requires
        d < 16,
    ensures
        c == hex_digit(d as nat),
{
    if d < 10 {
        (48 + d) as char
    } else {
        (87 + d) as char
    }
}

/// Appends `text` as a JSON string to `out`.
fn push_json_string(out: &mut Vec<char>, text: &str)
    ensures
        final(out)@ == old(out)@ + json_string(text@),
{
    let v = chars_of(text);
    out.push('"');
    let ghost start = out@;
    let mut i: usize = 0;
    proof {
        assert(v@.take(0) == Seq::<char>::empty());
        assert(out@ =~= start + escaped(v@.take(0)));
    }
    while i < v.len()
        invariant
            i <= v.len(),
            out@ == start + escaped(v@.take(i as int)),
        decreases v.len() - i,
    {
        let c = v[i];
        let ghost before = out@;
        proof {
            assert(v@.take(i + 1).drop_last() == v@.take(i as int));
            assert(v@.take(i + 1).last() == c);
        }
        if c == '"' {
            out.push('\\');
            out.push('"');
        } else if c == '\\' {
            out.push('\\');
            out.push('\\');
        } else if c == '\n' {
            out.push('\\');
            out.push('n');
        } else if c == '\r' {
            out.push('\\');
            out.push('r');
        } else if c == '\t' {
            out.push('\\');
            out.push('t');
        } else if (c as u32) < 0x20 {
            let wide: u32 = c as u32;
            let code: u8 = wide as u8;
            assert(code as u32 == c as u32);
            out.push('\\');
            out.push('u');
            out.push('0');
            out.push('0');
            out.push(to_hex_digit(code / 16));
            out.push(to_hex_digit(code % 16));
        } else {
            out.push(c);
        }
        proof {
            assert(out@ =~= before + escaped_char(c));
            assert(start + escaped(v@.take(i as int)) + escaped_char(c) =~= start + escaped(
                v@.take(i + 1),
            ));
        }
        i += 1;
    }
    out.push('"');
    proof {
        assert(v@.take(v.len() as int) == v@);
        assert(out@ =~= old(out)@ + json_string(text@));
    }
}

/// Appends a member with a string for value to `out`.
fn push_json_member(out: &mut Vec<char>, key: &str, value: &str)
    ensures
        final(out)@ == old(out)@ + json_member(key@, value@),
{
    push_json_string(out, key);
    out.push(':');
    push_json_string(out, value);
    assert(out@ =~= old(out)@ + json_member(key@, value@));
}

/// Appends a file as a JSON object to `out`.
fn push_file_json(out: &mut Vec<char>, file: &FileRecord)
    ensures
        final(out)@ == old(out)@ + file_json(file@),
{
    out.push('{');
    push_json_member(out, "path", file.path.as_str());
    out.push(',');
    push_json_member(out, "extension", file.extension.as_str());
    out.push(',');
    push_json_member(out, "code", file.code.as_str());
    out.push('}');
    assert(out@ =~= old(out)@ + file_json(file@));
}

/// Appends the files as the items of a JSON array to `out`.
fn push_file_items(out: &mut Vec<char>, files: &Vec<FileRecord>)
    ensures
        final(out)@ == old(out)@ + file_items(records(files@)),
{
    let ghost head = out@;
    let mut i: usize = 0;
    proof {
        assert(records(files@).take(0) == Seq::<Record>::empty());
        assert(out@ =~= head + file_items(records(files@).take(0)));
    }
    while i < files.len()
        invariant
            i <= files.len(),
            out@ == head + file_items(records(files@).take(i as int)),
        decreases files.len() - i,
    {
        let ghost before = out@;
        if i > 0 {
            out.push(',');
        }
        push_file_json(out, &files[i]);
        proof {
            let next = records(files@).take(i + 1);
            assert(next.drop_last() == records(files@).take(i as int));
            assert(next.last() == files@[i as int]@);
            if i > 0 {
                assert(out@ =~= before + seq![','] + file_json(next.last()));
            } else {
                assert(next[0] == next.last());
                assert(out@ =~= head + file_json(next[0]));
            }
            assert(out@ =~= head + file_items(next));
        }
        i += 1;
    }
    proof {
        assert(records(files@).take(files.len() as int) == records(files@));
    }
}

/// Appends the user's variables as members, each after a comma, to `out`.
fn push_extra_members(out: &mut Vec<char>, extras: &Vec<(String, String)>)
    ensures
        final(out)@ == old(out)@ + extra_members(pairs(extras@)),
{
    let ghost fixed = out@;
    let mut k: usize = 0;
    proof {
        assert(pairs(extras@).take(0) == Seq::<(Seq<char>, Seq<char>)>::empty());
        assert(out@ =~= fixed + extra_members(pairs(extras@).take(0)));
    }
    while k < extras.len()
        invariant
            k <= extras.len(),
            out@ == fixed + extra_members(pairs(extras@).take(k as int)),
        decreases extras.len() - k,
    {
        let ghost before = out@;
        out.push(',');
        push_json_member(out, extras[k].0.as_str(), extras[k].1.as_str());
        proof {
            let next = pairs(extras@).take(k + 1);
            assert(next.drop_last() == pairs(extras@).take(k as int));
            assert(next.last() == (extras@[k as int].0@, extras@[k as int].1@));
            assert(out@ =~= before + seq![','] + json_member(next.last().0, next.last().1));
            assert(out@ =~= fixed + extra_members(next));
        }
        k += 1;
    }
    proof {
        assert(pairs(extras@).take(extras.len() as int) == pairs(extras@));
    }
}

/// The fixed members before the files, with the opening of the array.
pub open spec fn json_head(c: ContextView) -> Seq<char> {
    seq!['{'] + json_member("absolute_code_path"@, c.absolute_code_path) + seq![',']
        + json_member("source_tree"@, c.source_tree) + seq![','] + json_string("files"@) + seq![
        ':',
        '[',
    ]
}

/// The closing of the array, with the fixed members after the files.
pub open spec fn json_tail(c: ContextView) -> Seq<char> {
    seq![']', ','] + json_member("git_diff"@, c.git_diff) + seq![','] + json_member(
        "git_diff_branch"@,
        c.git_diff_branch,
    ) + seq![','] + json_member("git_log_branch"@, c.git_log_branch)
}

impl RenderContext {
    /// Appends the members before the files to `out`.
    fn push_head(&self, out: &mut Vec<char>)
        ensures
            final(out)@ == old(out)@ + json_head(self@),
    {
        out.push('{');
        push_json_member(out, "absolute_code_path", self.absolute_code_path.as_str());
        out.push(',');
        push_json_member(out, "source_tree", self.source_tree.as_str());
        out.push(',');
        push_json_string(out, "files");
        out.push(':');
        out.push('[');
        assert(out@ =~= old(out)@ + json_head(self@));
    }

    /// Appends the members after the files to `out`.
    fn push_tail(&self, out: &mut Vec<char>)
        ensures
            final(out)@ == old(out)@ + json_tail(self@),
    {
        out.push(']');
        out.push(',');
        push_json_member(out, "git_diff", self.git_diff.as_str());
        out.push(',');
        push_json_member(out, "git_diff_branch", self.git_diff_branch.as_str());
        out.push(',');
        push_json_member(out, "git_log_branch", self.git_log_branch.as_str());
        assert(out@ =~= old(out)@ + json_tail(self@));
    }

    /// The context as the text of a JSON object.
    pub fn to_json(&self) -> (json: String)
        ensures
            json@ == context_json(self@),
    {
        let mut out: Vec<char> = Vec::new();
        self.push_head(&mut out);
        push_file_items(&mut out, &self.files);
        self.push_tail(&mut out);
        push_extra_members(&mut out, &self.extras);
        out.push('}');
        proof {
            assert(out@ =~= context_json(self@));
        }
        string_of(&out)
    }
}

/// The registry of the `handlebars` crate: its templates by name, and its
/// settings.
#[verifier::external_type_specification]
#[verifier::external_body]
pub struct ExHandlebars<'reg>(handlebars::Handlebars<'reg>);

/// The templates of a registry: under each name the text that was registered.
pub uninterp spec fn registered(registry: handlebars::Handlebars<'static>) -> Map<
    Seq<char>,
    Seq<char>,
>;

/// The settings of a registry, which is all that it holds besides its
/// templates: `default_settings()` for a registry as `Handlebars::new` makes
/// it, `verbatim_settings()` for one that differs from that only in filling
/// in texts as they are, and another number for any other registry.
pub uninterp spec fn settings(registry: handlebars::Handlebars<'static>) -> int;

/// The settings of a new registry: the built-in helpers, and escaping for
/// HTML.
pub open spec fn default_settings() -> int {
    0
}

/// The settings of a new registry that was told not to escape.
pub open spec fn verbatim_settings() -> int {
    1
}

/// Whether `handlebars` accepts `source` as a template
/// (`Handlebars::register_template_string`).
pub uninterp spec fn template_parses(source: Seq<char>) -> bool;

/// What a registry with the verbatim settings and the templates `templates`
/// renders for the template `name` over the data that the JSON text `json`
/// denotes (`serde_json::from_str`, then `Handlebars::render`); `None` where
/// the text is no JSON or rendering fails.
pub uninterp spec fn rendered(templates: Map<Seq<char>, Seq<char>>, name: Seq<char>, json: Seq<char>)
    -> Option<Seq<char>>;

/// No template at all.
pub open spec fn no_templates() -> Map<Seq<char>, Seq<char>> {
    Map::empty()
}

/// `Handlebars::new`: a registry without templates, with the default
/// settings.
#[verifier::external_body]
fn new_registry() -> (registry: handlebars::Handlebars<'static>)
    ensures
        registered(registry) == no_templates(),
        settings(registry) == default_settings(),
{
    handlebars::Handlebars::new()
}

/// `Handlebars::register_escape_fn` with `handlebars::no_escape`: from then
/// on the registry fills in texts as they are. Its templates stay, and of
/// its settings nothing else changes.
#[verifier::external_body]
fn disable_escaping(registry: &mut handlebars::Handlebars<'static>)
    ensures
        registered(*final(registry)) == registered(*old(registry)),
        settings(*old(registry)) == default_settings() ==> settings(*final(registry))
            == verbatim_settings(),
{
    registry.register_escape_fn(handlebars::no_escape);
}

/// `Handlebars::register_template_string`: where the text parses, it is
/// registered under the name, in the place of what was there; else the
/// registry stays as it is and the error's message is handed back. The
/// settings stay.
#[verifier::external_body]
fn register(registry: &mut handlebars::Handlebars<'static>, name: &str, source: &str) -> (r: Result<
    (),
    String,
>)
    ensures
        r is Ok <==> template_parses(source@),
        r is Ok ==> registered(*final(registry)) == registered(*old(registry)).insert(
            name@,
            source@,
        ),
        r is Err ==> registered(*final(registry)) == registered(*old(registry)),
        settings(*final(registry)) == settings(*old(registry)),
{
    registry.register_template_string(name, source).map_err(|e| e.to_string())
}

/// Reads `json` with `serde_json::from_str` and renders the template `name`
/// over it with `Handlebars::render`, for a registry with the verbatim
/// settings of which no template may include a partial: without partials
/// rendering comes to an end. An error of either call is handed back as its
/// message; a name that is not registered gives an error.
#[verifier::external_body]
fn render_json(registry: &handlebars::Handlebars<'static>, name: &str, json: &str) -> (r: Result<
    String,
    String,
>)
    requires
        settings(*registry) == verbatim_settings(),
        include_free(registered(*registry)),
    ensures
        match rendered(registered(*registry), name@, json@) {
            Some(text) => r matches Ok(s) && s@ == text,
            None => r is Err,
        },
        !registered(*registry).dom().contains(name@) ==> r is Err,
{
    let data: serde_json::Value = serde_json::from_str(json).map_err(|e| e.to_string())?;
    registry.render(name, &data).map_err(|e| e.to_string())
}

/// Why a template could not be used.
pub enum TemplateError {
    /// The template includes a partial, which is not supported.
    Partial,
    /// The template's text does not parse; with the engine's message.
    Register(String),
    /// Rendering failed; with the engine's message.
    Render(String),
}

/// The message of an error.
pub open spec fn error_text(e: TemplateError) -> Seq<char> {
    match e {
        TemplateError::Partial => "Failed to register template: partials are not supported"@,
        TemplateError::Register(detail) => "Failed to register template: "@ + detail@,
        TemplateError::Render(detail) => "Failed to render template: "@ + detail@,
    }
}

impl TemplateError {
    /// The message for the user.
    pub fn message(&self) -> (text: String)
        ensures
            text@ == error_text(*self),
    {
        let mut out: Vec<char> = Vec::new();
        match self {
            TemplateError::Partial => {
                crate::text::push_str(
                    &mut out,
                    "Failed to register template: partials are not supported",
                );
            },
            TemplateError::Register(detail) => {
                crate::text::push_str(&mut out, "Failed to register template: ");
                crate::text::push_str(&mut out, detail.as_str());
            },
            TemplateError::Render(detail) => {
                crate::text::push_str(&mut out, "Failed to render template: ");
                crate::text::push_str(&mut out, detail.as_str());
            },
        }
        string_of(&out)
    }
}

/// A character that may stand between the opening braces of a tag and the
/// sign of its kind: whitespace, `~` and `#`.
pub open spec fn is_tag_prefix(c: char) -> bool {
    is_space(c) || c == '~' || c == '#'
}

/// The end of the tag prefix that starts at `i`.
pub open spec fn prefix_end(s: Seq<char>, i: int) -> int
    decreases s.len() - i,
{
    if 0 <= i < s.len() && is_tag_prefix(s[i]) {
        prefix_end(s, i + 1)
    } else {
        i
    }
}

/// Whether a tag that includes a partial may start at `i`: two opening
/// braces, a tag prefix, and `>`.
pub open spec fn includes_at(s: Seq<char>, i: int) -> bool {
    &&& 0 <= i
    &&& i + 2 <= s.len()
    &&& s[i] == '{'
    &&& s[i + 1] == '{'
    &&& prefix_end(s, i + 2) < s.len()
    &&& s[prefix_end(s, i + 2)] == '>'
}

/// Whether the template may include a partial. A template that includes
/// itself, directly or from inside a block, would be rendered without end.
pub open spec fn has_include(s: Seq<char>) -> bool {
    exists|i: int| 0 <= i < s.len() && #[trigger] includes_at(s, i)
}

/// Whether the template may include a partial.
pub fn includes_partial(template: &str) -> (r: bool)
    ensures
        r == has_include(template@),
{
    let v = chars_of(template);
    let mut i: usize = 0;
    while i < v.len()
        invariant
            i <= v.len(),
            v@ == template@,
            forall|j: int| 0 <= j < i ==> !includes_at(v@, j),
        decreases v.len() - i,
    {
        if v.len() - i >= 2 && v[i] == '{' && v[i + 1] == '{' {
            let mut k: usize = i + 2;
            while k < v.len() && (is_whitespace(v[k]) || v[k] == '~' || v[k] == '#')
                invariant
                    i + 2 <= k <= v.len(),
                    prefix_end(v@, i + 2) == prefix_end(v@, k as int),
                decreases v.len() - k,
            {
                k += 1;
            }
            if k < v.len() && v[k] == '>' {
                assert(includes_at(v@, i as int));
                return true;
            }
        }
        i += 1;
    }
    false
}

/// Whether no template of the registry may include a partial.
pub open spec fn include_free(templates: Map<Seq<char>, Seq<char>>) -> bool {
    forall|name: Seq<char>| templates.dom().contains(name) ==> !has_include(#[trigger] templates[name])
}

/// The template engine with one template, which includes no partial and
/// fills in texts as they are.
pub struct TemplateEngine {
    registry: handlebars::Handlebars<'static>,
    name: String,
    source: String,
}

/// What an engine holds: its template's name and text.
pub ghost struct EngineView {
    pub name: Seq<char>,
    pub source: Seq<char>,
}

impl View for TemplateEngine {
    type V = EngineView;

    closed spec fn view(&self) -> EngineView {
        EngineView { name: self.name@, source: self.source@ }
    }
}

impl TemplateEngine {
    /// The registry holds the one template, which includes no partial, and
    /// has the verbatim settings.
    #[verifier::type_invariant]
    closed spec fn well_formed(&self) -> bool {
        &&& settings(self.registry) == verbatim_settings()
        &&& registered(self.registry) == no_templates().insert(self.name@, self.source@)
        &&& !has_include(self.source@)
    }
}

/// The templates of an engine.
pub open spec fn templates_of(e: EngineView) -> Map<Seq<char>, Seq<char>> {
    no_templates().insert(e.name, e.source)
}

/// Sets up the template engine with one template under the name
/// `template_name`. The engine fills in texts as they are, without escaping.
/// A template that may include a partial is refused, and so is one whose
/// text does not parse.
pub fn handlebars_setup(template_str: &str, template_name: &str) -> (r: Result<
    TemplateEngine,
    TemplateError,
>)
    ensures
        match r {
            Ok(engine) => !has_include(template_str@) && template_parses(template_str@)
                && engine@ == (EngineView { name: template_name@, source: template_str@ }),
            Err(TemplateError::Partial) => has_include(template_str@),
            Err(TemplateError::Register(_)) => !has_include(template_str@) && !template_parses(
                template_str@,
            ),
            Err(TemplateError::Render(_)) => false,
        },
{
    if includes_partial(template_str) {
        return Err(TemplateError::Partial);
    }
    let mut registry = new_registry();
    disable_escaping(&mut registry);
    match register(&mut registry, template_name, template_str) {
        Ok(_) => Ok(
            TemplateEngine {
                registry,
                name: String::from_str(template_name),
                source: String::from_str(template_str),
            },
        ),
        Err(detail) => Err(TemplateError::Register(detail)),
    }
}

/// What becomes of the engine's answer: a rendered text is trimmed, a
/// failure becomes a rendering error with the engine's message.
pub fn finish_render(raw: Result<String, String>) -> (r: Result<String, TemplateError>)
    ensures
        match raw {
            Ok(text) => r matches Ok(s) && s@ == crate::text::trim(text@),
            Err(detail) => r matches Err(TemplateError::Render(d)) && d@ == detail@,
        },
{
    match raw {
        Ok(text) => {
            let v = chars_of(text.as_str());
            let (from, to) = crate::text::trim_bounds(&v);
            Ok(string_of_range(&v, from, to))
        },
        Err(detail) => Err(TemplateError::Render(detail)),
    }
}

/// Renders the template `template_name` of the engine over the context and
/// trims the result: what the engine renders over the context's JSON text,
/// or a rendering error. Any other name than the engine's template's gives
/// an error.
pub fn render_template(engine: &TemplateEngine, template_name: &str, data: &RenderContext) -> (r:
    Result<String, TemplateError>)
    ensures
        match rendered(templates_of(engine@), template_name@, context_json(data@)) {
            Some(text) => r matches Ok(s) && s@ == crate::text::trim(text),
            None => r matches Err(e) && e is Render,
        },
        template_name@ != engine@.name ==> r is Err,
        r matches Ok(s) ==> s@ == crate::text::trim(s@),
        r matches Err(e) ==> e is Render,
{
    proof {
        use_type_invariant(engine);
        assert(include_free(registered(engine.registry))) by {
            assert forall|name: Seq<char>|
                registered(engine.registry).dom().contains(name) implies !has_include(
                #[trigger] registered(engine.registry)[name],
            ) by {
                assert(name == engine.name@);
            }
        }
    }
    let json = data.to_json();
    let raw = render_json(&engine.registry, template_name, json.as_str());
    proof {
        if raw is Ok {
            lemma_trim_idempotent(raw->Ok_0@);
        }
    }
    finish_render(raw)
}

} // verus!
