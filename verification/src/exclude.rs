//! The rules that exclude, compiled: which entries of a walk are left out.
//!
//! The rules are those of the `ignore` crate's overrides, and the matching is
//! that crate's. Its outcome is named here, not defined, and only for rules
//! and paths that every platform reads alike: a rule with a backslash is
//! refused.

use crate::filter::portable;
use crate::pattern::{all_rules, exclude_rule_texts, exclude_rules, is_rule};
use crate::text::{chars_of, has_char, is_space, is_whitespace, texts};
use vstd::prelude::*;

verus! {

/// The `ignore` crate's builder of a set of overrides.
#[verifier::external_type_specification]
#[verifier::external_body]
pub struct ExOverrideBuilder(ignore::overrides::OverrideBuilder);

/// The `ignore` crate's set of overrides.
#[verifier::external_type_specification]
#[verifier::external_body]
pub struct ExOverride(ignore::overrides::Override);

/// The rules that were added to a builder, in order.
pub uninterp spec fn builder_rules(builder: ignore::overrides::OverrideBuilder) -> Seq<Seq<char>>;

/// The rules of a set of overrides, in order.
pub uninterp spec fn override_rules(set: ignore::overrides::Override) -> Seq<Seq<char>>;

/// Whether `OverrideBuilder::add` accepts the clean rule `rule`.
pub uninterp spec fn rule_parses(rule: Seq<char>) -> bool;

/// Whether `OverrideBuilder::build` makes a set of the clean rules `rules`.
pub uninterp spec fn rules_build(rules: Seq<Seq<char>>) -> bool;

/// Whether the set of the clean rules `rules`, made for the directory `.`,
/// says of the plain path `path`, a directory or not, that it is ignored
/// (`Override::matched`, then `Match::is_ignore`).
pub uninterp spec fn rules_ignore(rules: Seq<Seq<char>>, path: Seq<char>, is_dir: bool) -> bool;

/// A rule that every platform reads alike and that is stored as it is
/// written: it starts with `!`, holds no backslash, and does not end with
/// whitespace. (The matcher reads a backslash in a rule as an escape or as a
/// separator, by platform, and drops whitespace at the end of a rule.)
pub open spec fn clean_rule(rule: Seq<char>) -> bool {
    &&& is_rule(rule)
    &&& portable(rule)
    &&& !is_space(rule.last())
}

/// A list of clean rules.
pub open spec fn all_clean(rules: Seq<Seq<char>>) -> bool {
    forall|i: int| 0 <= i < rules.len() ==> clean_rule(#[trigger] rules[i])
}

/// A path that every platform reads alike: it holds no backslash and does
/// not start with the name `.`.
pub open spec fn plain_path(path: Seq<char>) -> bool {
    &&& portable(path)
    &&& !(path.len() > 0 && path[0] == '.' && (path.len() == 1 || path[1] == '/'))
}

/// `OverrideBuilder::new` for the directory `.`: a builder without rules.
#[verifier::external_body]
fn new_builder() -> (builder: ignore::overrides::OverrideBuilder)
    ensures
        builder_rules(builder) == Seq::<Seq<char>>::empty(),
{
    ignore::overrides::OverrideBuilder::new(".")
}

/// `OverrideBuilder::add` for a clean rule: where the rule parses, it is
/// added after the others; else the builder stays as it is and the error's
/// message is handed back.
#[verifier::external_body]
fn add_rule(builder: &mut ignore::overrides::OverrideBuilder, rule: &str) -> (r: Result<(), String>)
    requires
        clean_rule(rule@),
    ensures
        r is Ok <==> rule_parses(rule@),
        r is Ok ==> builder_rules(*final(builder)) == builder_rules(*old(builder)).push(rule@),
        r is Err ==> builder_rules(*final(builder)) == builder_rules(*old(builder)),
{
    builder.add(rule).map(|_| ()).map_err(|e| e.to_string())
}

/// `OverrideBuilder::build`: the set of the builder's rules, or the error's
/// message. Whether a set is made is claimed to depend on the rules alone
/// only where all of them are clean.
#[verifier::external_body]
fn build_set(builder: &ignore::overrides::OverrideBuilder) -> (r: Result<
    ignore::overrides::Override,
    String,
>)
    ensures
        all_clean(builder_rules(*builder)) ==> (r is Ok <==> rules_build(builder_rules(*builder))),
        r matches Ok(set) ==> override_rules(set) == builder_rules(*builder),
{
    builder.build().map_err(|e| e.to_string())
}

/// `Override::matched` and `Match::is_ignore`, for a set that was made for
/// the directory `.`: whether the set ignores the path. The crate reads
/// paths and backslashes in rules as the platform does; of a path that is
/// not plain and of rules that are not clean nothing is claimed.
#[verifier::external_body]
fn set_ignores(set: &ignore::overrides::Override, path: &str, is_dir: bool) -> (ignored: bool)
    ensures
        all_clean(override_rules(*set)) && plain_path(path@) ==> ignored == rules_ignore(
            override_rules(*set),
            path@,
            is_dir,
        ),
{
    set.matched(path, is_dir).is_ignore()
}

/// Why the rules could not be compiled.
pub enum RuleError {
    /// A rule is not clean or does not parse; with the rule and the reason.
    Rule(String, String),
    /// The rules parse but no set can be made of them; with the matcher's
    /// message.
    RuleSet(String),
}

/// The compiled rules that exclude entries of a walk. Paths are matched as
/// they stand below the root of the walk.
pub struct ExcludeSet {
    set: ignore::overrides::Override,
}

impl View for ExcludeSet {
    type V = Seq<Seq<char>>;

    /// The rules, in order.
    closed spec fn view(&self) -> Seq<Seq<char>> {
        override_rules(self.set)
    }
}

/// A rule that the matcher takes: it is clean, and it parses.
pub open spec fn accepted(rule: Seq<char>) -> bool {
    clean_rule(rule) && rule_parses(rule)
}

/// The position of the first rule that is not accepted, or the number of
/// rules.
pub open spec fn first_bad_rule(rules: Seq<Seq<char>>) -> int
    decreases rules.len(),
{
    if rules.len() == 0 || !accepted(rules[0]) {
        0
    } else {
        1 + first_bad_rule(rules.drop_first())
    }
}

/// What may come of asking whether the rules exclude `path`: for clean
/// rules and a plain path, whether they ignore it; else either answer.
pub open spec fn exclude_outcome(
    rules: Seq<Seq<char>>,
    path: Seq<char>,
    is_dir: bool,
    excluded: bool,
) -> bool {
    all_clean(rules) && plain_path(path) ==> excluded == rules_ignore(rules, path, is_dir)
}

/// A position with a rule that is not accepted, before which all are, or
/// the end where all are, is `first_bad_rule`.
proof fn lemma_first_bad_rule_is(rules: Seq<Seq<char>>, k: int)
    requires
        0 <= k <= rules.len(),
        forall|i: int| 0 <= i < k ==> accepted(#[trigger] rules[i]),
        k < rules.len() ==> !accepted(rules[k]),
    ensures
        first_bad_rule(rules) == k,
    decreases k,
{
    if k > 0 {
        let t = rules.drop_first();
        assert(accepted(rules[0]));
        assert forall|i: int| 0 <= i < k - 1 implies accepted(#[trigger] t[i]) by {
            assert(t[i] == rules[i + 1]);
        }
        lemma_first_bad_rule_is(t, k - 1);
    }
}

/// Whether the rules of the exclude patterns compile: each of them is
/// accepted and a set can be made of them.
pub open spec fn rules_compile(exclude_patterns: Seq<Seq<char>>) -> bool {
    let rules = exclude_rule_texts(exclude_patterns);
    first_bad_rule(rules) == rules.len() && rules_build(rules)
}

/// Whether `e` says why the rules of the exclude patterns do not compile:
/// it names the first rule that is not accepted, or, where all are, says
/// that no set can be made of them.
pub open spec fn is_rule_failure(exclude_patterns: Seq<Seq<char>>, e: RuleError) -> bool {
    let rules = exclude_rule_texts(exclude_patterns);
    match e {
        RuleError::Rule(rule, _) => first_bad_rule(rules) < rules.len() && rule@
            == rules[first_bad_rule(rules)],
        RuleError::RuleSet(_) => first_bad_rule(rules) == rules.len() && !rules_build(rules),
    }
}

/// Whether `rule` holds no backslash and does not end with whitespace.
fn is_clean(rule: &str) -> (r: bool)
    ensures
        r == (portable(rule@) && (rule@.len() == 0 || !is_space(rule@.last()))),
{
    let chars = chars_of(rule);
    if has_char(&chars, '\\') {
        return false;
    }
    chars.len() == 0 || !is_whitespace(chars[chars.len() - 1])
}

impl ExcludeSet {
    /// Compiles the rules that exclude: the fixed rules and those of the
    /// user's exclude patterns. Fails at the first rule that is not clean
    /// (it holds a backslash or ends with whitespace) or does not parse, or
    /// where no set can be made of the rules.
    pub fn new(exclude_patterns: &Vec<String>) -> (r: Result<ExcludeSet, RuleError>)
        ensures
            match r {
                Ok(set) => rules_compile(texts(exclude_patterns@)) && set@ == exclude_rule_texts(
                    texts(exclude_patterns@),
                ),
                Err(e) => is_rule_failure(texts(exclude_patterns@), e),
            },
    {
        let rules = exclude_rules(exclude_patterns);
        let mut builder = new_builder();
        let mut i: usize = 0;
        while i < rules.len()
            invariant
                i <= rules.len(),
                all_rules(texts(rules@)),
                texts(rules@) == exclude_rule_texts(texts(exclude_patterns@)),
                builder_rules(builder) == texts(rules@).take(i as int),
                forall|k: int| 0 <= k < i ==> accepted(#[trigger] texts(rules@)[k]),
            decreases rules.len() - i,
        {
            assert(is_rule(texts(rules@)[i as int]));
            assert(texts(rules@)[i as int] == rules@[i as int]@);
            if !is_clean(rules[i].as_str()) {
                proof {
                    lemma_first_bad_rule_is(texts(rules@), i as int);
                }
                return Err(
                    RuleError::Rule(
                        rules[i].clone(),
                        String::from_str("a rule may hold no backslash and end with no whitespace"),
                    ),
                );
            }
            match add_rule(&mut builder, rules[i].as_str()) {
                Ok(_) => {
                    assert(texts(rules@).take(i + 1) == texts(rules@).take(i as int).push(
                        rules@[i as int]@,
                    ));
                },
                Err(detail) => {
                    let rule = rules[i].clone();
                    proof {
                        assert(!rule_parses(texts(rules@)[i as int]));
                        lemma_first_bad_rule_is(texts(rules@), i as int);
                        assert(rule@ == texts(rules@)[first_bad_rule(texts(rules@))]);
                    }
                    return Err(RuleError::Rule(rule, detail));
                },
            }
            i += 1;
        }
        proof {
            assert(texts(rules@).take(rules.len() as int) == texts(rules@));
            lemma_first_bad_rule_is(texts(rules@), rules.len() as int);
            assert(all_clean(builder_rules(builder)));
        }
        match build_set(&builder) {
            Ok(set) => Ok(ExcludeSet { set }),
            Err(detail) => Err(RuleError::RuleSet(detail)),
        }
    }

    /// Whether the rules exclude the entry at `path` below the root of the
    /// walk, a directory or not.
    pub fn excludes(&self, path: &str, is_dir: bool) -> (excluded: bool)
        ensures
            exclude_outcome(self@, path@, is_dir, excluded),
    {
        set_ignores(&self.set, path, is_dir)
    }
}

/// The message of an error.
pub open spec fn rule_error_text(e: RuleError) -> Seq<char> {
    match e {
        RuleError::Rule(rule, detail) => "Invalid exclude rule '"@ + rule@ + "': "@ + detail@,
        RuleError::RuleSet(detail) => "Invalid exclude rules: "@ + detail@,
    }
}

impl RuleError {
    /// The message for the user.
    pub fn message(&self) -> (text: String)
        ensures
            text@ == rule_error_text(*self),
    {
        let mut out: Vec<char> = Vec::new();
        match self {
            RuleError::Rule(rule, detail) => {
                crate::text::push_str(&mut out, "Invalid exclude rule '");
                crate::text::push_str(&mut out, rule.as_str());
                crate::text::push_str(&mut out, "': ");
                crate::text::push_str(&mut out, detail.as_str());
            },
            RuleError::RuleSet(detail) => {
                crate::text::push_str(&mut out, "Invalid exclude rules: ");
                crate::text::push_str(&mut out, detail.as_str());
            },
        }
        crate::text::string_of(&out)
    }
}

} // verus!
