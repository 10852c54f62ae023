//! The pattern compiler and the fixed rules: how the comma-separated words of
//! the user become glob patterns, and which rules exclude files in any case.

use crate::text::{
    chars_of, has_char, is_space, is_whitespace, is_word, lemma_trim_end_take, lines, lower,
    push_range, push_str, rows, split, split_lines, split_on, string_of, texts, trim, trim_bounds,
    trim_end,
};
use vstd::prelude::*;

verus! {

/// Two words that differ at most in the case of ASCII letters.
pub open spec fn same_word(a: Seq<char>, b: Seq<char>) -> bool {
    lower(a) == lower(b)
}

/// The patterns that one trimmed word stands for: none for the empty word,
/// the fixed lists for `docker` and `env`, the word itself where it holds a
/// `*` or a `/`, and else the pattern for files with the word as extension.
pub open spec fn expand(token: Seq<char>) -> Seq<Seq<char>> {
    if token.len() == 0 {
        Seq::empty()
    } else if same_word(token, "docker"@) {
        seq!["**/Dockerfile"@, "**/docker-compose.yml"@, "**/docker-compose.yaml"@]
    } else if same_word(token, "env"@) {
        seq!["**/.env"@, "**/.env.*"@]
    } else if token.contains('*') || token.contains('/') {
        seq![token]
    } else {
        seq!["**/*."@ + token]
    }
}

/// The patterns of a list of words, each trimmed first, in order.
pub open spec fn compiled(tokens: Seq<Seq<char>>) -> Seq<Seq<char>>
    decreases tokens.len(),
{
    if tokens.len() == 0 {
        Seq::empty()
    } else {
        compiled(tokens.drop_last()) + expand(trim(tokens.last()))
    }
}

/// The patterns of a comma-separated list.
pub open spec fn patterns_of(list: Seq<char>) -> Seq<Seq<char>> {
    compiled(split_on(list, ','))
}

/// Appends the patterns of one word, given by its place in `part`, to `out`.
fn push_expansion(out: &mut Vec<String>, part: &Vec<char>)
    ensures
        texts(final(out)@) == texts(old(out)@) + expand(trim(part@)),
{
    let (from, to) = trim_bounds(part);
    let mut token: Vec<char> = Vec::new();
    push_range(&mut token, part, from, to);
    assert(token@ == trim(part@));
    let ghost before = texts(out@);
    if token.len() == 0 {
        assert(texts(out@) == before + expand(token@));
    } else if is_word(&token, "docker") {
        out.push(String::from_str("**/Dockerfile"));
        out.push(String::from_str("**/docker-compose.yml"));
        out.push(String::from_str("**/docker-compose.yaml"));
        assert(texts(out@) == before + expand(token@));
    } else if is_word(&token, "env") {
        out.push(String::from_str("**/.env"));
        out.push(String::from_str("**/.env.*"));
        assert(texts(out@) == before + expand(token@));
    } else if has_char(&token, '*') || has_char(&token, '/') {
        out.push(string_of(&token));
        assert(texts(out@) == before + expand(token@));
    } else {
        let mut p: Vec<char> = Vec::new();
        push_str(&mut p, "**/*.");
        push_range(&mut p, &token, 0, token.len());
        assert(token@.subrange(0, token.len() as int) == token@);
        out.push(string_of(&p));
        assert(texts(out@) == before + expand(token@));
    }
}

/// Compiles the user's comma-separated list into glob patterns. Each word is
/// trimmed; an empty word gives nothing; `docker` and `env`, in any case of
/// letters, give their fixed patterns; a word with `*` or `/` stands as it
/// is; any other word `w` gives `**/*.w`. No list gives no pattern.
pub fn parse_patterns(patterns: &Option<String>) -> (out: Vec<String>)
    ensures
        texts(out@) == match *patterns {
            Some(list) => patterns_of(list@),
            None => Seq::empty(),
        },
{
    let mut out: Vec<String> = Vec::new();
    match patterns {
        Some(list) => {
            let chars = chars_of(list.as_str());
            let parts = split(&chars, ',');
            let mut i: usize = 0;
            assert(rows(parts@).take(0) == Seq::<Seq<char>>::empty());
            assert(texts(out@) == compiled(rows(parts@).take(0)));
            while i < parts.len()
                invariant
                    i <= parts.len(),
                    texts(out@) == compiled(rows(parts@).take(i as int)),
                decreases parts.len() - i,
            {
                proof {
                    let next = rows(parts@).take(i + 1);
                    assert(next.drop_last() == rows(parts@).take(i as int));
                    assert(next.last() == parts@[i as int]@);
                }
                push_expansion(&mut out, &parts[i]);
                i += 1;
            }
            assert(rows(parts@).take(parts.len() as int) == rows(parts@));
        },
        None => {
            assert(texts(out@) == Seq::<Seq<char>>::empty());
        },
    }
    out
}

/// An include pattern as the glob it is matched by: `docker` and
/// `dockerfile`, in any case of letters, stand for `**/Dockerfile`, `env` for
/// `**/.env*`; a pattern with `*` or `/` stands for itself; any other word `w`
/// for `**/*.w`.
pub open spec fn include_glob(pattern: Seq<char>) -> Seq<char> {
    if same_word(pattern, "dockerfile"@) || same_word(pattern, "docker"@) {
        "**/Dockerfile"@
    } else if same_word(pattern, "env"@) {
        "**/.env*"@
    } else if pattern.contains('*') || pattern.contains('/') {
        pattern
    } else {
        "**/*."@ + pattern
    }
}

/// The globs of a list of include patterns.
pub open spec fn include_globs(patterns: Seq<Seq<char>>) -> Seq<Seq<char>> {
    Seq::new(patterns.len(), |i: int| include_glob(patterns[i]))
}

/// The glob by which the include pattern `pattern` is matched.
pub fn to_include_glob(pattern: &str) -> (glob: String)
    ensures
        glob@ == include_glob(pattern@),
{
    let chars = chars_of(pattern);
    if is_word(&chars, "dockerfile") || is_word(&chars, "docker") {
        String::from_str("**/Dockerfile")
    } else if is_word(&chars, "env") {
        String::from_str("**/.env*")
    } else if has_char(&chars, '*') || has_char(&chars, '/') {
        string_of(&chars)
    } else {
        let mut p: Vec<char> = Vec::new();
        push_str(&mut p, "**/*.");
        push_range(&mut p, &chars, 0, chars.len());
        assert(chars@.subrange(0, chars.len() as int) == chars@);
        string_of(&p)
    }
}

/// The globs by which the include patterns are matched.
pub fn to_include_globs(patterns: &Vec<String>) -> (globs: Vec<String>)
    ensures
        texts(globs@) == include_globs(texts(patterns@)),
{
    let mut globs: Vec<String> = Vec::new();
    let mut i: usize = 0;
    while i < patterns.len()
        invariant
            i <= patterns.len(),
            texts(globs@) == include_globs(texts(patterns@)).take(i as int),
        decreases patterns.len() - i,
    {
        let ghost before = texts(globs@);
        let glob = to_include_glob(patterns[i].as_str());
        globs.push(glob);
        proof {
            let all = include_globs(texts(patterns@));
            assert(texts(globs@) == before.push(all[i as int]));
            assert(all.take(i + 1) == all.take(i as int).push(all[i as int]));
        }
        i += 1;
    }
    proof {
        let all = include_globs(texts(patterns@));
        assert(all.take(patterns.len() as int) == all);
    }
    globs
}

/// A pattern with `!` in front, unless it has one.
pub open spec fn negated(pattern: Seq<char>) -> Seq<char> {
    if pattern.len() > 0 && pattern[0] == '!' {
        pattern
    } else {
        seq!['!'] + pattern
    }
}

/// An exclude pattern as a rule that excludes. Whitespace at its end does
/// not count. A pattern that starts with `!` stands as it is; a pattern with
/// `*` or `/` is negated; any other word `w` gives `!**/*.w`.
pub open spec fn exclude_rule(pattern: Seq<char>) -> Seq<char> {
    let p = trim_end(pattern);
    if (p.len() > 0 && p[0] == '!') || p.contains('*') || p.contains('/') {
        negated(p)
    } else {
        "!**/*."@ + p
    }
}

/// The rules of the user's exclude patterns.
pub open spec fn user_rules(patterns: Seq<Seq<char>>) -> Seq<Seq<char>> {
    Seq::new(patterns.len(), |i: int| exclude_rule(patterns[i]))
}

/// Puts `!` before a pattern that does not start with one.
pub fn negate(pattern: &str) -> (rule: String)
    ensures
        rule@ == negated(pattern@),
{
    let chars = chars_of(pattern);
    if chars.len() > 0 && chars[0] == '!' {
        string_of(&chars)
    } else {
        let mut r: Vec<char> = Vec::new();
        r.push('!');
        push_range(&mut r, &chars, 0, chars.len());
        assert(chars@.subrange(0, chars.len() as int) == chars@);
        string_of(&r)
    }
}

/// Turns an exclude pattern into the rule that excludes what it matches.
pub fn to_exclude_rule(pattern: &str) -> (rule: String)
    ensures
        rule@ == exclude_rule(pattern@),
{
    let all = chars_of(pattern);
    let mut end: usize = all.len();
    while end > 0 && is_whitespace(all[end - 1])
        invariant
            end <= all.len(),
            forall|k: int| end <= k < all.len() ==> is_space(#[trigger] all@[k]),
        decreases end,
    {
        end -= 1;
    }
    let mut chars: Vec<char> = Vec::new();
    push_range(&mut chars, &all, 0, end);
    proof {
        lemma_trim_end_take(all@, end as int);
        assert(chars@ == all@.take(end as int));
        assert(trim_end(chars@) == chars@) by {
            if chars@.len() > 0 {
                assert(chars@.last() == all@[end - 1]);
            }
        }
    }
    if (chars.len() > 0 && chars[0] == '!') || has_char(&chars, '*') || has_char(&chars, '/') {
        let word = string_of(&chars);
        negate(word.as_str())
    } else {
        let mut r: Vec<char> = Vec::new();
        push_str(&mut r, "!**/*.");
        push_range(&mut r, &chars, 0, chars.len());
        assert(chars@.subrange(0, chars.len() as int) == chars@);
        string_of(&r)
    }
}

/// A rule that excludes: a line that starts with `!`.
pub open spec fn is_rule(rule: Seq<char>) -> bool {
    rule.len() > 0 && rule[0] == '!'
}

/// The rule that excludes what `pattern` matches: the pattern negated.
#[verifier::opaque]
pub open spec fn rule_of(pattern: Seq<char>) -> Seq<char> {
    negated(pattern)
}

/// The rules of the patterns.
pub open spec fn excluding(patterns: Seq<Seq<char>>) -> Seq<Seq<char>> {
    Seq::new(patterns.len(), |i: int| rule_of(patterns[i]))
}

/// Appends the rule that excludes `pattern` to `v`.
fn push_rule(v: &mut Vec<String>, pattern: &str)
    ensures
        texts(final(v)@) == texts(old(v)@).push(rule_of(pattern@)),
{
    reveal(rule_of);
    v.push(negate(pattern));
    assert(texts(v@) =~= texts(old(v)@).push(rule_of(pattern@)));
}

/// Version control, editor state and scratch directories.
pub open spec fn general_patterns() -> Seq<Seq<char>> {
    seq![
        "**/.git/**"@,
        "**/.svn/**"@,
        "**/.hg/**"@,
        "**/.DS_Store"@,
        "**/.idea/**"@,
        "**/*.swp"@,
        "**/.history/**"@,
        "**/.cache/**"@,
        "**/tmp/**"@,
        "**/temp/**"@,
    ]
}

/// Appends the rules of these patterns to `v`.
fn push_general_rules(v: &mut Vec<String>)
    ensures
        texts(final(v)@) == texts(old(v)@) + excluding(general_patterns()),
{
    push_rule(v, "**/.git/**");
    push_rule(v, "**/.svn/**");
    push_rule(v, "**/.hg/**");
    push_rule(v, "**/.DS_Store");
    push_rule(v, "**/.idea/**");
    push_rule(v, "**/*.swp");
    push_rule(v, "**/.history/**");
    push_rule(v, "**/.cache/**");
    push_rule(v, "**/tmp/**");
    push_rule(v, "**/temp/**");
    assert(texts(v@) =~= texts(old(v)@) + excluding(general_patterns()));
}

/// Python caches and virtual environments.
pub open spec fn python_patterns() -> Seq<Seq<char>> {
    seq![
        "**/__pycache__/**"@,
        "**/.pytest_cache/**"@,
        "**/.mypy_cache/**"@,
        "**/.venv/**"@,
        "**/venv/**"@,
        "**/.virtualenv/**"@,
    ]
}

/// Appends the rules of these patterns to `v`.
fn push_python_rules(v: &mut Vec<String>)
    ensures
        texts(final(v)@) == texts(old(v)@) + excluding(python_patterns()),
{
    push_rule(v, "**/__pycache__/**");
    push_rule(v, "**/.pytest_cache/**");
    push_rule(v, "**/.mypy_cache/**");
    push_rule(v, "**/.venv/**");
    push_rule(v, "**/venv/**");
    push_rule(v, "**/.virtualenv/**");
    assert(texts(v@) =~= texts(old(v)@) + excluding(python_patterns()));
}

/// Node.js packages, lock files and build outputs.
pub open spec fn node_patterns() -> Seq<Seq<char>> {
    seq![
        "**/node_modules/**"@,
        "**/npm-debug.log"@,
        "**/yarn.lock"@,
        "**/pnpm-lock.yaml"@,
        "**/package-lock.json"@,
        "**/dist/**"@,
        "**/build/**"@,
        "**/out/**"@,
    ]
}

/// Appends the rules of these patterns to `v`.
fn push_node_rules(v: &mut Vec<String>)
    ensures
        texts(final(v)@) == texts(old(v)@) + excluding(node_patterns()),
{
    push_rule(v, "**/node_modules/**");
    push_rule(v, "**/npm-debug.log");
    push_rule(v, "**/yarn.lock");
    push_rule(v, "**/pnpm-lock.yaml");
    push_rule(v, "**/package-lock.json");
    push_rule(v, "**/dist/**");
    push_rule(v, "**/build/**");
    push_rule(v, "**/out/**");
    assert(texts(v@) =~= texts(old(v)@) + excluding(node_patterns()));
}

/// Rust build outputs.
pub open spec fn rust_patterns() -> Seq<Seq<char>> {
    seq![
        "**/target/**"@,
        "**/Cargo.lock"@,
        "**/.cargo/**"@,
    ]
}

/// Appends the rules of these patterns to `v`.
fn push_rust_rules(v: &mut Vec<String>)
    ensures
        texts(final(v)@) == texts(old(v)@) + excluding(rust_patterns()),
{
    push_rule(v, "**/target/**");
    push_rule(v, "**/Cargo.lock");
    push_rule(v, "**/.cargo/**");
    assert(texts(v@) =~= texts(old(v)@) + excluding(rust_patterns()));
}

/// Java build outputs and archives.
pub open spec fn java_patterns() -> Seq<Seq<char>> {
    seq![
        "**/target/**"@,
        "**/.gradle/**"@,
        "**/build/**"@,
        "**/*.class"@,
        "**/*.jar"@,
        "**/*.war"@,
    ]
}

/// Appends the rules of these patterns to `v`.
fn push_java_rules(v: &mut Vec<String>)
    ensures
        texts(final(v)@) == texts(old(v)@) + excluding(java_patterns()),
{
    push_rule(v, "**/target/**");
    push_rule(v, "**/.gradle/**");
    push_rule(v, "**/build/**");
    push_rule(v, "**/*.class");
    push_rule(v, "**/*.jar");
    push_rule(v, "**/*.war");
    assert(texts(v@) =~= texts(old(v)@) + excluding(java_patterns()));
}

/// .NET build outputs.
pub open spec fn dotnet_patterns() -> Seq<Seq<char>> {
    seq![
        "**/bin/**"@,
        "**/obj/**"@,
    ]
}

/// Appends the rules of these patterns to `v`.
fn push_dotnet_rules(v: &mut Vec<String>)
    ensures
        texts(final(v)@) == texts(old(v)@) + excluding(dotnet_patterns()),
{
    push_rule(v, "**/bin/**");
    push_rule(v, "**/obj/**");
    assert(texts(v@) =~= texts(old(v)@) + excluding(dotnet_patterns()));
}

/// Docker state and local overrides.
pub open spec fn docker_patterns() -> Seq<Seq<char>> {
    seq![
        "**/.docker/**"@,
        "**/docker-compose.override.yml"@,
        "**/docker-compose.override.yaml"@,
    ]
}

/// Appends the rules of these patterns to `v`.
fn push_docker_rules(v: &mut Vec<String>)
    ensures
        texts(final(v)@) == texts(old(v)@) + excluding(docker_patterns()),
{
    push_rule(v, "**/.docker/**");
    push_rule(v, "**/docker-compose.override.yml");
    push_rule(v, "**/docker-compose.override.yaml");
    assert(texts(v@) =~= texts(old(v)@) + excluding(docker_patterns()));
}

/// Lock files.
pub open spec fn lock_patterns() -> Seq<Seq<char>> {
    seq![
        "**/*.lock"@,
        "**/Gemfile.lock"@,
        "**/Pipfile.lock"@,
    ]
}

/// Appends the rules of these patterns to `v`.
fn push_lock_rules(v: &mut Vec<String>)
    ensures
        texts(final(v)@) == texts(old(v)@) + excluding(lock_patterns()),
{
    push_rule(v, "**/*.lock");
    push_rule(v, "**/Gemfile.lock");
    push_rule(v, "**/Pipfile.lock");
    assert(texts(v@) =~= texts(old(v)@) + excluding(lock_patterns()));
}

/// Logs, coverage data and the caches of frameworks.
pub open spec fn misc_patterns() -> Seq<Seq<char>> {
    seq![
        "**/*.log"@,
        "**/coverage/**"@,
        "**/.nyc_output/**"@,
        "**/.serverless/**"@,
        "**/.aws-sam/**"@,
        "**/.terraform/**"@,
        "**/.next/**"@,
        "**/.nuxt/**"@,
        "**/.angular/**"@,
    ]
}

/// Appends the rules of these patterns to `v`.
fn push_misc_rules(v: &mut Vec<String>)
    ensures
        texts(final(v)@) == texts(old(v)@) + excluding(misc_patterns()),
{
    push_rule(v, "**/*.log");
    push_rule(v, "**/coverage/**");
    push_rule(v, "**/.nyc_output/**");
    push_rule(v, "**/.serverless/**");
    push_rule(v, "**/.aws-sam/**");
    push_rule(v, "**/.terraform/**");
    push_rule(v, "**/.next/**");
    push_rule(v, "**/.nuxt/**");
    push_rule(v, "**/.angular/**");
    assert(texts(v@) =~= texts(old(v)@) + excluding(misc_patterns()));
}

/// Compiled and object files.
pub open spec fn binary_patterns() -> Seq<Seq<char>> {
    seq![
        "**/*.pyc"@,
        "**/*.pyo"@,
        "**/*.pyd"@,
        "**/*.so"@,
        "**/*.dylib"@,
        "**/*.dll"@,
        "**/*.exe"@,
        "**/*.o"@,
    ]
}

/// Appends the rules of these patterns to `v`.
fn push_binary_rules(v: &mut Vec<String>)
    ensures
        texts(final(v)@) == texts(old(v)@) + excluding(binary_patterns()),
{
    push_rule(v, "**/*.pyc");
    push_rule(v, "**/*.pyo");
    push_rule(v, "**/*.pyd");
    push_rule(v, "**/*.so");
    push_rule(v, "**/*.dylib");
    push_rule(v, "**/*.dll");
    push_rule(v, "**/*.exe");
    push_rule(v, "**/*.o");
    assert(texts(v@) =~= texts(old(v)@) + excluding(binary_patterns()));
}

/// More object files, and databases.
pub open spec fn database_patterns() -> Seq<Seq<char>> {
    seq![
        "**/*.obj"@,
        "**/Thumbs.db"@,
        "**/*.sqlite"@,
        "**/*.db"@,
    ]
}

/// Appends the rules of these patterns to `v`.
fn push_database_rules(v: &mut Vec<String>)
    ensures
        texts(final(v)@) == texts(old(v)@) + excluding(database_patterns()),
{
    push_rule(v, "**/*.obj");
    push_rule(v, "**/Thumbs.db");
    push_rule(v, "**/*.sqlite");
    push_rule(v, "**/*.db");
    assert(texts(v@) =~= texts(old(v)@) + excluding(database_patterns()));
}

/// Images.
pub open spec fn image_patterns() -> Seq<Seq<char>> {
    seq![
        "**/*.png"@,
        "**/*.jpg"@,
        "**/*.jpeg"@,
        "**/*.gif"@,
        "**/*.ico"@,
        "**/*.bmp"@,
        "**/*.tiff"@,
        "**/*.tif"@,
        "**/*.webp"@,
        "**/*.svg"@,
        "**/*.psd"@,
        "**/*.ai"@,
        "**/*.xcf"@,
    ]
}

/// Appends the rules of these patterns to `v`.
fn push_image_rules(v: &mut Vec<String>)
    ensures
        texts(final(v)@) == texts(old(v)@) + excluding(image_patterns()),
{
    push_rule(v, "**/*.png");
    push_rule(v, "**/*.jpg");
    push_rule(v, "**/*.jpeg");
    push_rule(v, "**/*.gif");
    push_rule(v, "**/*.ico");
    push_rule(v, "**/*.bmp");
    push_rule(v, "**/*.tiff");
    push_rule(v, "**/*.tif");
    push_rule(v, "**/*.webp");
    push_rule(v, "**/*.svg");
    push_rule(v, "**/*.psd");
    push_rule(v, "**/*.ai");
    push_rule(v, "**/*.xcf");
    assert(texts(v@) =~= texts(old(v)@) + excluding(image_patterns()));
}

/// Video.
pub open spec fn video_patterns() -> Seq<Seq<char>> {
    seq![
        "**/*.mp4"@,
        "**/*.mov"@,
        "**/*.avi"@,
        "**/*.mkv"@,
        "**/*.wmv"@,
        "**/*.flv"@,
        "**/*.webm"@,
        "**/*.m4v"@,
        "**/*.3gp"@,
    ]
}

/// Appends the rules of these patterns to `v`.
fn push_video_rules(v: &mut Vec<String>)
    ensures
        texts(final(v)@) == texts(old(v)@) + excluding(video_patterns()),
{
    push_rule(v, "**/*.mp4");
    push_rule(v, "**/*.mov");
    push_rule(v, "**/*.avi");
    push_rule(v, "**/*.mkv");
    push_rule(v, "**/*.wmv");
    push_rule(v, "**/*.flv");
    push_rule(v, "**/*.webm");
    push_rule(v, "**/*.m4v");
    push_rule(v, "**/*.3gp");
    assert(texts(v@) =~= texts(old(v)@) + excluding(video_patterns()));
}

/// Audio.
pub open spec fn audio_patterns() -> Seq<Seq<char>> {
    seq![
        "**/*.mp3"@,
        "**/*.wav"@,
        "**/*.ogg"@,
        "**/*.m4a"@,
        "**/*.flac"@,
        "**/*.aac"@,
        "**/*.wma"@,
        "**/*.mid"@,
        "**/*.midi"@,
    ]
}

/// Appends the rules of these patterns to `v`.
fn push_audio_rules(v: &mut Vec<String>)
    ensures
        texts(final(v)@) == texts(old(v)@) + excluding(audio_patterns()),
{
    push_rule(v, "**/*.mp3");
    push_rule(v, "**/*.wav");
    push_rule(v, "**/*.ogg");
    push_rule(v, "**/*.m4a");
    push_rule(v, "**/*.flac");
    push_rule(v, "**/*.aac");
    push_rule(v, "**/*.wma");
    push_rule(v, "**/*.mid");
    push_rule(v, "**/*.midi");
    assert(texts(v@) =~= texts(old(v)@) + excluding(audio_patterns()));
}

/// Documents and archives.
pub open spec fn document_patterns() -> Seq<Seq<char>> {
    seq![
        "**/*.pdf"@,
        "**/*.zip"@,
        "**/*.rar"@,
        "**/*.7z"@,
        "**/*.tar"@,
        "**/*.gz"@,
        "**/*.bz2"@,
        "**/*.xz"@,
        "**/*.doc"@,
        "**/*.docx"@,
        "**/*.ppt"@,
        "**/*.pptx"@,
        "**/*.xls"@,
        "**/*.xlsx"@,
    ]
}

/// Appends the rules of these patterns to `v`.
fn push_document_rules(v: &mut Vec<String>)
    ensures
        texts(final(v)@) == texts(old(v)@) + excluding(document_patterns()),
{
    push_rule(v, "**/*.pdf");
    push_rule(v, "**/*.zip");
    push_rule(v, "**/*.rar");
    push_rule(v, "**/*.7z");
    push_rule(v, "**/*.tar");
    push_rule(v, "**/*.gz");
    push_rule(v, "**/*.bz2");
    push_rule(v, "**/*.xz");
    push_rule(v, "**/*.doc");
    push_rule(v, "**/*.docx");
    push_rule(v, "**/*.ppt");
    push_rule(v, "**/*.pptx");
    push_rule(v, "**/*.xls");
    push_rule(v, "**/*.xlsx");
    assert(texts(v@) =~= texts(old(v)@) + excluding(document_patterns()));
}

/// Editor swap files.
pub open spec fn editor_patterns() -> Seq<Seq<char>> {
    seq![
        "**/*.swo"@,
    ]
}

/// Appends the rules of these patterns to `v`.
fn push_editor_rules(v: &mut Vec<String>)
    ensures
        texts(final(v)@) == texts(old(v)@) + excluding(editor_patterns()),
{
    push_rule(v, "**/*.swo");
    assert(texts(v@) =~= texts(old(v)@) + excluding(editor_patterns()));
}

/// The patterns of what is excluded in any case, in the order in which
/// their rules are applied.
pub open spec fn default_patterns() -> Seq<Seq<char>> {
    general_patterns() + python_patterns() + node_patterns() + rust_patterns() + java_patterns() + dotnet_patterns() + docker_patterns() + lock_patterns() + misc_patterns() + binary_patterns() + database_patterns() + image_patterns() + video_patterns() + audio_patterns() + document_patterns() + editor_patterns()
}

/// The rules that always exclude: the default patterns, each negated.
pub open spec fn default_exclude_texts() -> Seq<Seq<char>> {
    excluding(default_patterns())
}

/// The rules that always exclude: version control and editor state, build
/// outputs and caches, lock files, logs, binaries, databases and media.
pub fn default_excludes() -> (v: Vec<String>)
    ensures
        texts(v@) == default_exclude_texts(),
{
    let mut v: Vec<String> = Vec::new();
    assert(texts(v@) == Seq::<Seq<char>>::empty());
    push_general_rules(&mut v);
    push_python_rules(&mut v);
    push_node_rules(&mut v);
    push_rust_rules(&mut v);
    push_java_rules(&mut v);
    push_dotnet_rules(&mut v);
    push_docker_rules(&mut v);
    push_lock_rules(&mut v);
    push_misc_rules(&mut v);
    push_binary_rules(&mut v);
    push_database_rules(&mut v);
    push_image_rules(&mut v);
    push_video_rules(&mut v);
    push_audio_rules(&mut v);
    push_document_rules(&mut v);
    push_editor_rules(&mut v);
    assert(texts(v@) =~= default_exclude_texts());
    v
}

/// Whether a rule excludes all that lies in a directory: it ends with `/**`.
pub open spec fn covers_directory(rule: Seq<char>) -> bool {
    rule.len() >= 3 && rule[rule.len() - 3] == '/' && rule[rule.len() - 2] == '*' && rule[rule.len()
        - 1] == '*'
}

/// The rule that excludes the directory itself of which `rule` excludes the
/// content: `rule` without its last two characters, so that it ends with `/`.
pub open spec fn directory_rule(rule: Seq<char>) -> Seq<char> {
    rule.take(rule.len() - 2)
}

/// The rules with, after each rule that excludes the content of a
/// directory, the rule that excludes the directory.
pub open spec fn with_directories(rules: Seq<Seq<char>>) -> Seq<Seq<char>>
    decreases rules.len(),
{
    if rules.len() == 0 {
        Seq::empty()
    } else if covers_directory(rules.last()) {
        with_directories(rules.drop_last()).push(rules.last()).push(directory_rule(rules.last()))
    } else {
        with_directories(rules.drop_last()).push(rules.last())
    }
}

/// All rules that exclude, lowest precedence first: the fixed ones, then the
/// user's patterns as rules; and after each rule for the content of a
/// directory the rule for the directory itself.
pub open spec fn exclude_rule_texts(excludes: Seq<Seq<char>>) -> Seq<Seq<char>> {
    with_directories(default_exclude_texts() + user_rules(excludes))
}

/// Every rule of the list is a rule that excludes.
pub open spec fn all_rules(rules: Seq<Seq<char>>) -> bool {
    forall|i: int| 0 <= i < rules.len() ==> is_rule(#[trigger] rules[i])
}

/// Adding the directory rules to rules that exclude gives rules that
/// exclude.
proof fn lemma_with_directories_rules(rules: Seq<Seq<char>>)
    requires
        all_rules(rules),
    ensures
        all_rules(with_directories(rules)),
    decreases rules.len(),
{
    if rules.len() > 0 {
        let before = rules.drop_last();
        assert forall|i: int| 0 <= i < before.len() implies is_rule(#[trigger] before[i]) by {
            assert(before[i] == rules[i]);
        }
        lemma_with_directories_rules(before);
        assert(is_rule(rules.last()));
    }
}

/// The rules handed to the directory walk, lowest precedence first: the
/// fixed rules, then the user's exclude patterns as rules, and after each
/// rule for the content of a directory the rule for the directory itself.
/// Every one of them starts with `!`.
pub fn exclude_rules(exclude_patterns: &Vec<String>) -> (rules: Vec<String>)
    ensures
        texts(rules@) == exclude_rule_texts(texts(exclude_patterns@)),
        all_rules(texts(rules@)),
{
    let mut plain = default_excludes();
    let mut i: usize = 0;
    assert(texts(plain@) == default_exclude_texts() + user_rules(texts(exclude_patterns@)).take(0));
    while i < exclude_patterns.len()
        invariant
            i <= exclude_patterns.len(),
            texts(plain@) == default_exclude_texts() + user_rules(texts(exclude_patterns@)).take(
                i as int,
            ),
        decreases exclude_patterns.len() - i,
    {
        let rule = to_exclude_rule(exclude_patterns[i].as_str());
        let ghost before = texts(plain@);
        let ghost all = user_rules(texts(exclude_patterns@));
        plain.push(rule);
        proof {
            assert(texts(plain@) == before.push(rule@));
            assert(all[i as int] == rule@);
            assert(all.take(i + 1) == all.take(i as int).push(rule@));
            assert(before.push(rule@) == default_exclude_texts() + all.take(i + 1));
        }
        i += 1;
    }
    assert(user_rules(texts(exclude_patterns@)).take(exclude_patterns.len() as int)
        == user_rules(texts(exclude_patterns@)));
    let mut rules: Vec<String> = Vec::new();
    let mut k: usize = 0;
    proof {
        assert(texts(plain@).take(0) == Seq::<Seq<char>>::empty());
        assert(texts(rules@) == with_directories(texts(plain@).take(0)));
    }
    while k < plain.len()
        invariant
            k <= plain.len(),
            texts(rules@) == with_directories(texts(plain@).take(k as int)),
        decreases plain.len() - k,
    {
        let ghost before = texts(rules@);
        let chars = chars_of(plain[k].as_str());
        let n = chars.len();
        proof {
            let next = texts(plain@).take(k + 1);
            assert(next.drop_last() == texts(plain@).take(k as int));
            assert(next.last() == chars@);
        }
        rules.push(string_of(&chars));
        assert(texts(rules@) == before.push(chars@));
        if n >= 3 && chars[n - 3] == '/' && chars[n - 2] == '*' && chars[n - 1] == '*' {
            let ghost one = texts(rules@);
            rules.push(crate::text::string_of_range(&chars, 0, n - 2));
            assert(texts(rules@) == one.push(directory_rule(chars@)));
        }
        k += 1;
    }
    proof {
        assert(texts(plain@).take(plain.len() as int) == texts(plain@));
        let base = default_exclude_texts() + user_rules(texts(exclude_patterns@));
        assert forall|j: int| 0 <= j < base.len() implies is_rule(#[trigger] base[j]) by {
            reveal(rule_of);
            reveal_strlit("!**/*.");
        }
        lemma_with_directories_rules(base);
    }
    rules
}

/// The rules among the lines of an ignore file: each line trimmed, without
/// the empty ones and those that start with `#`.
pub open spec fn rule_lines(ls: Seq<Seq<char>>) -> Seq<Seq<char>>
    decreases ls.len(),
{
    if ls.len() == 0 {
        Seq::empty()
    } else {
        let rule = trim(ls.last());
        if rule.len() == 0 || rule[0] == '#' {
            rule_lines(ls.drop_last())
        } else {
            rule_lines(ls.drop_last()).push(rule)
        }
    }
}

/// Reads the rules of an ignore file from its text: one per line, trimmed;
/// empty lines and comment lines, which start with `#`, are left out.
pub fn parse_ignore_file(contents: &str) -> (rules: Vec<String>)
    ensures
        texts(rules@) == rule_lines(lines(contents@)),
{
    let chars = chars_of(contents);
    let ls = split_lines(&chars);
    let mut rules: Vec<String> = Vec::new();
    let mut i: usize = 0;
    assert(rows(ls@).take(0) == Seq::<Seq<char>>::empty());
    assert(texts(rules@) == rule_lines(rows(ls@).take(0)));
    while i < ls.len()
        invariant
            i <= ls.len(),
            texts(rules@) == rule_lines(rows(ls@).take(i as int)),
        decreases ls.len() - i,
    {
        proof {
            let next = rows(ls@).take(i + 1);
            assert(next.drop_last() == rows(ls@).take(i as int));
            assert(next.last() == ls@[i as int]@);
        }
        let (from, to) = trim_bounds(&ls[i]);
        if from < to && ls[i][from] != '#' {
            let rule = crate::text::string_of_range(&ls[i], from, to);
            rules.push(rule);
            assert(texts(rules@) == rule_lines(rows(ls@).take(i + 1)));
        }
        i += 1;
    }
    assert(rows(ls@).take(ls.len() as int) == rows(ls@));
    rules
}

/// The two names of a comma-separated pair, each trimmed: there are exactly
/// two, and neither is empty.
pub open spec fn pair_of(list: Seq<char>) -> Option<(Seq<char>, Seq<char>)> {
    let pieces = split_on(list, ',');
    if pieces.len() == 2 && trim(pieces[0]).len() > 0 && trim(pieces[1]).len() > 0 {
        Some((trim(pieces[0]), trim(pieces[1])))
    } else {
        None
    }
}

/// Reads the two branch names of an option such as `main,feature`. Anything
/// but two names with a comma between them is refused.
pub fn parse_branches(list: &str) -> (pair: Option<(String, String)>)
    ensures
        match pair {
            Some((a, b)) => pair_of(list@) == Some((a@, b@)),
            None => pair_of(list@) is None,
        },
{
    let chars = chars_of(list);
    let pieces = split(&chars, ',');
    if pieces.len() != 2 {
        return None;
    }
    proof {
        assert(rows(pieces@)[0] == pieces@[0]@);
        assert(rows(pieces@)[1] == pieces@[1]@);
    }
    let (a0, a1) = trim_bounds(&pieces[0]);
    let (b0, b1) = trim_bounds(&pieces[1]);
    if a0 == a1 || b0 == b1 {
        return None;
    }
    Some(
        (
            crate::text::string_of_range(&pieces[0], a0, a1),
            crate::text::string_of_range(&pieces[1], b0, b1),
        ),
    )
}

} // verus!
