//! The walk over a root: which entries enter the tree, which files become
//! records, and what a record holds. The directory is read elsewhere; each
//! entry and each file's bytes are handed in, in the order of discovery.

use crate::exclude::{exclude_outcome, is_rule_failure, rules_compile, ExcludeSet, RuleError};
use crate::filter::{include_outcome, passes};
use crate::normalize::{
    decode_lossy, mark_invalid, marked, replacement, shorten, shortened, utf8_lossy, wrap_chars,
    wrapped,
};
use crate::path::{depth, depth_of, extension, extension_of, path_names, tree_names};
use crate::pattern::{exclude_rule_texts, include_globs, to_include_globs};
use crate::text::{
    blank, chars_of, has_char, is_blank, lower, push_str, string_of, texts, to_lower,
};
use crate::tree::{
    coalesced, grown, has_path, leaf, lemma_grown_coalesced, lemma_grown_has_path,
    lemma_grown_keeps_paths, tree_text, Shape, TreeNode,
};
use vstd::prelude::*;

verus! {

/// One retained file as the template sees it, with the relative path under
/// which it stands in the tree.
pub struct FileRecord {
    pub path: String,
    pub extension: String,
    pub code: String,
    pub relative: String,
}

/// What a record holds.
pub ghost struct Record {
    pub path: Seq<char>,
    pub extension: Seq<char>,
    pub code: Seq<char>,
    pub relative: Seq<char>,
}

impl View for FileRecord {
    type V = Record;

    open spec fn view(&self) -> Record {
        Record {
            path: self.path@,
            extension: self.extension@,
            code: self.code@,
            relative: self.relative@,
        }
    }
}

/// What a list of records holds.
pub open spec fn records(files: Seq<FileRecord>) -> Seq<Record> {
    Seq::new(files.len(), |i: int| files[i]@)
}

impl Clone for FileRecord {
    fn clone(&self) -> (copy: FileRecord)
        ensures
            copy@ == self@,
    {
        FileRecord {
            path: self.path.clone(),
            extension: self.extension.clone(),
            code: self.code.clone(),
            relative: self.relative.clone(),
        }
    }
}

/// How files are shown.
#[derive(Clone, Copy)]
pub struct WalkOptions {
    /// Number the lines of each file.
    pub line_number: bool,
    /// Show a file's path as the root's label and the relative path.
    pub relative_paths: bool,
    /// Leave the tree out.
    pub exclude_from_tree: bool,
    /// Do not fence the content.
    pub no_codeblock: bool,
}

/// The deepest level at which an entry enters the tree in any case.
pub open spec fn tree_depth() -> nat {
    3
}

/// The text of a file: decoded, undecodable parts marked, long base64 runs
/// elided.
pub open spec fn normalized(bytes: Seq<u8>) -> Seq<char> {
    shortened(marked(utf8_lossy(bytes)))
}

/// The path under which a file is shown.
pub open spec fn shown_path(
    label: Seq<char>,
    relative: Seq<char>,
    absolute: Seq<char>,
    relative_paths: bool,
) -> Seq<char> {
    if relative_paths {
        label + seq!['/'] + relative
    } else {
        absolute
    }
}

/// The extension under which a file is shown: that of its path in lower
/// case, or none where the name is no text (it holds the replacement
/// character).
pub open spec fn shown_extension(absolute: Seq<char>) -> Seq<char> {
    let extension = lower(extension_of(absolute));
    if extension.contains(replacement()) {
        Seq::empty()
    } else {
        extension
    }
}

/// The text of a file as it is shown, from the decoded bytes: undecodable
/// parts marked, long base64 runs elided.
pub open spec fn tidied(decoded: Seq<char>) -> Seq<char> {
    shortened(marked(decoded))
}

/// The record of a file with the decoded text `decoded`, unless its text is
/// blank.
pub open spec fn record_from(
    label: Seq<char>,
    options: WalkOptions,
    relative: Seq<char>,
    absolute: Seq<char>,
    decoded: Seq<char>,
) -> Option<Record> {
    let text = tidied(decoded);
    let extension = shown_extension(absolute);
    if is_blank(text) {
        None
    } else {
        Some(
            Record {
                path: shown_path(label, relative, absolute, options.relative_paths),
                extension,
                code: wrapped(text, extension, options.line_number, options.no_codeblock),
                relative,
            },
        )
    }
}

/// The record of a file with the bytes `bytes`, unless its text is blank.
pub open spec fn record_of(
    label: Seq<char>,
    options: WalkOptions,
    relative: Seq<char>,
    absolute: Seq<char>,
    bytes: Seq<u8>,
) -> Option<Record> {
    record_from(label, options, relative, absolute, utf8_lossy(bytes))
}

/// Whether the code holds no replacement character.
pub open spec fn is_clean(code: Seq<char>) -> bool {
    !code.contains(replacement())
}

/// No record's code holds the replacement character.
pub proof fn lemma_record_code_clean(
    label: Seq<char>,
    options: WalkOptions,
    relative: Seq<char>,
    absolute: Seq<char>,
    decoded: Seq<char>,
)
    ensures
        record_from(label, options, relative, absolute, decoded) matches Some(r) ==> is_clean(
            r.code,
        ),
{
    crate::normalize::lemma_normal_clean(decoded);
    crate::normalize::lemma_wrapped_clean(
        tidied(decoded),
        shown_extension(absolute),
        options.line_number,
        options.no_codeblock,
    );
}

/// The text of a file as it is shown, from the decoded text.
pub fn tidy(decoded: &str) -> (text: Vec<char>)
    ensures
        text@ == tidied(decoded@),
{
    let chars = chars_of(decoded);
    let clean = mark_invalid(&chars);
    shorten(&clean)
}

/// The text of a file with the bytes `bytes`.
pub fn normalize(bytes: &[u8]) -> (text: Vec<char>)
    ensures
        text@ == normalized(bytes@),
{
    let decoded = decode_lossy(bytes);
    tidy(decoded.as_str())
}

/// Makes the record of the file at `absolute`, which stands at `relative`
/// below the root labelled `label` and holds the decoded text `decoded`:
/// none where its text is blank. The code holds no replacement character.
pub fn make_record_from(
    label: &str,
    options: &WalkOptions,
    relative: &str,
    absolute: &str,
    decoded: &str,
) -> (record: Option<FileRecord>)
    ensures
        match record {
            Some(r) => record_from(label@, *options, relative@, absolute@, decoded@) == Some(r@)
                && is_clean(r.code@),
            None => record_from(label@, *options, relative@, absolute@, decoded@) is None,
        },
{
    proof {
        lemma_record_code_clean(label@, *options, relative@, absolute@, decoded@);
    }
    let text = tidy(decoded);
    if blank(&text) {
        return None;
    }
    let raw = extension(absolute);
    let lowered = to_lower(&chars_of(raw.as_str()));
    let ext = if has_char(&lowered, '\u{FFFD}') {
        Vec::new()
    } else {
        lowered
    };
    let code = wrap_chars(&text, &ext, options.line_number, options.no_codeblock);
    let path = if options.relative_paths {
        let mut p: Vec<char> = Vec::new();
        push_str(&mut p, label);
        p.push('/');
        push_str(&mut p, relative);
        assert(p@ =~= label@ + seq!['/'] + relative@);
        string_of(&p)
    } else {
        String::from_str(absolute)
    };
    Some(
        FileRecord {
            path,
            extension: string_of(&ext),
            code: string_of(&code),
            relative: String::from_str(relative),
        },
    )
}

/// Makes the record of the file at `absolute`, which stands at `relative`
/// below the root labelled `label` and holds `bytes`: none where its text is
/// blank. The code holds no replacement character.
pub fn make_record(
    label: &str,
    options: &WalkOptions,
    relative: &str,
    absolute: &str,
    bytes: &[u8],
) -> (record: Option<FileRecord>)
    ensures
        match record {
            Some(r) => record_of(label@, *options, relative@, absolute@, bytes@) == Some(r@)
                && is_clean(r.code@),
            None => record_of(label@, *options, relative@, absolute@, bytes@) is None,
        },
{
    let decoded = decode_lossy(bytes);
    make_record_from(label, options, relative, absolute, decoded.as_str())
}

/// A walk in progress: the tree and the records so far.
pub struct Traversal {
    label: String,
    options: WalkOptions,
    globs: Vec<String>,
    excludes: ExcludeSet,
    tree: TreeNode,
    files: Vec<FileRecord>,
}

/// What a walk in progress holds.
pub ghost struct TraversalView {
    pub label: Seq<char>,
    pub options: WalkOptions,
    pub globs: Seq<Seq<char>>,
    pub excludes: Seq<Seq<char>>,
    pub tree: Shape,
    pub files: Seq<Record>,
}

/// What was found of an entry: whether the rules exclude it, and whether it
/// passes the include patterns.
pub ghost struct Verdict {
    pub excluded: bool,
    pub passed: bool,
}

/// Whether `verdict` is what may be found of the entry at `relative`.
pub open spec fn is_verdict(v: TraversalView, relative: Seq<char>, is_dir: bool, verdict: Verdict)
    -> bool {
    &&& exclude_outcome(v.excludes, relative, is_dir, verdict.excluded)
    &&& include_outcome(v.globs, relative, verdict.passed)
}

/// The walk after an entry was seen at `relative`. An excluded entry leaves
/// no trace. Any other entry enters the tree where the tree is kept and the
/// entry passed or lies no deeper than `tree_depth()`.
pub open spec fn visited(v: TraversalView, relative: Seq<char>, verdict: Verdict) -> TraversalView {
    TraversalView {
        label: v.label,
        options: v.options,
        globs: v.globs,
        excludes: v.excludes,
        tree: if !verdict.excluded && !v.options.exclude_from_tree && (verdict.passed || depth_of(
            relative,
        ) <= tree_depth()) {
            grown(v.tree, tree_names(relative))
        } else {
            v.tree
        },
        files: v.files,
    }
}

/// The walk after the bytes of the file at `relative` were read: where the
/// file is not excluded, passed the include patterns and has a record, the
/// record is added.
pub open spec fn filed(
    v: TraversalView,
    relative: Seq<char>,
    absolute: Seq<char>,
    bytes: Seq<u8>,
    verdict: Verdict,
) -> TraversalView {
    filed_text(v, relative, absolute, utf8_lossy(bytes), verdict)
}

/// The walk after the decoded text of the file at `relative` was handed in:
/// where the file is not excluded, passed the include patterns and has a
/// record, the record is added.
pub open spec fn filed_text(
    v: TraversalView,
    relative: Seq<char>,
    absolute: Seq<char>,
    decoded: Seq<char>,
    verdict: Verdict,
) -> TraversalView {
    match record_from(v.label, v.options, relative, absolute, decoded) {
        Some(r) if !verdict.excluded && verdict.passed => TraversalView {
            label: v.label,
            options: v.options,
            globs: v.globs,
            excludes: v.excludes,
            tree: v.tree,
            files: v.files.push(r),
        },
        _ => v,
    }
}

/// Whether a file at `relative` may have a record: it passes the include
/// patterns, and the rules do not exclude it.
pub open spec fn admitted(v: TraversalView, relative: Seq<char>) -> bool {
    &&& include_outcome(v.globs, relative, true)
    &&& exclude_outcome(v.excludes, relative, false, false)
}

/// Every record stands for a file that passed the include patterns and that
/// the rules do not exclude.
pub open spec fn selective(v: TraversalView) -> bool {
    forall|i: int| 0 <= i < v.files.len() ==> admitted(v, (#[trigger] v.files[i]).relative)
}

/// No record's code holds the replacement character.
pub open spec fn spotless(v: TraversalView) -> bool {
    forall|i: int| 0 <= i < v.files.len() ==> is_clean((#[trigger] v.files[i]).code)
}

/// What a finished walk hands out: the drawing of the tree, empty where the
/// tree is left out.
pub open spec fn tree_output(v: TraversalView) -> Seq<char> {
    if v.options.exclude_from_tree {
        Seq::empty()
    } else {
        tree_text(v.tree)
    }
}

/// An entry of the walk with what was read of it: its path below the root,
/// its full path, whether it is a directory, and its bytes where it is a file
/// that could be read.
pub struct Entry {
    pub relative: String,
    pub absolute: String,
    pub is_dir: bool,
    pub content: Option<Vec<u8>>,
}

/// What an entry holds.
pub ghost struct EntryView {
    pub relative: Seq<char>,
    pub absolute: Seq<char>,
    pub is_dir: bool,
    pub content: Option<Seq<u8>>,
}

impl View for Entry {
    type V = EntryView;

    open spec fn view(&self) -> EntryView {
        EntryView {
            relative: self.relative@,
            absolute: self.absolute@,
            is_dir: self.is_dir,
            content: match self.content {
                Some(bytes) => Some(bytes@),
                None => None,
            },
        }
    }
}

/// What a list of entries holds.
pub open spec fn entry_views(entries: Seq<Entry>) -> Seq<EntryView> {
    Seq::new(entries.len(), |i: int| entries[i]@)
}

/// The walk after one entry: it was seen, and where it is a file whose bytes
/// were read, they were taken.
pub open spec fn entered(v: TraversalView, entry: EntryView, verdict: Verdict) -> TraversalView {
    let seen = visited(v, entry.relative, verdict);
    match entry.content {
        Some(bytes) if !entry.is_dir => filed(seen, entry.relative, entry.absolute, bytes, verdict),
        _ => seen,
    }
}

/// The walk after the entries, in order, of each of which `verdicts` says
/// what was found.
pub open spec fn walked(v: TraversalView, entries: Seq<EntryView>, verdicts: Seq<Verdict>)
    -> TraversalView
    decreases entries.len(),
{
    if entries.len() == 0 || verdicts.len() != entries.len() {
        v
    } else {
        entered(
            walked(v, entries.drop_last(), verdicts.drop_last()),
            entries.last(),
            verdicts.last(),
        )
    }
}

/// `verdicts` says of each entry what may be found of it.
pub open spec fn are_verdicts(v: TraversalView, entries: Seq<EntryView>, verdicts: Seq<Verdict>)
    -> bool {
    &&& verdicts.len() == entries.len()
    &&& forall|i: int|
        0 <= i < entries.len() ==> is_verdict(
            v,
            (#[trigger] entries[i]).relative,
            entries[i].is_dir,
            verdicts[i],
        )
}

/// The walk at its start.
pub open spec fn started(
    label: Seq<char>,
    include_patterns: Seq<Seq<char>>,
    excludes: Seq<Seq<char>>,
    options: WalkOptions,
) -> TraversalView {
    TraversalView {
        label,
        options,
        globs: include_globs(include_patterns),
        excludes,
        tree: leaf(label),
        files: Seq::empty(),
    }
}

impl View for Traversal {
    type V = TraversalView;

    closed spec fn view(&self) -> TraversalView {
        TraversalView {
            label: self.label@,
            options: self.options,
            globs: texts(self.globs@),
            excludes: self.excludes@,
            tree: self.tree@,
            files: records(self.files@),
        }
    }
}

impl Traversal {
    /// Starts the walk of the root labelled `label` under the compiled rules
    /// `excludes`: the tree is its root, and there is no record yet.
    pub fn begin(
        label: &str,
        include_patterns: &Vec<String>,
        excludes: ExcludeSet,
        options: WalkOptions,
    ) -> (walk: Traversal)
        ensures
            walk@ == started(label@, texts(include_patterns@), excludes@, options),
            selective(walk@),
            spotless(walk@),
    {
        let walk = Traversal {
            label: String::from_str(label),
            options,
            globs: to_include_globs(include_patterns),
            excludes,
            tree: TreeNode::new(String::from_str(label)),
            files: Vec::new(),
        };
        assert(records(walk.files@) =~= Seq::<Record>::empty());
        walk
    }

    /// What the matchers find of the entry at `relative`: whether the rules
    /// exclude it, and whether it passes the include patterns.
    pub fn judge(&self, relative: &str, is_dir: bool) -> (found: (bool, bool))
        ensures
            is_verdict(self@, relative@, is_dir, Verdict { excluded: found.0, passed: found.1 }),
    {
        (self.excludes.excludes(relative, is_dir), passes(&self.globs, relative))
    }

    /// Takes note of an entry of which it is given whether the rules exclude
    /// it and whether it passes the include patterns: an excluded entry
    /// leaves no trace; any other enters the tree where the tree is kept and
    /// the entry passed or lies no deeper than three levels.
    pub fn note(&mut self, relative: &str, excluded: bool, passed: bool)
        ensures
            final(self)@ == visited(old(self)@, relative@, Verdict { excluded, passed }),
    {
        if !excluded && !self.options.exclude_from_tree && (passed || depth(relative) <= 3) {
            let names = path_names(relative, false);
            self.tree.add_path(&names);
        }
    }

    /// Takes the decoded text of a file of which it is given whether the
    /// rules exclude it and whether it passes the include patterns, and says
    /// whether a record was added: one is for a file that is not excluded,
    /// that passed, and whose text is not blank.
    pub fn keep_text(
        &mut self,
        relative: &str,
        absolute: &str,
        decoded: &str,
        excluded: bool,
        passed: bool,
    ) -> (added: bool)
        ensures
            final(self)@ == filed_text(
                old(self)@,
                relative@,
                absolute@,
                decoded@,
                Verdict { excluded, passed },
            ),
            added == (!excluded && passed && record_from(
                old(self)@.label,
                old(self)@.options,
                relative@,
                absolute@,
                decoded@,
            ) is Some),
            added ==> final(self)@.files == old(self)@.files.push(final(self)@.files.last())
                && final(self)@.files.last().relative == relative@,
            !added ==> final(self)@ == old(self)@,
            spotless(old(self)@) ==> spotless(final(self)@),
    {
        if excluded || !passed {
            return false;
        }
        let options = self.options;
        match make_record_from(self.label.as_str(), &options, relative, absolute, decoded) {
            Some(record) => {
                let ghost before = records(self.files@);
                self.files.push(record);
                proof {
                    assert(records(self.files@) =~= before.push(record@));
                    if spotless(old(self)@) {
                        assert forall|i: int| 0 <= i < self@.files.len() implies is_clean(
                            (#[trigger] self@.files[i]).code,
                        ) by {
                            if i < before.len() {
                                assert(self@.files[i] == old(self)@.files[i]);
                            }
                        }
                    }
                }
                true
            },
            None => false,
        }
    }

    /// Takes the bytes of a file of which the verdict is known.
    fn add_file_with(
        &mut self,
        relative: &str,
        absolute: &str,
        bytes: &[u8],
        excluded: bool,
        passed: bool,
    ) -> (added: bool)
        requires
            is_verdict(old(self)@, relative@, false, Verdict { excluded, passed }),
        ensures
            final(self)@ == filed(
                old(self)@,
                relative@,
                absolute@,
                bytes@,
                Verdict { excluded, passed },
            ),
            added == (!excluded && passed && record_of(
                old(self)@.label,
                old(self)@.options,
                relative@,
                absolute@,
                bytes@,
            ) is Some),
            selective(old(self)@) ==> selective(final(self)@),
            spotless(old(self)@) ==> spotless(final(self)@),
    {
        let decoded = decode_lossy(bytes);
        let added = self.keep_text(relative, absolute, decoded.as_str(), excluded, passed);
        proof {
            if selective(old(self)@) {
                assert forall|i: int| 0 <= i < self@.files.len() implies admitted(
                    self@,
                    (#[trigger] self@.files[i]).relative,
                ) by {
                    if i < old(self)@.files.len() {
                        assert(self@.files[i] == old(self)@.files[i]);
                        assert(admitted(old(self)@, old(self)@.files[i].relative));
                    }
                }
            }
        }
        added
    }

    /// Takes note of the entry at `relative`, a directory or not, and says
    /// whether its bytes are wanted: they are for a file that the rules do
    /// not exclude and that passes the include patterns.
    pub fn visit(&mut self, relative: &str, is_dir: bool) -> (wanted: bool)
        ensures
            exists|verdict: Verdict|
                {
                    &&& #[trigger] is_verdict(old(self)@, relative@, is_dir, verdict)
                    &&& final(self)@ == visited(old(self)@, relative@, verdict)
                    &&& wanted == (!verdict.excluded && verdict.passed && !is_dir)
                },
            selective(old(self)@) ==> selective(final(self)@),
            spotless(old(self)@) ==> spotless(final(self)@),
    {
        let (excluded, passed) = self.judge(relative, is_dir);
        self.note(relative, excluded, passed);
        proof {
            let verdict = Verdict { excluded, passed };
            assert(is_verdict(old(self)@, relative@, is_dir, verdict));
            if selective(old(self)@) {
                assert forall|i: int| 0 <= i < self@.files.len() implies admitted(
                    self@,
                    (#[trigger] self@.files[i]).relative,
                ) by {
                    assert(admitted(old(self)@, old(self)@.files[i].relative));
                }
            }
        }
        !excluded && passed && !is_dir
    }

    /// Takes the bytes of the file at `relative`, whose full path is
    /// `absolute`, and says whether a record was added: one is for a file
    /// that the rules do not exclude, that passes the include patterns and
    /// whose text is not blank.
    pub fn add_file(&mut self, relative: &str, absolute: &str, bytes: &[u8]) -> (added: bool)
        ensures
            exists|verdict: Verdict|
                {
                    &&& #[trigger] is_verdict(old(self)@, relative@, false, verdict)
                    &&& final(self)@ == filed(old(self)@, relative@, absolute@, bytes@, verdict)
                    &&& added == (!verdict.excluded && verdict.passed && record_of(
                        old(self)@.label,
                        old(self)@.options,
                        relative@,
                        absolute@,
                        bytes@,
                    ) is Some)
                },
            selective(old(self)@) ==> selective(final(self)@),
            spotless(old(self)@) ==> spotless(final(self)@),
    {
        let (excluded, passed) = self.judge(relative, false);
        let added = self.add_file_with(relative, absolute, bytes, excluded, passed);
        proof {
            assert(is_verdict(old(self)@, relative@, false, Verdict { excluded, passed }));
        }
        added
    }

    /// Takes one entry with what was read of it.
    fn take(&mut self, entry: &Entry) -> (found: (bool, bool))
        ensures
            is_verdict(
                old(self)@,
                entry@.relative,
                entry@.is_dir,
                Verdict { excluded: found.0, passed: found.1 },
            ),
            final(self)@ == entered(
                old(self)@,
                entry@,
                Verdict { excluded: found.0, passed: found.1 },
            ),
            selective(old(self)@) ==> selective(final(self)@),
            spotless(old(self)@) ==> spotless(final(self)@),
    {
        let (excluded, passed) = self.judge(entry.relative.as_str(), entry.is_dir);
        self.note(entry.relative.as_str(), excluded, passed);
        let ghost seen = self@;
        proof {
            if selective(old(self)@) {
                assert forall|i: int| 0 <= i < seen.files.len() implies admitted(
                    seen,
                    (#[trigger] seen.files[i]).relative,
                ) by {
                    assert(admitted(old(self)@, old(self)@.files[i].relative));
                }
            }
        }
        if !entry.is_dir {
            match &entry.content {
                Some(bytes) => {
                    self.add_file_with(
                        entry.relative.as_str(),
                        entry.absolute.as_str(),
                        bytes.as_slice(),
                        excluded,
                        passed,
                    );
                },
                None => {},
            }
        }
        (excluded, passed)
    }

    /// Ends the walk: the drawing of the tree, which is empty where the tree
    /// is left out, and the records in the order in which they were added.
    pub fn finish(self) -> (out: (String, Vec<FileRecord>))
        ensures
            out.0@ == tree_output(self@),
            records(out.1@) == self@.files,
    {
        let text = if self.options.exclude_from_tree {
            String::new()
        } else {
            self.tree.render()
        };
        (text, self.files)
    }
}

/// Whether `tree` and `files` are what the walk of `entries` hands out, given
/// what was found of each entry.
pub open spec fn is_traversal(
    start: TraversalView,
    entries: Seq<EntryView>,
    verdicts: Seq<Verdict>,
    tree: Seq<char>,
    files: Seq<Record>,
) -> bool {
    let end = walked(start, entries, verdicts);
    &&& are_verdicts(start, entries, verdicts)
    &&& tree == tree_output(end)
    &&& files == end.files
}

/// Whether `tree` and `files` are what the walk of `entries` hands out, for
/// some verdicts that may be found of the entries.
pub open spec fn is_walk(
    start: TraversalView,
    entries: Seq<EntryView>,
    tree: Seq<char>,
    files: Seq<Record>,
) -> bool {
    exists|verdicts: Seq<Verdict>| #[trigger] is_traversal(start, entries, verdicts, tree, files)
}

/// The start of a walk under the given patterns.
pub open spec fn walk_start(
    label: Seq<char>,
    include_patterns: Seq<Seq<char>>,
    exclude_patterns: Seq<Seq<char>>,
    options: WalkOptions,
) -> TraversalView {
    started(label, include_patterns, exclude_rule_texts(exclude_patterns), options)
}

/// Walks a directory root, labelled `label`, of which the entries are given
/// in the order of discovery, with their paths below the root. An
/// entry that the rules exclude leaves no trace. Any other entry enters the
/// tree where the tree is kept and the entry passes the include patterns or
/// lies no deeper than three levels. Each file among them that passes the
/// include patterns, whose bytes were read and whose text is not blank, gets
/// a record. Handed out are the drawing of the tree, empty where the tree is
/// left out, and the records in order; or the reason why the rules do not
/// compile.
pub fn traverse_directory(
    label: &str,
    entries: &Vec<Entry>,
    include_patterns: &Vec<String>,
    exclude_patterns: &Vec<String>,
    options: WalkOptions,
) -> (r: Result<(String, Vec<FileRecord>), RuleError>)
    ensures
        r is Ok <==> rules_compile(texts(exclude_patterns@)),
        r matches Err(e) ==> is_rule_failure(texts(exclude_patterns@), e),
        r matches Ok(out) ==> is_walk(
            walk_start(
                label@,
                texts(include_patterns@),
                texts(exclude_patterns@),
                options,
            ),
            entry_views(entries@),
            out.0@,
            records(out.1@),
        ),
        r matches Ok(out) ==> forall|i: int|
            0 <= i < out.1.len() ==> admitted(
                walk_start(
                    label@,
                    texts(include_patterns@),
                    texts(exclude_patterns@),
                    options,
                ),
                (#[trigger] out.1[i]).relative@,
            ) && is_clean(out.1[i].code@),
{
    let excludes = match ExcludeSet::new(exclude_patterns) {
        Ok(set) => set,
        Err(e) => {
            return Err(e);
        },
    };
    let mut walk = Traversal::begin(label, include_patterns, excludes, options);
    let ghost start = walk@;
    let ghost mut verdicts: Seq<Verdict> = Seq::empty();
    let mut i: usize = 0;
    proof {
        assert(entry_views(entries@).take(0) == Seq::<EntryView>::empty());
    }
    while i < entries.len()
        invariant
            i <= entries.len(),
            rules_compile(texts(exclude_patterns@)),
            start == walk_start(
                label@,
                texts(include_patterns@),
                texts(exclude_patterns@),
                options,
            ),
            walk@.globs == start.globs,
            walk@.excludes == start.excludes,
            are_verdicts(start, entry_views(entries@).take(i as int), verdicts),
            walk@ == walked(start, entry_views(entries@).take(i as int), verdicts),
            selective(walk@),
            spotless(walk@),
        decreases entries.len() - i,
    {
        let ghost before = verdicts;
        let found = walk.take(&entries[i]);
        proof {
            let one = Verdict { excluded: found.0, passed: found.1 };
            verdicts = before.push(one);
            let next = entry_views(entries@).take(i + 1);
            assert(next.drop_last() == entry_views(entries@).take(i as int));
            assert(next.last() == entries@[i as int]@);
            assert(verdicts.drop_last() == before);
            assert forall|k: int| 0 <= k < next.len() implies is_verdict(
                start,
                (#[trigger] next[k]).relative,
                next[k].is_dir,
                verdicts[k],
            ) by {
                if k < i {
                    assert(next[k] == entry_views(entries@).take(i as int)[k]);
                }
            }
        }
        i += 1;
    }
    proof {
        assert(entry_views(entries@).take(entries.len() as int) == entry_views(entries@));
    }
    let ghost end = walk@;
    let out = walk.finish();
    proof {
        assert(is_traversal(start, entry_views(entries@), verdicts, out.0@, records(out.1@)));
        assert(is_walk(start, entry_views(entries@), out.0@, records(out.1@)));
        assert forall|k: int| 0 <= k < out.1.len() implies admitted(
            start,
            (#[trigger] out.1[k]).relative@,
        ) && is_clean(out.1[k].code@) by {
            assert(records(out.1@)[k] == end.files[k]);
            assert(admitted(end, end.files[k].relative));
            assert(is_clean(end.files[k].code));
        }
    }
    Ok(out)
}

/// The record of a root that is a single file: shown under its full path,
/// whatever the options say of paths.
pub open spec fn file_record(options: WalkOptions, path: Seq<char>, bytes: Seq<u8>) -> Option<
    Record,
> {
    record_of(
        Seq::empty(),
        WalkOptions {
            line_number: options.line_number,
            relative_paths: false,
            exclude_from_tree: options.exclude_from_tree,
            no_codeblock: options.no_codeblock,
        },
        Seq::empty(),
        path,
        bytes,
    )
}

/// Handles a root that is a single file, given by its full path and, where
/// it could be read, its bytes: in the place of the tree stands the path, and
/// the file gets a record where it was read and its text is not blank.
pub fn traverse_file(path: &str, content: Option<&[u8]>, options: WalkOptions) -> (out: (
    String,
    Vec<FileRecord>,
))
    ensures
        out.0@ == path@,
        forall|i: int| 0 <= i < out.1.len() ==> is_clean((#[trigger] out.1[i]).code@),
        records(out.1@) == match content {
            Some(bytes) => match file_record(options, path@, bytes@) {
                Some(r) => seq![r],
                None => Seq::empty(),
            },
            None => Seq::empty(),
        },
{
    let mut files: Vec<FileRecord> = Vec::new();
    let shown = WalkOptions {
        line_number: options.line_number,
        relative_paths: false,
        exclude_from_tree: options.exclude_from_tree,
        no_codeblock: options.no_codeblock,
    };
    proof {
        assert(""@ =~= Seq::<char>::empty()) by {
            reveal_strlit("");
        }
    }
    match content {
        Some(bytes) => {
            match make_record("", &shown, "", path, bytes) {
                Some(record) => {
                    files.push(record);
                    assert(records(files@) =~= seq![record@]);
                },
                None => {
                    assert(records(files@) =~= Seq::<Record>::empty());
                },
            }
        },
        None => {
            assert(records(files@) =~= Seq::<Record>::empty());
        },
    }
    (String::from_str(path), files)
}

/// A record's code that is neither numbered nor fenced holds no base64 run
/// of more than a hundred characters.
pub proof fn lemma_record_runs(
    label: Seq<char>,
    options: WalkOptions,
    relative: Seq<char>,
    absolute: Seq<char>,
    bytes: Seq<u8>,
)
    requires
        options.no_codeblock,
        !options.line_number,
    ensures
        record_of(label, options, relative, absolute, bytes) matches Some(r)
            ==> crate::normalize::runs_within(r.code, crate::normalize::run_limit()),
{
    crate::normalize::lemma_shortened_runs(marked(utf8_lossy(bytes)));
}

/// Whether every record's file stands in the tree, and the tree holds every
/// name once at each level.
pub open spec fn tree_reflects_files(v: TraversalView) -> bool {
    &&& coalesced(v.tree)
    &&& forall|i: int|
        0 <= i < v.files.len() ==> has_path(v.tree, tree_names((#[trigger] v.files[i]).relative))
}

/// One entry keeps the tree in step with the records, where the tree is
/// kept at all.
pub proof fn lemma_entered_reflects(v: TraversalView, entry: EntryView, verdict: Verdict)
    requires
        tree_reflects_files(v),
        !v.options.exclude_from_tree,
    ensures
        tree_reflects_files(entered(v, entry, verdict)),
        entered(v, entry, verdict).options == v.options,
{
    let seen = visited(v, entry.relative, verdict);
    let after = entered(v, entry, verdict);
    let names = tree_names(entry.relative);
    if seen.tree != v.tree {
        lemma_grown_coalesced(v.tree, names);
    }
    assert forall|i: int| 0 <= i < after.files.len() implies has_path(
        after.tree,
        tree_names((#[trigger] after.files[i]).relative),
    ) by {
        if i < v.files.len() {
            assert(after.files[i] == v.files[i]);
            if seen.tree != v.tree {
                lemma_grown_keeps_paths(v.tree, names, tree_names(v.files[i].relative));
            }
        } else {
            lemma_grown_has_path(v.tree, names);
        }
    }
}

/// The tree of a walk reflects what was selected: every record's file
/// stands in it, and no name stands twice at one level.
pub proof fn lemma_walk_reflects(start: TraversalView, entries: Seq<EntryView>, verdicts: Seq<Verdict>)
    requires
        tree_reflects_files(start),
        !start.options.exclude_from_tree,
    ensures
        tree_reflects_files(walked(start, entries, verdicts)),
        walked(start, entries, verdicts).options == start.options,
    decreases entries.len(),
{
    if entries.len() > 0 && verdicts.len() == entries.len() {
        lemma_walk_reflects(start, entries.drop_last(), verdicts.drop_last());
        lemma_entered_reflects(
            walked(start, entries.drop_last(), verdicts.drop_last()),
            entries.last(),
            verdicts.last(),
        );
    }
}

} // verus!
