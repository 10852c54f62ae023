//! The content normaliser: what becomes of one file's bytes before they are
//! shown. Undecodable input is marked with `[]`, long base64 runs are elided,
//! lines may be numbered and the whole may be fenced as a code block.

use crate::text::{
    chars_of, decimal, lines, pad_left, push_decimal, push_range, rows, split_lines, string_of,
};
use vstd::prelude::*;

verus! {

/// The Unicode replacement character, which lossy decoding puts in the place
/// of bytes that are not UTF-8.
pub open spec fn replacement() -> char {
    '\u{FFFD}'
}

/// What `String::from_utf8_lossy` makes of `bytes`.
pub uninterp spec fn utf8_lossy(bytes: Seq<u8>) -> Seq<char>;

/// Decodes `bytes` with `String::from_utf8_lossy`. Nothing is claimed of the
/// text but that it depends on the bytes alone.
#[verifier::external_body]
pub(crate) fn decode_lossy(bytes: &[u8]) -> (s: String)
    ensures
        s@ == utf8_lossy(bytes@),
{
    String::from_utf8_lossy(bytes).into_owned()
}

/// `s` with every replacement character turned into the two characters `[]`.
pub open spec fn marked(s: Seq<char>) -> Seq<char>
    decreases s.len(),
{
    if s.len() == 0 {
        Seq::empty()
    } else if s.last() == replacement() {
        marked(s.drop_last()) + seq!['[', ']']
    } else {
        marked(s.drop_last()).push(s.last())
    }
}

/// No replacement character is left after marking.
pub proof fn lemma_marked_clean(s: Seq<char>)
    ensures
        !marked(s).contains(replacement()),
    decreases s.len(),
{
    if s.len() > 0 {
        lemma_marked_clean(s.drop_last());
        let m = marked(s.drop_last());
        assert forall|i: int| 0 <= i < marked(s).len() implies marked(s)[i] != replacement() by {
            if i < m.len() {
                assert(marked(s)[i] == m[i]);
                assert(m.contains(m[i]));
            }
        }
    }
}

/// A text without replacement characters is left as it is.
pub proof fn lemma_marked_identity(s: Seq<char>)
    requires
        !s.contains(replacement()),
    ensures
        marked(s) == s,
    decreases s.len(),
{
    if s.len() > 0 {
        assert(s.contains(s.last()));
        assert forall|i: int| 0 <= i < s.drop_last().len() implies s.drop_last()[i]
            != replacement() by {
            assert(s.contains(s[i]));
        }
        lemma_marked_identity(s.drop_last());
        assert(s.drop_last().push(s.last()) == s);
    }
}

/// Turns every replacement character of `v` into `[]`.
pub fn mark_invalid(v: &Vec<char>) -> (out: Vec<char>)
    ensures
        out@ == marked(v@),
{
    let mut out: Vec<char> = Vec::new();
    let mut i: usize = 0;
    while i < v.len()
        invariant
            i <= v.len(),
            out@ == marked(v@.take(i as int)),
        decreases v.len() - i,
    {
        proof {
            assert(v@.take(i + 1).drop_last() == v@.take(i as int));
        }
        if v[i] == '\u{FFFD}' {
            out.push('[');
            out.push(']');
        } else {
            out.push(v[i]);
        }
        i += 1;
    }
    proof {
        assert(v@.take(v.len() as int) == v@);
    }
    out
}

/// The characters of the base64 alphabet, padding included.
pub open spec fn is_base64(c: char) -> bool {
    ||| 'A' <= c <= 'Z'
    ||| 'a' <= c <= 'z'
    ||| '0' <= c <= '9'
    ||| c == '+'
    ||| c == '/'
    ||| c == '='
}

/// Whether `c` belongs to the base64 alphabet.
pub fn in_base64(c: char) -> (r: bool)
    ensures
        r == is_base64(c),
{
    ('A' <= c && c <= 'Z') || ('a' <= c && c <= 'z') || ('0' <= c && c <= '9') || c == '+' || c
        == '/' || c == '='
}

/// The length of the longest prefix of `s` made of base64 characters.
pub open spec fn run_len(s: Seq<char>) -> int
    decreases s.len(),
{
    if s.len() == 0 || !is_base64(s[0]) {
        0
    } else {
        1 + run_len(s.drop_first())
    }
}

/// The longest run that is shown whole.
pub open spec fn run_limit() -> int {
    100
}

/// How many characters of an elided run are kept at each end.
pub open spec fn run_keep() -> int {
    50
}

/// A run as it is shown: whole up to `run_limit()` characters, else its first
/// and last `run_keep()` characters with three dots between them.
pub open spec fn shorten_run(run: Seq<char>) -> Seq<char> {
    if run.len() > run_limit() {
        run.take(run_keep()) + seq!['.', '.', '.'] + run.skip(run.len() - run_keep())
    } else {
        run
    }
}

/// `s` with each of its maximal base64 runs shown as `shorten_run` says.
pub open spec fn shortened(s: Seq<char>) -> Seq<char>
    decreases s.len(),
{
    if s.len() == 0 {
        Seq::empty()
    } else {
        let n = run_len(s);
        if n <= 0 || n > s.len() {
            seq![s[0]] + shortened(s.drop_first())
        } else {
            shorten_run(s.take(n)) + shortened(s.skip(n))
        }
    }
}

/// `run_len` is the length of a prefix of base64 characters that ends at
/// another character or at the end.
pub proof fn lemma_run_len(s: Seq<char>)
    ensures
        0 <= run_len(s) <= s.len(),
        forall|i: int| 0 <= i < run_len(s) ==> is_base64(#[trigger] s[i]),
        run_len(s) < s.len() ==> !is_base64(s[run_len(s)]),
    decreases s.len(),
{
    if s.len() == 0 || !is_base64(s[0]) {
    } else {
        let t = s.drop_first();
        lemma_run_len(t);
        assert forall|i: int| 0 <= i < run_len(s) implies is_base64(#[trigger] s[i]) by {
            if i > 0 {
                assert(s[i] == t[i - 1]);
            }
        }
    }
}

/// A prefix of base64 characters that ends at another character or at the end
/// has the length `run_len`.
pub proof fn lemma_run_len_is(s: Seq<char>, k: int)
    requires
        0 <= k <= s.len(),
        forall|i: int| 0 <= i < k ==> is_base64(#[trigger] s[i]),
        k < s.len() ==> !is_base64(s[k]),
    ensures
        run_len(s) == k,
    decreases k,
{
    if k > 0 {
        let t = s.drop_first();
        assert forall|i: int| 0 <= i < k - 1 implies is_base64(#[trigger] t[i]) by {
            assert(t[i] == s[i + 1]);
        }
        lemma_run_len_is(t, k - 1);
    }
}

/// Elides the long base64 runs of `v`.
pub fn shorten(v: &Vec<char>) -> (out: Vec<char>)
    ensures
        out@ == shortened(v@),
{
    let mut out: Vec<char> = Vec::new();
    let mut i: usize = 0;
    proof {
        assert(v@.skip(0) == v@);
    }
    while i < v.len()
        invariant
            i <= v.len(),
            out@ + shortened(v@.skip(i as int)) == shortened(v@),
        decreases v.len() - i,
    {
        let ghost rest = v@.skip(i as int);
        let ghost before = out@;
        let mut k: usize = i;
        while k < v.len() && in_base64(v[k])
            invariant
                i <= k <= v.len(),
                forall|j: int| i <= j < k ==> is_base64(#[trigger] v@[j]),
            decreases v.len() - k,
        {
            k += 1;
        }
        proof {
            lemma_run_len_is(rest, k - i);
        }
        if k == i {
            out.push(v[i]);
            proof {
                assert(rest.drop_first() == v@.skip(i + 1));
                assert(before + (seq![rest[0]] + shortened(rest.drop_first())) == out@ + shortened(
                    v@.skip(i + 1),
                ));
            }
            i += 1;
        } else {
            let ghost run = rest.take(k - i);
            proof {
                assert(run == v@.subrange(i as int, k as int));
            }
            if k - i > 100 {
                push_range(&mut out, v, i, i + 50);
                out.push('.');
                out.push('.');
                out.push('.');
                push_range(&mut out, v, k - 50, k);
                proof {
                    assert(run.take(50) == v@.subrange(i as int, i + 50));
                    assert(run.skip(run.len() - 50) == v@.subrange(k - 50, k as int));
                    assert(out@ == before + shorten_run(run));
                }
            } else {
                push_range(&mut out, v, i, k);
            }
            proof {
                assert(rest.skip(k - i) == v@.skip(k as int));
                assert(before + (shorten_run(run) + shortened(rest.skip(k - i))) == out@
                    + shortened(v@.skip(k as int)));
            }
            i = k;
        }
    }
    proof {
        assert(out@ + shortened(v@.skip(i as int)) == out@);
    }
    out
}

/// Elides every base64 run of more than a hundred characters in `code`: such a
/// run keeps its first and last fifty characters, with `...` between them.
pub fn shorten_long_base64_strings(code: &str) -> (r: String)
    ensures
        r@ == shortened(code@),
{
    let v = chars_of(code);
    let out = shorten(&v);
    string_of(&out)
}

/// No base64 run of `s` is longer than `limit`: the run that starts at any
/// position stays within it.
pub open spec fn runs_within(s: Seq<char>, limit: int) -> bool {
    forall|i: int| 0 <= i <= s.len() ==> run_len(#[trigger] s.skip(i)) <= limit
}

/// A run ends before the first character that is not base64.
pub proof fn lemma_run_len_stops(s: Seq<char>, k: int)
    requires
        0 <= k < s.len(),
        !is_base64(s[k]),
    ensures
        run_len(s) <= k,
    decreases k,
{
    if k > 0 && is_base64(s[0]) {
        lemma_run_len_stops(s.drop_first(), k - 1);
    }
}

/// A text that starts with a character outside base64 keeps it in front.
proof fn lemma_shortened_head(s: Seq<char>)
    requires
        s.len() > 0,
        !is_base64(s[0]),
    ensures
        shortened(s).len() > 0,
        shortened(s)[0] == s[0],
{
}

/// The run that starts inside `x` ends within `x` where `x` is followed by
/// nothing or by a character outside base64.
proof fn lemma_run_within_prefix(x: Seq<char>, tail: Seq<char>)
    requires
        tail.len() > 0 ==> !is_base64(tail[0]),
    ensures
        run_len(x + tail) <= x.len(),
{
    let y = x + tail;
    if tail.len() > 0 {
        assert(y[x.len() as int] == tail[0]);
        lemma_run_len_stops(y, x.len() as int);
    } else {
        assert(y == x);
        lemma_run_len(x);
    }
}

/// After elision no base64 run is longer than `run_limit()`.
pub proof fn lemma_shortened_runs(s: Seq<char>)
    ensures
        runs_within(shortened(s), run_limit()),
    decreases s.len(),
{
    let t = shortened(s);
    if s.len() == 0 {
        assert forall|i: int| 0 <= i <= t.len() implies run_len(#[trigger] t.skip(i))
            <= run_limit() by {
            lemma_run_len(t.skip(i));
        }
    } else {
        lemma_run_len(s);
        let n = run_len(s);
        if n == 0 {
            let tail = shortened(s.drop_first());
            lemma_shortened_runs(s.drop_first());
            assert forall|i: int| 0 <= i <= t.len() implies run_len(#[trigger] t.skip(i))
                <= run_limit() by {
                if i == 0 {
                    assert(t.skip(0) == t);
                } else {
                    assert(t.skip(i) == tail.skip(i - 1));
                }
            }
        } else {
            let run = s.take(n);
            let rest = s.skip(n);
            let head = shorten_run(run);
            let tail = shortened(rest);
            lemma_shortened_runs(rest);
            if rest.len() > 0 {
                assert(rest[0] == s[n]);
                lemma_shortened_head(rest);
            }
            assert forall|i: int| 0 <= i <= t.len() implies run_len(#[trigger] t.skip(i))
                <= run_limit() by {
                if i >= head.len() {
                    assert(t.skip(i) == tail.skip(i - head.len()));
                } else {
                    assert(t.skip(i) == head.skip(i) + tail);
                    lemma_run_within_prefix(head.skip(i), tail);
                    if n > run_limit() && i < 3 {
                        assert(t.skip(i)[run_keep() - i] == '.');
                        lemma_run_len_stops(t.skip(i), run_keep() - i);
                    }
                }
            }
        }
    }
}

/// A text whose base64 runs all stay within `run_limit()` is left as it is.
pub proof fn lemma_short_runs_kept(s: Seq<char>)
    requires
        runs_within(s, run_limit()),
    ensures
        shortened(s) == s,
    decreases s.len(),
{
    if s.len() > 0 {
        lemma_run_len(s);
        assert(s.skip(0) == s);
        let n = run_len(s);
        if n == 0 {
            let t = s.drop_first();
            assert forall|i: int| 0 <= i <= t.len() implies run_len(#[trigger] t.skip(i))
                <= run_limit() by {
                assert(t.skip(i) == s.skip(i + 1));
            }
            lemma_short_runs_kept(t);
            assert(seq![s[0]] + t == s);
        } else {
            let t = s.skip(n);
            assert forall|i: int| 0 <= i <= t.len() implies run_len(#[trigger] t.skip(i))
                <= run_limit() by {
                assert(t.skip(i) == s.skip(n + i));
            }
            lemma_short_runs_kept(t);
            assert(s.take(n) + t == s);
        }
    }
}

/// Elision brings in no character but the dot.
pub proof fn lemma_shortened_chars(s: Seq<char>, c: char)
    requires
        shortened(s).contains(c),
    ensures
        s.contains(c) || c == '.',
    decreases s.len(),
{
    if s.len() > 0 {
        lemma_run_len(s);
        let n = run_len(s);
        let t = shortened(s);
        let k = choose|k: int| 0 <= k < t.len() && t[k] == c;
        if n == 0 {
            if k == 0 {
            } else {
                let tail = shortened(s.drop_first());
                assert(tail[k - 1] == c);
                lemma_shortened_chars(s.drop_first(), c);
                if s.drop_first().contains(c) {
                    let j = choose|j: int| 0 <= j < s.drop_first().len() && s.drop_first()[j] == c;
                    assert(s[j + 1] == c);
                }
            }
        } else {
            let run = s.take(n);
            let head = shorten_run(run);
            let rest = s.skip(n);
            if k < head.len() {
                if n > run_limit() {
                    if k < run_keep() {
                        assert(head[k] == s[k]);
                    } else if k < run_keep() + 3 {
                    } else {
                        assert(head[k] == s[k - 3 - run_keep() + (n - run_keep())]);
                    }
                } else {
                    assert(head[k] == s[k]);
                }
            } else {
                assert(shortened(rest)[k - head.len()] == c);
                lemma_shortened_chars(rest, c);
                if rest.contains(c) {
                    let j = choose|j: int| 0 <= j < rest.len() && rest[j] == c;
                    assert(s[j + n] == c);
                }
            }
        }
    }
}

/// One numbered line: the number right-aligned in four columns, ` | `, the
/// line, a line feed.
pub open spec fn number_line(n: nat, line: Seq<char>) -> Seq<char> {
    pad_left(decimal(n), 4) + seq![' ', '|', ' '] + line + seq!['\n']
}

/// The lines numbered from `first` on, one after the other.
pub open spec fn numbered_from(ls: Seq<Seq<char>>, first: nat) -> Seq<char>
    decreases ls.len(),
{
    if ls.len() == 0 {
        Seq::empty()
    } else {
        number_line(first, ls[0]) + numbered_from(ls.drop_first(), first + 1)
    }
}

/// The text with each of its lines numbered, from one on.
pub open spec fn numbered(code: Seq<char>) -> Seq<char> {
    numbered_from(lines(code), 1)
}

/// The delimiter of a code block: three backticks.
pub open spec fn fence() -> Seq<char> {
    seq!['`', '`', '`']
}

/// The text `code` as it is shown: numbered if `line_numbers`, and, unless
/// `no_codeblock`, between two fences of which the first carries `extension`.
pub open spec fn wrapped(
    code: Seq<char>,
    extension: Seq<char>,
    line_numbers: bool,
    no_codeblock: bool,
) -> Seq<char> {
    let body = if line_numbers {
        numbered(code)
    } else {
        code
    };
    if no_codeblock {
        body
    } else {
        fence() + extension + seq!['\n'] + body + seq!['\n'] + fence()
    }
}

/// How many digits the numeral of `n` has, as far as the padding needs it.
proof fn lemma_decimal_len(n: nat)
    ensures
        n < 10 ==> decimal(n).len() == 1,
        10 <= n < 100 ==> decimal(n).len() == 2,
        100 <= n < 1000 ==> decimal(n).len() == 3,
        1000 <= n ==> decimal(n).len() >= 4,
    decreases n,
{
    if n >= 10 {
        lemma_decimal_len(n / 10);
    }
}

/// Appends the numbered form of one line to `out`.
fn push_numbered_line(out: &mut Vec<char>, n: usize, line: &Vec<char>)
    ensures
        final(out)@ == old(out)@ + number_line(n as nat, line@),
{
    let ghost start = out@;
    if n < 10 {
        out.push(' ');
        out.push(' ');
        out.push(' ');
    } else if n < 100 {
        out.push(' ');
        out.push(' ');
    } else if n < 1000 {
        out.push(' ');
    }
    proof {
        lemma_decimal_len(n as nat);
        if n < 1000 {
            assert(out@ =~= start + Seq::new((4 - decimal(n as nat).len()) as nat, |i: int| ' '));
        }
    }
    push_decimal(out, n);
    assert(out@ =~= start + pad_left(decimal(n as nat), 4));
    out.push(' ');
    out.push('|');
    out.push(' ');
    push_range(out, line, 0, line.len());
    out.push('\n');
    proof {
        assert(line@.subrange(0, line.len() as int) == line@);
        assert(out@ =~= start + number_line(n as nat, line@));
    }
}

/// Numbers the lines of `v`.
pub fn number_lines(v: &Vec<char>) -> (out: Vec<char>)
    ensures
        out@ == numbered(v@),
{
    let ls = split_lines(v);
    let mut out: Vec<char> = Vec::new();
    let mut i: usize = 0;
    proof {
        assert(rows(ls@).skip(0) == rows(ls@));
    }
    while i < ls.len()
        invariant
            i <= ls.len(),
            rows(ls@) == lines(v@),
            out@ + numbered_from(rows(ls@).skip(i as int), (i + 1) as nat) == numbered(v@),
        decreases ls.len() - i,
    {
        let ghost before = out@;
        let ghost rest = rows(ls@).skip(i as int);
        push_numbered_line(&mut out, i + 1, &ls[i]);
        proof {
            assert(rest[0] == ls@[i as int]@);
            assert(rest.drop_first() == rows(ls@).skip(i + 1));
            assert(before + (number_line((i + 1) as nat, rest[0]) + numbered_from(
                rest.drop_first(),
                (i + 2) as nat,
            )) == out@ + numbered_from(rows(ls@).skip(i + 1), (i + 2) as nat));
        }
        i += 1;
    }
    proof {
        assert(out@ + numbered_from(rows(ls@).skip(i as int), (i + 1) as nat) == out@);
    }
    out
}

/// The characters of `code` as they are shown.
pub fn wrap_chars(code: &Vec<char>, extension: &Vec<char>, line_numbers: bool, no_codeblock: bool)
    -> (out: Vec<char>)
    ensures
        out@ == wrapped(code@, extension@, line_numbers, no_codeblock),
{
    let body = if line_numbers {
        number_lines(code)
    } else {
        let mut copy: Vec<char> = Vec::new();
        push_range(&mut copy, code, 0, code.len());
        assert(code@.subrange(0, code.len() as int) == code@);
        copy
    };
    if no_codeblock {
        return body;
    }
    let mut out: Vec<char> = Vec::new();
    out.push('`');
    out.push('`');
    out.push('`');
    push_range(&mut out, extension, 0, extension.len());
    out.push('\n');
    push_range(&mut out, &body, 0, body.len());
    out.push('\n');
    out.push('`');
    out.push('`');
    out.push('`');
    proof {
        assert(extension@.subrange(0, extension.len() as int) == extension@);
        assert(body@.subrange(0, body.len() as int) == body@);
        assert(out@ =~= fence() + extension@ + seq!['\n'] + body@ + seq!['\n'] + fence());
    }
    out
}

/// Shows `code` as a block: with `line_numbers` each line gets its number, and
/// unless `no_codeblock` the text stands between two lines of three backticks,
/// the first followed by `extension`.
pub fn wrap_code_block(code: &str, extension: &str, line_numbers: bool, no_codeblock: bool) -> (r:
    String)
    ensures
        r@ == wrapped(code@, extension@, line_numbers, no_codeblock),
{
    let c = chars_of(code);
    let e = chars_of(extension);
    let out = wrap_chars(&c, &e, line_numbers, no_codeblock);
    string_of(&out)
}

/// A text without lines, numbered or not, is shown as an empty block.
pub proof fn lemma_empty_block(extension: Seq<char>, line_numbers: bool)
    ensures
        wrapped(Seq::empty(), extension, line_numbers, false) == fence() + extension + seq![
            '\n',
            '\n',
        ] + fence(),
        wrapped(Seq::empty(), extension, line_numbers, true) == Seq::<char>::empty(),
{
    assert(lines(Seq::<char>::empty()) == Seq::<Seq<char>>::empty());
    assert(numbered(Seq::empty()) == Seq::<char>::empty());
    assert(fence() + extension + seq!['\n'] + Seq::<char>::empty() + seq!['\n'] + fence()
        =~= fence() + extension + seq!['\n', '\n'] + fence());
}

/// The numeral of a number holds no replacement character.
proof fn lemma_decimal_clean(n: nat)
    ensures
        !decimal(n).contains(replacement()),
    decreases n,
{
    if n >= 10 {
        lemma_decimal_clean(n / 10);
        let d = decimal(n / 10);
        assert forall|i: int| 0 <= i < decimal(n).len() implies decimal(n)[i] != replacement() by {
            if i < d.len() {
                assert(d.contains(d[i]));
            }
        }
    }
}

/// The lines of a text without replacement characters hold none.
proof fn lemma_lines_clean(s: Seq<char>)
    requires
        !s.contains(replacement()),
    ensures
        forall|i: int| 0 <= i < lines(s).len() ==> !(#[trigger] lines(s)[i]).contains(replacement()),
    decreases s.len(),
{
    if s.len() > 0 {
        crate::text::lemma_first_index(s, '\n');
        let k = crate::text::first_index(s, '\n');
        assert forall|j: int| 0 <= j < s.len() implies s[j] != replacement() by {
            assert(s.contains(s[j]));
        }
        if k < s.len() {
            let rest = s.skip(k + 1);
            lemma_lines_clean(rest);
            let first = crate::text::strip_cr(s.take(k));
            assert(!first.contains(replacement()));
            assert forall|i: int| 0 <= i < lines(s).len() implies !(#[trigger] lines(s)[i]).contains(
                replacement(),
            ) by {
                if i > 0 {
                    assert(lines(s)[i] == lines(rest)[i - 1]);
                }
            }
        }
    }
}

/// Numbering lines without replacement characters brings in none.
proof fn lemma_numbered_clean(ls: Seq<Seq<char>>, first: nat)
    requires
        forall|i: int| 0 <= i < ls.len() ==> !(#[trigger] ls[i]).contains(replacement()),
    ensures
        !numbered_from(ls, first).contains(replacement()),
    decreases ls.len(),
{
    if ls.len() > 0 {
        let rest = ls.drop_first();
        assert forall|i: int| 0 <= i < rest.len() implies !(#[trigger] rest[i]).contains(
            replacement(),
        ) by {
            assert(rest[i] == ls[i + 1]);
        }
        lemma_numbered_clean(rest, first + 1);
        lemma_decimal_clean(first);
        let head = number_line(first, ls[0]);
        let tail = numbered_from(rest, first + 1);
        let number = decimal(first);
        let padded = pad_left(number, 4);
        assert forall|j: int| 0 <= j < padded.len() implies padded[j] != replacement() by {
            if number.len() < 4 {
                if j >= 4 - number.len() {
                    assert(number.contains(number[j - (4 - number.len())]));
                }
            } else {
                assert(number.contains(number[j]));
            }
        }
        assert forall|j: int| 0 <= j < head.len() implies head[j] != replacement() by {
            if padded.len() + 3 <= j < padded.len() + 3 + ls[0].len() {
                assert(ls[0].contains(ls[0][j - padded.len() - 3]));
            }
        }
        assert forall|j: int| 0 <= j < numbered_from(ls, first).len() implies numbered_from(
            ls,
            first,
        )[j] != replacement() by {
            if j >= head.len() {
                assert(tail.contains(tail[j - head.len()]));
            }
        }
    }
}

/// A text and an extension without replacement characters are shown without
/// one.
pub proof fn lemma_wrapped_clean(
    code: Seq<char>,
    extension: Seq<char>,
    line_numbers: bool,
    no_codeblock: bool,
)
    requires
        !code.contains(replacement()),
        no_codeblock || !extension.contains(replacement()),
    ensures
        !wrapped(code, extension, line_numbers, no_codeblock).contains(replacement()),
{
    let body = if line_numbers {
        numbered(code)
    } else {
        code
    };
    if line_numbers {
        lemma_lines_clean(code);
        lemma_numbered_clean(lines(code), 1);
    }
    if !no_codeblock {
        let w = wrapped(code, extension, line_numbers, no_codeblock);
        assert forall|j: int| 0 <= j < w.len() implies w[j] != replacement() by {
            if 3 <= j < 3 + extension.len() {
                assert(extension.contains(extension[j - 3]));
            } else if 3 + extension.len() + 1 <= j < 3 + extension.len() + 1 + body.len() {
                assert(body.contains(body[j - 3 - extension.len() - 1]));
            }
        }
    }
}

/// Marking and elision leave no replacement character.
pub proof fn lemma_normal_clean(decoded: Seq<char>)
    ensures
        !shortened(marked(decoded)).contains(replacement()),
{
    lemma_marked_clean(decoded);
    if shortened(marked(decoded)).contains(replacement()) {
        lemma_shortened_chars(marked(decoded), replacement());
    }
}

} // verus!
