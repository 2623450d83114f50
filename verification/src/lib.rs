//! A verified word-list loader.
//!
//! The library turns the text of a word-list file into the list of its
//! words: the text is split at line breaks, every line is stripped of
//! surrounding whitespace, and the lines that remain non-empty are kept
//! in their original order. A companion pair of functions resolves an
//! optional path argument to a default and builds the error message for
//! a failed read, so that a host shell only has to perform the read
//! itself.

use vstd::prelude::*;

verus! {

use vstd::string::StrSliceExecFns;
use vstd::string::StringExecFns;

/// Whitespace as `char::is_whitespace` decides it: the characters with
/// Unicode's `White_Space` property.
pub open spec fn is_space(c: char) -> bool {
    let n = c as u32;
    n == 0x09 || n == 0x0a || n == 0x0b || n == 0x0c || n == 0x0d || n == 0x20 || n == 0x85
        || n == 0xa0 || n == 0x1680 || (0x2000 <= n && n <= 0x200a) || n == 0x2028 || n == 0x2029
        || n == 0x202f || n == 0x205f || n == 0x3000
}

/// Decides `is_space` for one character.
fn is_space_char(c: char) -> (b: bool)
    ensures
        b == is_space(c),
{
    let n = c as u32;
    n == 0x09 || n == 0x0a || n == 0x0b || n == 0x0c || n == 0x0d || n == 0x20 || n == 0x85
        || n == 0xa0 || n == 0x1680 || (0x2000 <= n && n <= 0x200a) || n == 0x2028 || n == 0x2029
        || n == 0x202f || n == 0x205f || n == 0x3000
}

/// `s` without its leading whitespace.
pub open spec fn trim_start(s: Seq<char>) -> Seq<char>
    decreases s.len(),
{
    if s.len() > 0 && is_space(s[0]) {
        trim_start(s.drop_first())
    } else {
        s
    }
}

/// `s` without its trailing whitespace.
pub open spec fn trim_end(s: Seq<char>) -> Seq<char>
    decreases s.len(),
{
    if s.len() > 0 && is_space(s.last()) {
        trim_end(s.drop_last())
    } else {
        s
    }
}

/// `s` without leading and trailing whitespace.
pub open spec fn trimmed(s: Seq<char>) -> Seq<char> {
    trim_end(trim_start(s))
}

/// When the first `k` characters of `s` are whitespace and the next one,
/// if any, is not, trimming from the start drops exactly those `k`.
proof fn lemma_trim_start_prefix(s: Seq<char>, k: int)
    requires
        0 <= k <= s.len(),
        forall|i: int| 0 <= i < k ==> is_space(s[i]),
        k == s.len() || !is_space(s[k]),
    ensures
        trim_start(s) == s.skip(k),
    decreases k,
{
    if k == 0 {
        assert(s.skip(0) =~= s);
    } else {
        let d = s.drop_first();
        assert(forall|i: int| 0 <= i < k - 1 ==> is_space(#[trigger] d[i]));
        lemma_trim_start_prefix(d, k - 1);
        assert(d.skip(k - 1) =~= s.skip(k));
    }
}

/// When the characters of `s` from position `k` on are whitespace and the
/// one before them, if any, is not, trimming from the end keeps exactly
/// the first `k`.
proof fn lemma_trim_end_suffix(s: Seq<char>, k: int)
    requires
        0 <= k <= s.len(),
        forall|i: int| k <= i < s.len() ==> is_space(s[i]),
        k == 0 || !is_space(s[k - 1]),
    ensures
        trim_end(s) == s.take(k),
    decreases s.len() - k,
{
    if k == s.len() {
        assert(s.take(k) =~= s);
    } else {
        let d = s.drop_last();
        lemma_trim_end_suffix(d, k);
        assert(d.take(k) =~= s.take(k));
    }
}

/// The characters of `text` from `start` (inclusive) to `end` (exclusive),
/// stripped of surrounding whitespace.
fn trimmed_segment(text: &str, start: usize, end: usize) -> (entry: String)
    requires
        start <= end <= text@.len(),
    ensures
        entry@ == trimmed(text@.subrange(start as int, end as int)),
{
    let mut lo = start;
    while lo < end && is_space_char(text.get_char(lo))
        invariant
            start <= lo <= end <= text@.len(),
            forall|i: int| start <= i < lo ==> is_space(#[trigger] text@[i]),
        decreases end - lo,
    {
        lo = lo + 1;
    }
    let mut hi = end;
    while hi > lo && is_space_char(text.get_char(hi - 1))
        invariant
            start <= lo <= hi <= end <= text@.len(),
            forall|i: int| hi <= i < end ==> is_space(#[trigger] text@[i]),
        decreases hi - lo,
    {
        hi = hi - 1;
    }
    let entry = text.substring_char(lo, hi).to_owned();
    proof {
        let u = text@.subrange(start as int, end as int);
        assert(forall|i: int| 0 <= i < lo - start ==> is_space(#[trigger] u[i]));
        lemma_trim_start_prefix(u, lo - start);
        let v = text@.subrange(lo as int, end as int);
        assert(u.skip(lo - start) =~= v);
        assert(forall|i: int| hi - lo <= i < v.len() ==> is_space(#[trigger] v[i]));
        lemma_trim_end_suffix(v, hi - lo);
        assert(v.take(hi - lo) =~= text@.subrange(lo as int, hi as int));
    }
    entry
}

/// The line `line` stripped of surrounding whitespace.
pub fn trim_line(line: &str) -> (entry: String)
    ensures
        entry@ == trimmed(line@),
{
    let len = line.unicode_len();
    let entry = trimmed_segment(line, 0, len);
    proof {
        assert(line@.subrange(0, len as int) =~= line@);
    }
    entry
}

/// The segments of `s` between its newline characters: one segment per
/// line, in order, with a segment (possibly empty) before, between and
/// after the newlines.
pub open spec fn line_segments(s: Seq<char>) -> Seq<Seq<char>>
    decreases s.len(),
{
    if s.len() == 0 {
        seq![Seq::<char>::empty()]
    } else if s[0] == '\n' {
        seq![Seq::<char>::empty()] + line_segments(s.drop_first())
    } else {
        let rest = line_segments(s.drop_first());
        seq![seq![s[0]] + rest[0]] + rest.drop_first()
    }
}

/// The trimmed, non-empty entries of the given lines, in order.
pub open spec fn kept_words(lines: Seq<Seq<char>>) -> Seq<Seq<char>>
    decreases lines.len(),
{
    if lines.len() == 0 {
        Seq::<Seq<char>>::empty()
    } else {
        let entry = trimmed(lines[0]);
        (if entry.len() > 0 {
            seq![entry]
        } else {
            Seq::<Seq<char>>::empty()
        }) + kept_words(lines.drop_first())
    }
}

/// The word list held in the text `s`: its lines, trimmed, with the
/// blank ones dropped, in their original order.
pub open spec fn word_lines(s: Seq<char>) -> Seq<Seq<char>> {
    kept_words(line_segments(s))
}

/// When the first `j` characters of `s` are not newlines, the first line
/// segment of `s` ends exactly at `j`: at the end of `s`, or at a newline.
proof fn lemma_line_segments_boundary(s: Seq<char>, j: int)
    requires
        0 <= j <= s.len(),
        forall|i: int| 0 <= i < j ==> s[i] != '\n',
    ensures
        j == s.len() ==> line_segments(s) == seq![s],
        j < s.len() && s[j] == '\n' ==> line_segments(s) == seq![s.take(j)] + line_segments(
            s.skip(j + 1),
        ),
    decreases j,
{
    if j == 0 {
        if s.len() == 0 {
            assert(s =~= Seq::<char>::empty());
            assert(line_segments(s) =~= seq![s]);
        } else if s[0] == '\n' {
            assert(s.take(0) =~= Seq::<char>::empty());
            assert(s.skip(1) =~= s.drop_first());
            assert(line_segments(s) =~= seq![s.take(0)] + line_segments(s.skip(1)));
        }
    } else {
        let d = s.drop_first();
        let rest = line_segments(d);
        assert(forall|i: int| 0 <= i < j - 1 ==> #[trigger] d[i] != '\n');
        lemma_line_segments_boundary(d, j - 1);
        if j == s.len() {
            assert(rest == seq![d]);
            assert(rest.drop_first() =~= Seq::<Seq<char>>::empty());
            assert(seq![s[0]] + rest[0] =~= s);
            assert(line_segments(s) =~= seq![s]);
        } else if s[j] == '\n' {
            assert(d[j - 1] == '\n');
            assert(rest == seq![d.take(j - 1)] + line_segments(d.skip(j)));
            assert(rest[0] == d.take(j - 1));
            assert(rest.drop_first() =~= line_segments(d.skip(j)));
            assert(d.skip(j) =~= s.skip(j + 1));
            assert(seq![s[0]] + d.take(j - 1) =~= s.take(j));
            assert(line_segments(s) =~= seq![s.take(j)] + line_segments(s.skip(j + 1)));
        }
    }
}

/// `kept_words` of a list of lines, taken one line at a time.
proof fn lemma_kept_words_cons(x: Seq<char>, rest: Seq<Seq<char>>)
    ensures
        kept_words(seq![x] + rest) == (if trimmed(x).len() > 0 {
            seq![trimmed(x)]
        } else {
            Seq::<Seq<char>>::empty()
        }) + kept_words(rest),
{
    let l = seq![x] + rest;
    assert(l[0] == x);
    assert(l.drop_first() =~= rest);
}

/// `kept_words` of a single line.
proof fn lemma_kept_words_singleton(x: Seq<char>)
    ensures
        kept_words(seq![x]) == (if trimmed(x).len() > 0 {
            seq![trimmed(x)]
        } else {
            Seq::<Seq<char>>::empty()
        }),
{
    let l = seq![x];
    assert(l.drop_first() =~= Seq::<Seq<char>>::empty());
    assert(kept_words(l.drop_first()) =~= Seq::<Seq<char>>::empty());
    if trimmed(x).len() > 0 {
        assert(kept_words(l) =~= seq![trimmed(x)]);
    } else {
        assert(kept_words(l) =~= Seq::<Seq<char>>::empty());
    }
}

/// Splits `text` into lines, trims each line, and returns the non-empty
/// results in their original order.
pub fn parse_word_list(text: &str) -> (words: Vec<String>)
    ensures
        words.deep_view() == word_lines(text@),
{
    let len = text.unicode_len();
    let mut words: Vec<String> = Vec::new();
    let mut pos: usize = 0;
    let mut finished: bool = false;
    proof {
        assert(text@.skip(0) =~= text@);
    }
    while !finished
        invariant
            len == text@.len(),
            pos <= len,
            !finished ==> word_lines(text@) == words.deep_view() + kept_words(
                line_segments(text@.skip(pos as int)),
            ),
            finished ==> word_lines(text@) == words.deep_view(),
        decreases len - pos + (if finished {
            0int
        } else {
            1int
        }),
    {
        let ghost s = text@;
        let ghost p0 = pos as int;
        let ghost u = s.skip(p0);
        let mut j = pos;
        while j < len && text.get_char(j) != '\n'
            invariant
                len == text@.len(),
                pos <= j <= len,
                forall|i: int| pos <= i < j ==> #[trigger] text@[i] != '\n',
            decreases len - j,
        {
            j = j + 1;
        }
        proof {
            assert forall|i: int| 0 <= i < j - p0 implies #[trigger] u[i] != '\n' by {
                assert(u[i] == s[p0 + i]);
            }
            lemma_line_segments_boundary(u, j - p0);
        }
        let entry = trimmed_segment(text, pos, j);
        let ghost head: Seq<Seq<char>> = if trimmed(u.take(j - p0)).len() > 0 {
            seq![trimmed(u.take(j - p0))]
        } else {
            Seq::<Seq<char>>::empty()
        };
        let ghost dv0 = words.deep_view();
        proof {
            assert(u.take(j - p0) =~= s.subrange(p0, j as int));
        }
        if !entry.as_str().is_empty() {
            words.push(entry);
        }
        proof {
            assert(words.deep_view() =~= dv0 + head);
        }
        if j < len {
            pos = j + 1;
            proof {
                assert(u[j - p0] == '\n');
                lemma_kept_words_cons(u.take(j - p0), line_segments(u.skip(j - p0 + 1)));
                assert(u.skip(j - p0 + 1) =~= s.skip(j + 1));
                assert(dv0 + (head + kept_words(line_segments(s.skip(j + 1)))) =~= (dv0 + head)
                    + kept_words(line_segments(s.skip(j + 1))));
            }
        } else {
            finished = true;
            proof {
                lemma_kept_words_singleton(u);
                assert(u.take(j - p0) =~= u);
                assert(dv0 + head =~= words.deep_view());
            }
        }
    }
    words
}

/// The path used when the caller gives none.
pub open spec fn default_path() -> Seq<char> {
    "./wordserver.txt"@
}

/// Returns the given path, or the default path when none is given.
pub fn resolve_path(path: Option<String>) -> (resolved: String)
    ensures
        path matches Some(p) ==> resolved@ == p@,
        path is None ==> resolved@ == default_path(),
{
    match path {
        Some(p) => p,
        None => "./wordserver.txt".to_owned(),
    }
}

/// The message reported when the word list at `path` cannot be read,
/// `cause` being the underlying reason.
pub open spec fn failure_message(path: Seq<char>, cause: Seq<char>) -> Seq<char> {
    "failed to read "@ + path + ": "@ + cause
}

/// Builds the message reported when the word list at `path` cannot be
/// read for the reason `cause`.
pub fn read_failure_message(path: &str, cause: &str) -> (message: String)
    ensures
        message@ == failure_message(path@, cause@),
{
    let mut message = "failed to read ".to_owned();
    message.append(path);
    message.append(": ");
    message.append(cause);
    message
}

/// `needle` occurs contiguously somewhere in `hay`.
pub open spec fn contains_seq(hay: Seq<char>, needle: Seq<char>) -> bool {
    exists|k: int|
        0 <= k && k + needle.len() <= hay.len() && #[trigger] hay.subrange(k, k + needle.len())
            == needle
}

/// The outcome of a load, given what reading the file at `path` yielded:
/// the parsed word list when the read succeeded, and the failure message
/// for `path` otherwise.
pub fn words_from_read(path: &str, read: Result<String, String>) -> (outcome: Result<
    Vec<String>,
    String,
>)
    ensures
        read matches Ok(text) ==> outcome matches Ok(words) && words.deep_view() == word_lines(
            text@,
        ),
        read matches Err(cause) ==> outcome matches Err(message) && message@ == failure_message(
            path@,
            cause@,
        ),
{
    match read {
        Ok(text) => Ok(parse_word_list(text.as_str())),
        Err(cause) => Err(read_failure_message(path, cause.as_str())),
    }
}

/// `kept_words` is the trimmed lines with the blank ones filtered out.
proof fn lemma_kept_words_is_filtered(lines: Seq<Seq<char>>)
    ensures
        kept_words(lines) == lines.map_values(|l: Seq<char>| trimmed(l)).filter(
            |l: Seq<char>| l.len() > 0,
        ),
    decreases lines.len(),
{
    let f = |l: Seq<char>| trimmed(l);
    let p = |l: Seq<char>| l.len() > 0;
    reveal_with_fuel(Seq::<_>::filter, 2);
    if lines.len() == 0 {
        assert(lines.map_values(f) =~= Seq::<Seq<char>>::empty());
        assert(kept_words(lines) =~= lines.map_values(f).filter(p));
    } else {
        let x = lines[0];
        let rest = lines.drop_first();
        lemma_kept_words_is_filtered(rest);
        assert(lines =~= seq![x] + rest);
        lemma_kept_words_cons(x, rest);
        assert(lines.map_values(f) =~= seq![f(x)] + rest.map_values(f));
        Seq::filter_distributes_over_add(seq![f(x)], rest.map_values(f), p);
        assert(seq![f(x)].drop_last() =~= Seq::<Seq<char>>::empty());
        if p(f(x)) {
            assert(seq![f(x)].filter(p) =~= seq![f(x)]);
        } else {
            assert(seq![f(x)].filter(p) =~= Seq::<Seq<char>>::empty());
        }
        assert(kept_words(lines) =~= lines.map_values(f).filter(p));
    }
}

/// The word list of a text is exactly its line segments, each trimmed,
/// with the blank results dropped — in the original order — and none of
/// the entries that remain is empty.
pub proof fn lemma_word_lines_exact(s: Seq<char>)
    ensures
        word_lines(s) == line_segments(s).map_values(|l: Seq<char>| trimmed(l)).filter(
            |l: Seq<char>| l.len() > 0,
        ),
        forall|i: int| 0 <= i < word_lines(s).len() ==> #[trigger] word_lines(s)[i].len() > 0,
{
    let f = |l: Seq<char>| trimmed(l);
    let p = |l: Seq<char>| l.len() > 0;
    lemma_kept_words_is_filtered(line_segments(s));
    assert forall|i: int| 0 <= i < word_lines(s).len() implies #[trigger] word_lines(
        s,
    )[i].len() > 0 by {
        line_segments(s).map_values(f).lemma_filter_pred(p, i);
    }
}

/// A failure message names the path it is about.
pub proof fn lemma_failure_message_contains_path(path: Seq<char>, cause: Seq<char>)
    ensures
        contains_seq(failure_message(path, cause), path),
{
    reveal_strlit("failed to read ");
    let m = failure_message(path, cause);
    let k = "failed to read "@.len() as int;
    assert(m.subrange(k, k + path.len() as int) =~= path);
    assert(0 <= k && k + path.len() <= m.len());
}

/// Loading is deterministic: two loads of the same unchanged text yield
/// the same word list.
pub proof fn lemma_load_deterministic(
    text: Seq<char>,
    first: Seq<Seq<char>>,
    second: Seq<Seq<char>>,
)
    requires
        first == word_lines(text),
        second == word_lines(text),
    ensures
        first == second,
{
}

} // verus!

