//! Executable routines on character vectors, each proved against the model in
//! [`crate::text`].

use crate::text::{
    chomp, contains, digest_run, first_of, is_digest_char, is_space, last_at_most,
    last_occurrence, lemma_first_of_is, lemma_last_occurrence, lemma_trim_end, lemma_trim_start,
    lines_of, newline, occurs_at, split_on, texts, trim, trim_start,
};
use vstd::prelude::*;

verus! {

/// `String::push`: the string gains `c` as its last character.
#[verifier::external_body]
fn push_char(out: &mut String, c: char)
    ensures
        final(out)@ == old(out)@.push(c),
{
    out.push(c)
}

/// Whether `c` is white space.
pub fn space(c: char) -> (b: bool)
    ensures
        b == is_space(c),
{
    let n: u32 = c as u32;
    (0x09 <= n && n <= 0x0D) || n == 0x20 || n == 0x85 || n == 0xA0 || n == 0x1680 || (0x2000 <= n
        && n <= 0x200A) || n == 0x2028 || n == 0x2029 || n == 0x202F || n == 0x205F || n == 0x3000
}

/// Whether `c` may appear in a digest.
pub fn digest_char(c: char) -> (b: bool)
    ensures
        b == is_digest_char(c),
{
    let n: u32 = c as u32;
    (0x61 <= n && n <= 0x7A) || (0x30 <= n && n <= 0x39)
}

/// The characters of `text`.
pub fn to_chars(text: &str) -> (chars: Vec<char>)
    ensures
        chars@ == text@,
{
    let mut chars: Vec<char> = Vec::new();
    for c in it: text.chars()
        invariant
            chars@ == it.seq().take(it.index()),
    {
        chars.push(c);
    }
    chars
}

/// Appends the characters `text` to `out`.
pub fn append_chars(out: &mut String, text: &Vec<char>)
    ensures
        final(out)@ == old(out)@ + text@,
{
    let mut i: usize = 0;
    while i < text.len()
        invariant
            i <= text.len(),
            out@ == old(out)@ + text@.take(i as int),
        decreases text.len() - i,
    {
        push_char(out, text[i]);
        i += 1;
        assert(text@.take(i as int) == text@.take(i - 1).push(text@[i - 1]));
    }
}

/// Appends `line` and a line feed to `out`.
pub fn append_line(out: &mut String, line: &Vec<char>)
    ensures
        final(out)@ == old(out)@ + line@ + newline(),
{
    append_chars(out, line);
    push_char(out, '\n');
}

/// The string that holds the characters `text`.
pub fn to_text(text: &Vec<char>) -> (out: String)
    ensures
        out@ == text@,
{
    let mut out = String::new();
    append_chars(&mut out, text);
    out
}

/// The characters of `text` from index `from` up to index `to`.
pub fn slice(text: &Vec<char>, from: usize, to: usize) -> (part: Vec<char>)
    requires
        from <= to <= text.len(),
    ensures
        part@ == text@.subrange(from as int, to as int),
{
    let mut part: Vec<char> = Vec::new();
    let mut i: usize = from;
    while i < to
        invariant
            from <= i <= to <= text.len(),
            part@ == text@.subrange(from as int, i as int),
        decreases to - i,
    {
        part.push(text[i]);
        i += 1;
    }
    part
}

/// Whether `pattern` stands in `text` at index `i`.
pub fn matches_at(text: &Vec<char>, pattern: &Vec<char>, i: usize) -> (b: bool)
    ensures
        b == occurs_at(text@, pattern@, i as int),
{
    if pattern.len() > text.len() || i > text.len() - pattern.len() {
        return false;
    }
    let mut k: usize = 0;
    while k < pattern.len()
        invariant
            k <= pattern.len(),
            i + pattern.len() <= text.len(),
            forall|j: int| 0 <= j < k ==> text@[i + j] == pattern@[j],
        decreases pattern.len() - k,
    {
        if text[i + k] != pattern[k] {
            proof {
                let part = text@.subrange(i as int, i + pattern.len());
                assert(part[k as int] == text@[i + k]);
            }
            return false;
        }
        k += 1;
    }
    assert(text@.subrange(i as int, i + pattern.len()) =~= pattern@);
    true
}

/// The index of the last occurrence of `pattern` in `text`.
pub fn find_last(text: &Vec<char>, pattern: &Vec<char>) -> (found: Option<usize>)
    ensures
        match found {
            Some(i) => i as int == last_occurrence(text@, pattern@),
            None => last_occurrence(text@, pattern@) == -1,
        },
{
    if pattern.len() > text.len() {
        return None;
    }
    let mut i: usize = text.len() - pattern.len();
    loop
        invariant
            pattern.len() <= text.len(),
            i <= text.len() - pattern.len(),
            last_occurrence(text@, pattern@) == last_at_most(text@, pattern@, i as int),
        decreases i,
    {
        if matches_at(text, pattern, i) {
            return Some(i);
        }
        if i == 0 {
            assert(last_at_most(text@, pattern@, -1) == -1);
            return None;
        }
        i -= 1;
    }
}

/// Whether `pattern` is a substring of `text`.
pub fn has(text: &Vec<char>, pattern: &Vec<char>) -> (b: bool)
    ensures
        b == contains(text@, pattern@),
{
    proof {
        lemma_last_occurrence(text@, pattern@);
    }
    find_last(text, pattern).is_some()
}

/// The index at or after `from` of the first character of `text` that is not
/// white space.
pub fn skip_spaces(text: &Vec<char>, from: usize) -> (at: usize)
    requires
        from <= text.len(),
    ensures
        from <= at <= text.len(),
        text@.skip(at as int) == trim_start(text@.skip(from as int)),
{
    let mut at: usize = from;
    while at < text.len() && space(text[at])
        invariant
            from <= at <= text.len(),
            forall|k: int| from <= k < at ==> is_space(text@[k]),
        decreases text.len() - at,
    {
        at += 1;
    }
    proof {
        let rest = text@.skip(from as int);
        lemma_trim_start(rest, at - from);
        assert(rest.skip(at - from) =~= text@.skip(at as int));
    }
    at
}

/// `text` without the white space at its two ends.
pub fn trimmed(text: &Vec<char>) -> (out: Vec<char>)
    ensures
        out@ == trim(text@),
{
    let from = skip_spaces(text, 0);
    let mut to: usize = text.len();
    while to > from && space(text[to - 1])
        invariant
            from <= to <= text.len(),
            forall|k: int| to <= k < text.len() ==> is_space(text@[k]),
        decreases to,
    {
        to -= 1;
    }
    proof {
        assert(text@.skip(0) =~= text@);
        let rest = text@.skip(from as int);
        if to > from {
            assert(rest[to - from - 1] == text@[to - 1]);
        } else {
            assert(forall|k: int| 0 <= k < rest.len() ==> rest[k] == text@[k + from]);
        }
        lemma_trim_end(rest, to - from);
        assert(rest.take(to - from) =~= text@.subrange(from as int, to as int));
    }
    slice(text, from, to)
}

/// The number of digest characters that `text` holds in a row from index `from`.
pub fn count_digest_chars(text: &Vec<char>, from: usize) -> (n: usize)
    requires
        from <= text.len(),
    ensures
        n as int == digest_run(text@.skip(from as int)),
        from + n <= text.len(),
{
    let mut at: usize = from;
    while at < text.len() && digest_char(text[at])
        invariant
            from <= at <= text.len(),
            digest_run(text@.skip(from as int)) == (at - from) + digest_run(text@.skip(at as int)),
        decreases text.len() - at,
    {
        proof {
            let rest = text@.skip(at as int);
            assert(rest[0] == text@[at as int]);
            assert(rest.drop_first() =~= text@.skip(at + 1));
        }
        at += 1;
    }
    proof {
        let rest = text@.skip(at as int);
        if at < text.len() {
            assert(rest[0] == text@[at as int]);
        }
    }
    at - from
}

/// The lines of `text`.
pub fn split_lines(text: &Vec<char>) -> (lines: Vec<Vec<char>>)
    ensures
        texts(lines@) == lines_of(text@),
{
    let mut lines: Vec<Vec<char>> = Vec::new();
    let mut start: usize = 0;
    let mut i: usize = 0;
    assert(text@.skip(0) =~= text@);
    assert(texts(lines@) + lines_of(text@.skip(0)) =~= lines_of(text@));
    while i < text.len()
        invariant
            start <= i <= text.len(),
            forall|k: int| start <= k < i ==> text@[k] != '\n',
            lines_of(text@) == texts(lines@) + lines_of(text@.skip(start as int)),
        decreases text.len() - i,
    {
        if text[i] == '\n' {
            let ghost rest = text@.skip(start as int);
            proof {
                assert(rest[i - start] == '\n');
                assert forall|k: int| 0 <= k < i - start implies rest[k] != '\n' by {
                    assert(rest[k] == text@[start + k]);
                }
                lemma_first_of_is(rest, '\n', i - start);
                assert(rest.take(i - start) =~= text@.subrange(start as int, i as int));
                assert(rest.skip(i - start + 1) =~= text@.skip(i + 1));
            }
            let end = if i > start && text[i - 1] == '\r' {
                i - 1
            } else {
                i
            };
            let line = slice(text, start, end);
            proof {
                let piece = text@.subrange(start as int, i as int);
                if i > start {
                    assert(piece.last() == text@[i - 1]);
                }
                assert(line@ =~= chomp(piece));
                assert(texts(lines@.push(line)) =~= texts(lines@) + seq![line@]);
            }
            lines.push(line);
            start = i + 1;
        }
        i += 1;
    }
    if start < text.len() {
        let line = slice(text, start, text.len());
        proof {
            let rest = text@.skip(start as int);
            assert forall|k: int| 0 <= k < rest.len() implies rest[k] != '\n' by {
                assert(rest[k] == text@[start + k]);
            }
            lemma_first_of_is(rest, '\n', rest.len() as int);
            assert(line@ =~= rest);
            assert(texts(lines@.push(line)) =~= texts(lines@) + seq![line@]);
        }
        lines.push(line);
    } else {
        assert(texts(lines@) + lines_of(text@.skip(start as int)) =~= texts(lines@));
    }
    lines
}

/// The pieces of `text` between single occurrences of `separator`.
pub fn split_chars(text: &Vec<char>, separator: char) -> (pieces: Vec<Vec<char>>)
    ensures
        texts(pieces@) == split_on(text@, separator),
{
    let mut pieces: Vec<Vec<char>> = Vec::new();
    let mut piece: Vec<char> = Vec::new();
    let mut i: usize = 0;
    assert(text@.take(0) =~= Seq::empty());
    assert(texts(pieces@).push(piece@) =~= seq![Seq::empty()]);
    while i < text.len()
        invariant
            i <= text.len(),
            texts(pieces@).push(piece@) == split_on(text@.take(i as int), separator),
        decreases text.len() - i,
    {
        let ghost before = split_on(text@.take(i as int), separator);
        proof {
            let next = text@.take(i + 1);
            assert(next.drop_last() =~= text@.take(i as int));
            assert(next.last() == text@[i as int]);
            assert(before.last() == piece@);
            assert(before.drop_last() =~= texts(pieces@));
        }
        if text[i] == separator {
            proof {
                assert(texts(pieces@.push(piece)) =~= texts(pieces@).push(piece@));
            }
            pieces.push(piece);
            piece = Vec::new();
        } else {
            piece.push(text[i]);
        }
        i += 1;
    }
    assert(text@.take(i as int) =~= text@);
    proof {
        assert(texts(pieces@.push(piece)) =~= texts(pieces@).push(piece@));
    }
    pieces.push(piece);
    pieces
}

/// The index of the first `c` in `text`, or the length of `text`.
pub fn find_char(text: &Vec<char>, c: char) -> (at: usize)
    ensures
        at as int == first_of(text@, c),
        at <= text.len(),
{
    let mut at: usize = 0;
    while at < text.len() && text[at] != c
        invariant
            at <= text.len(),
            forall|k: int| 0 <= k < at ==> text@[k] != c,
        decreases text.len() - at,
    {
        at += 1;
    }
    proof {
        lemma_first_of_is(text@, c, at as int);
    }
    at
}

} // verus!
