//! Character sequences: the mathematical vocabulary of the line grammar and the
//! executable routines that compute it.
//!
//! Every text in this crate is modelled as a `Seq<char>`. Documents are cut into
//! lines the way `str::lines` cuts them; lines are searched for literal marker
//! text; white space is the Unicode `White_Space` set.

use vstd::prelude::*;

verus! {

/// The line feed that ends every line of an assembled document.
pub open spec fn newline() -> Seq<char> {
    seq!['\n']
}

/// Whether `c` has the Unicode `White_Space` property.
pub open spec fn is_space(c: char) -> bool {
    let n = c as u32;
    (0x09 <= n && n <= 0x0D) || n == 0x20 || n == 0x85 || n == 0xA0 || n == 0x1680 || (0x2000 <= n
        && n <= 0x200A) || n == 0x2028 || n == 0x2029 || n == 0x202F || n == 0x205F || n == 0x3000
}

/// Whether `c` may appear in a digest: a lower-case ASCII letter or a digit.
pub open spec fn is_digest_char(c: char) -> bool {
    let n = c as u32;
    (0x61 <= n && n <= 0x7A) || (0x30 <= n && n <= 0x39)
}

/// `text` with its leading white space removed.
pub open spec fn trim_start(text: Seq<char>) -> Seq<char>
    decreases text.len(),
{
    if text.len() > 0 && is_space(text[0]) {
        trim_start(text.drop_first())
    } else {
        text
    }
}

/// The white space at the head of `text`: what [`trim_start`] removes.
pub open spec fn leading_space(text: Seq<char>) -> Seq<char> {
    text.take(text.len() - trim_start(text).len())
}

/// `text` with its trailing white space removed.
pub open spec fn trim_end(text: Seq<char>) -> Seq<char>
    decreases text.len(),
{
    if text.len() > 0 && is_space(text.last()) {
        trim_end(text.drop_last())
    } else {
        text
    }
}

/// `text` with white space removed at both ends.
pub open spec fn trim(text: Seq<char>) -> Seq<char> {
    trim_end(trim_start(text))
}

/// Whether `pattern` stands in `text` at index `i`, character for character.
pub open spec fn occurs_at(text: Seq<char>, pattern: Seq<char>, i: int) -> bool {
    0 <= i && i + pattern.len() <= text.len() && text.subrange(i, i + pattern.len()) == pattern
}

/// Whether `pattern` is a substring of `text`.
pub open spec fn contains(text: Seq<char>, pattern: Seq<char>) -> bool {
    exists|i: int| occurs_at(text, pattern, i)
}

/// The greatest index not above `bound` at which `pattern` stands in `text`,
/// or `-1` if there is none.
pub open spec fn last_at_most(text: Seq<char>, pattern: Seq<char>, bound: int) -> int
    decreases bound + 1,
{
    if bound < 0 {
        -1
    } else if occurs_at(text, pattern, bound) {
        bound
    } else {
        last_at_most(text, pattern, bound - 1)
    }
}

/// The index of the last occurrence of `pattern` in `text`, or `-1`.
pub open spec fn last_occurrence(text: Seq<char>, pattern: Seq<char>) -> int {
    last_at_most(text, pattern, text.len() - pattern.len())
}

/// Whether `text` begins with `prefix`.
pub open spec fn starts_with(text: Seq<char>, prefix: Seq<char>) -> bool {
    occurs_at(text, prefix, 0)
}

/// The length of the longest prefix of `text` made of digest characters.
pub open spec fn digest_run(text: Seq<char>) -> int
    decreases text.len(),
{
    if text.len() > 0 && is_digest_char(text[0]) {
        1 + digest_run(text.drop_first())
    } else {
        0
    }
}

/// The index of the first `c` in `text`, or its length if it has none.
pub open spec fn first_of(text: Seq<char>, c: char) -> int
    decreases text.len(),
{
    if text.len() == 0 {
        0
    } else if text[0] == c {
        0
    } else {
        1 + first_of(text.drop_first(), c)
    }
}

/// The index of the first line feed in `text`, or its length if it has none.
pub open spec fn first_newline(text: Seq<char>) -> int {
    first_of(text, '\n')
}

/// `line` without one trailing carriage return, if it has one.
pub open spec fn chomp(line: Seq<char>) -> Seq<char> {
    if line.len() > 0 && line.last() == '\r' {
        line.drop_last()
    } else {
        line
    }
}

/// The lines of `text`: it is cut after every line feed, each piece loses its
/// line feed and then one carriage return before it, and a last piece without a
/// line feed is a line as it stands. A text that ends in a line feed has no
/// empty last line.
pub open spec fn lines_of(text: Seq<char>) -> Seq<Seq<char>>
    decreases text.len(),
{
    if text.len() == 0 {
        Seq::empty()
    } else {
        let n = first_newline(text);
        if n < 0 || n >= text.len() {
            seq![text]
        } else {
            seq![chomp(text.take(n))] + lines_of(text.skip(n + 1))
        }
    }
}

/// The text made of `lines`, each followed by a line feed.
pub open spec fn join(lines: Seq<Seq<char>>) -> Seq<char>
    decreases lines.len(),
{
    if lines.len() == 0 {
        Seq::empty()
    } else {
        join(lines.drop_last()) + lines.last() + newline()
    }
}

/// The index of the first of `lines` that contains `pattern`, or their number if
/// none does.
pub open spec fn first_line_with(lines: Seq<Seq<char>>, pattern: Seq<char>) -> int
    decreases lines.len(),
{
    if lines.len() == 0 {
        0
    } else if contains(lines[0], pattern) {
        0
    } else {
        1 + first_line_with(lines.drop_first(), pattern)
    }
}

/// The pieces of `text` between single occurrences of `separator`; there is
/// always at least one piece.
pub open spec fn split_on(text: Seq<char>, separator: char) -> Seq<Seq<char>>
    decreases text.len(),
{
    if text.len() == 0 {
        seq![Seq::empty()]
    } else if text.last() == separator {
        split_on(text.drop_last(), separator).push(Seq::empty())
    } else {
        let before = split_on(text.drop_last(), separator);
        before.drop_last().push(before.last().push(text.last()))
    }
}

/// The views of a vector of character vectors.
pub open spec fn texts(lines: Seq<Vec<char>>) -> Seq<Seq<char>> {
    Seq::new(lines.len(), |i: int| lines[i]@)
}

/// The views of a vector of strings.
pub open spec fn strings(items: Seq<String>) -> Seq<Seq<char>> {
    Seq::new(items.len(), |i: int| items[i]@)
}

/// [`last_at_most`] is an occurrence where it is not `-1`, and no occurrence
/// lies between it and the bound.
pub proof fn lemma_last_at_most(text: Seq<char>, pattern: Seq<char>, bound: int)
    ensures
        -1 <= last_at_most(text, pattern, bound),
        last_at_most(text, pattern, bound) <= bound || bound < -1,
        last_at_most(text, pattern, bound) >= 0 ==> occurs_at(
            text,
            pattern,
            last_at_most(text, pattern, bound),
        ),
        forall|j: int|
            last_at_most(text, pattern, bound) < j <= bound ==> !occurs_at(text, pattern, j),
    decreases bound + 1,
{
    if bound >= 0 && !occurs_at(text, pattern, bound) {
        lemma_last_at_most(text, pattern, bound - 1);
    }
}

/// The last occurrence is an occurrence, no occurrence lies behind it, and there
/// is one exactly when the pattern is a substring.
pub proof fn lemma_last_occurrence(text: Seq<char>, pattern: Seq<char>)
    ensures
        -1 <= last_occurrence(text, pattern) <= text.len() - pattern.len() || last_occurrence(
            text,
            pattern,
        ) == -1,
        last_occurrence(text, pattern) >= 0 <==> contains(text, pattern),
        last_occurrence(text, pattern) >= 0 ==> occurs_at(
            text,
            pattern,
            last_occurrence(text, pattern),
        ),
        forall|j: int| occurs_at(text, pattern, j) ==> j <= last_occurrence(text, pattern),
{
    let bound = text.len() - pattern.len();
    lemma_last_at_most(text, pattern, bound);
    if contains(text, pattern) {
        let i = choose|i: int| occurs_at(text, pattern, i);
        assert(i <= bound);
    }
}

/// The first `c` lies within the text or at its end, no `c` stands before it,
/// and it is a `c` unless it is the end.
pub proof fn lemma_first_of(text: Seq<char>, c: char)
    ensures
        0 <= first_of(text, c) <= text.len(),
        forall|k: int| 0 <= k < first_of(text, c) ==> text[k] != c,
        first_of(text, c) < text.len() ==> text[first_of(text, c)] == c,
    decreases text.len(),
{
    if text.len() > 0 && text[0] != c {
        let rest = text.drop_first();
        lemma_first_of(rest, c);
        assert forall|k: int| 0 <= k < first_of(text, c) implies text[k] != c by {
            if k > 0 {
                assert(text[k] == rest[k - 1]);
            }
        }
    }
}

/// An index with no `c` before it, that holds one or is the end, is the first
/// `c`.
pub proof fn lemma_first_of_is(text: Seq<char>, c: char, n: int)
    requires
        0 <= n <= text.len(),
        forall|k: int| 0 <= k < n ==> text[k] != c,
        n < text.len() ==> text[n] == c,
    ensures
        first_of(text, c) == n,
{
    lemma_first_of(text, c);
}

/// The first line with the pattern lies among the lines or at their end, no
/// line before it contains the pattern, and it does unless it is the end.
pub proof fn lemma_first_line_with(lines: Seq<Seq<char>>, pattern: Seq<char>)
    ensures
        0 <= first_line_with(lines, pattern) <= lines.len(),
        forall|k: int|
            0 <= k < first_line_with(lines, pattern) ==> !contains(#[trigger] lines[k], pattern),
        first_line_with(lines, pattern) < lines.len() ==> contains(
            lines[first_line_with(lines, pattern)],
            pattern,
        ),
    decreases lines.len(),
{
    if lines.len() > 0 && !contains(lines[0], pattern) {
        let rest = lines.drop_first();
        lemma_first_line_with(rest, pattern);
        assert forall|k: int| 0 <= k < first_line_with(lines, pattern) implies !contains(
            #[trigger] lines[k],
            pattern,
        ) by {
            if k > 0 {
                assert(lines[k] == rest[k - 1]);
            }
        }
    }
}

/// An index with no matching line before it, that holds one or is the end, is
/// the first matching line.
pub proof fn lemma_first_line_with_is(lines: Seq<Seq<char>>, pattern: Seq<char>, n: int)
    requires
        0 <= n <= lines.len(),
        forall|k: int| 0 <= k < n ==> !contains(#[trigger] lines[k], pattern),
        n < lines.len() ==> contains(lines[n], pattern),
    ensures
        first_line_with(lines, pattern) == n,
{
    lemma_first_line_with(lines, pattern);
}

/// Joining distributes over concatenation.
pub proof fn lemma_join_concat(a: Seq<Seq<char>>, b: Seq<Seq<char>>)
    ensures
        join(a + b) == join(a) + join(b),
    decreases b.len(),
{
    if b.len() == 0 {
        assert(a + b =~= a);
    } else {
        lemma_join_concat(a, b.drop_last());
        assert((a + b).drop_last() =~= a + b.drop_last());
        assert((a + b).last() == b.last());
    }
}

/// One line joined is that line and a line feed.
pub proof fn lemma_join_one(line: Seq<char>)
    ensures
        join(seq![line]) == line + newline(),
{
    assert(seq![line].drop_last() =~= Seq::<Seq<char>>::empty());
    assert(join(Seq::<Seq<char>>::empty()) =~= Seq::<char>::empty());
    assert(join(seq![line]) =~= line + newline());
}

/// Text whose first `n` characters are white space, and no more, loses just
/// those at its head.
pub proof fn lemma_trim_start(text: Seq<char>, n: int)
    requires
        0 <= n <= text.len(),
        forall|k: int| 0 <= k < n ==> is_space(text[k]),
        n < text.len() ==> !is_space(text[n]),
    ensures
        trim_start(text) == text.skip(n),
    decreases n,
{
    if n == 0 {
        assert(text.skip(0) =~= text);
    } else {
        let rest = text.drop_first();
        assert forall|k: int| 0 <= k < n - 1 implies is_space(rest[k]) by {
            assert(rest[k] == text[k + 1]);
        }
        lemma_trim_start(rest, n - 1);
        assert(rest.skip(n - 1) =~= text.skip(n));
    }
}

/// Text whose characters from index `n` on are white space, and no more,
/// keeps just those before.
pub proof fn lemma_trim_end(text: Seq<char>, n: int)
    requires
        0 <= n <= text.len(),
        forall|k: int| n <= k < text.len() ==> is_space(text[k]),
        n > 0 ==> !is_space(text[n - 1]),
    ensures
        trim_end(text) == text.take(n),
    decreases text.len() - n,
{
    if n == text.len() {
        assert(text.take(n) =~= text);
    } else {
        let rest = text.drop_last();
        lemma_trim_end(rest, n);
        assert(rest.take(n) =~= text.take(n));
    }
}

/// A text is its leading white space and then the rest of it.
pub proof fn lemma_leading_space(text: Seq<char>)
    ensures
        trim_start(text).len() <= text.len(),
        leading_space(text) + trim_start(text) == text,
        trim_start(text) == text.skip(leading_space(text).len() as int),
        forall|i: int| 0 <= i < leading_space(text).len() ==> is_space(#[trigger] text[i]),
        trim_start(text).len() > 0 ==> !is_space(trim_start(text)[0]),
    decreases text.len(),
{
    if text.len() > 0 && is_space(text[0]) {
        let rest = text.drop_first();
        lemma_leading_space(rest);
        let k = leading_space(rest).len() as int;
        assert(text.skip(k + 1) =~= rest.skip(k));
        assert(leading_space(text) + trim_start(text) =~= text);
        assert forall|i: int| 0 <= i < leading_space(text).len() implies is_space(
            #[trigger] text[i],
        ) by {
            if i > 0 {
                assert(text[i] == rest[i - 1]);
            }
        }
    } else {
        assert(text.take(0) + text =~= text);
        assert(text.skip(0) =~= text);
    }
}

} // verus!
