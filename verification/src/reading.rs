//! How an assembled text reads back: facts about the lines of concatenated
//! texts and about walks over concatenated lines.

use crate::document::{
    echo, lemma_then_empty, lemma_then_then, then, walk, walk_block, walk_output, Progress,
    Settings,
};
use crate::executor::command_of;
use crate::markers::command_spec;
use crate::text::{
    chomp, contains, first_line_with, first_newline, join, lemma_first_line_with,
    lemma_first_line_with_is, lemma_first_of, lemma_first_of_is, lemma_join_concat, lines_of,
    newline,
};
use vstd::prelude::*;

verus! {

/// A line that reads back as itself: it holds no line feed and does not end in
/// a carriage return.
pub open spec fn clean(line: Seq<char>) -> bool {
    &&& forall|i: int| 0 <= i < line.len() ==> line[i] != '\n'
    &&& line.len() > 0 ==> line.last() != '\r'
}

/// Whether every one of `lines` is clean.
pub open spec fn all_clean(lines: Seq<Seq<char>>) -> bool {
    forall|i: int| 0 <= i < lines.len() ==> clean(#[trigger] lines[i])
}

/// Whether none of `lines` contains `pattern`.
pub open spec fn none_contain(lines: Seq<Seq<char>>, pattern: Seq<char>) -> bool {
    forall|i: int| 0 <= i < lines.len() ==> !contains(#[trigger] lines[i], pattern)
}

/// Whether `text` is made of whole lines: it is empty or ends in a line feed.
pub open spec fn ends_lines(text: Seq<char>) -> bool {
    text.len() == 0 || text.last() == '\n'
}

/// Whether `text` is what its own lines join to.
pub open spec fn line_normal(text: Seq<char>) -> bool {
    join(lines_of(text)) == text
}

/// Joined lines are whole lines.
pub proof fn lemma_join_ends_lines(lines: Seq<Seq<char>>)
    ensures
        ends_lines(join(lines)),
{
    if lines.len() > 0 {
        let text = join(lines.drop_last()) + lines.last() + newline();
        assert(text.last() == '\n');
    }
}

/// A clean line, a line feed and a text read back as the line and the lines of
/// the text.
pub proof fn lemma_lines_of_cons(line: Seq<char>, text: Seq<char>)
    requires
        clean(line),
    ensures
        lines_of(line + newline() + text) == seq![line] + lines_of(text),
{
    let whole = line + newline() + text;
    let n = line.len() as int;
    assert(whole[n] == '\n');
    assert forall|k: int| 0 <= k < n implies whole[k] != '\n' by {
        assert(whole[k] == line[k]);
    }
    lemma_first_of_is(whole, '\n', n);
    assert(whole.take(n) =~= line);
    assert(whole.skip(n + 1) =~= text);
    assert(chomp(line) == line);
}

/// Joined clean lines and a text read back as the lines and the lines of the
/// text.
pub proof fn lemma_lines_of_join(lines: Seq<Seq<char>>, text: Seq<char>)
    requires
        all_clean(lines),
    ensures
        lines_of(join(lines) + text) == lines + lines_of(text),
    decreases lines.len(),
{
    if lines.len() == 0 {
        assert(join(lines) + text =~= text);
        assert(lines + lines_of(text) =~= lines_of(text));
    } else {
        let head = lines.drop_last();
        let last = lines.last();
        assert(all_clean(head)) by {
            assert forall|i: int| 0 <= i < head.len() implies clean(#[trigger] head[i]) by {
                assert(head[i] == lines[i]);
            }
        }
        lemma_lines_of_cons(last, text);
        lemma_lines_of_join(head, last + newline() + text);
        assert(join(lines) + text =~= join(head) + (last + newline() + text));
        assert(head + (seq![last] + lines_of(text)) =~= lines + lines_of(text));
    }
}

/// Joined clean lines read back as themselves.
pub proof fn lemma_lines_of_joined(lines: Seq<Seq<char>>)
    requires
        all_clean(lines),
    ensures
        lines_of(join(lines)) == lines,
{
    lemma_lines_of_join(lines, Seq::empty());
    assert(join(lines) + Seq::<char>::empty() =~= join(lines));
    assert(lines + lines_of(Seq::<char>::empty()) =~= lines);
}

/// Whole lines and a text read back as the lines of the one and the lines of
/// the other.
pub proof fn lemma_lines_of_concat(head: Seq<char>, text: Seq<char>)
    requires
        ends_lines(head),
    ensures
        lines_of(head + text) == lines_of(head) + lines_of(text),
    decreases head.len(),
{
    if head.len() == 0 {
        assert(head + text =~= text);
        assert(lines_of(head) + lines_of(text) =~= lines_of(text));
    } else {
        let whole = head + text;
        let n = first_newline(head);
        lemma_first_of(head, '\n');
        assert(n < head.len()) by {
            if n >= head.len() {
                assert(head[head.len() - 1] != '\n');
            }
        }
        assert forall|k: int| 0 <= k < n implies whole[k] != '\n' by {
            assert(whole[k] == head[k]);
        }
        assert(whole[n] == head[n]);
        lemma_first_of_is(whole, '\n', n);
        let rest = head.skip(n + 1);
        assert(ends_lines(rest)) by {
            if rest.len() > 0 {
                assert(rest.last() == head.last());
            }
        }
        lemma_lines_of_concat(rest, text);
        assert(whole.take(n) =~= head.take(n));
        assert(whole.skip(n + 1) =~= rest + text);
        assert(seq![chomp(head.take(n))] + (lines_of(rest) + lines_of(text)) =~= (seq![
            chomp(head.take(n)),
        ] + lines_of(rest)) + lines_of(text));
    }
}

/// Behind lines that do not contain `pattern`, the first line that does is
/// found as far in as the first one of the lines that follow.
pub proof fn lemma_first_line_concat(a: Seq<Seq<char>>, b: Seq<Seq<char>>, pattern: Seq<char>)
    requires
        none_contain(a, pattern),
    ensures
        first_line_with(a + b, pattern) == a.len() + first_line_with(b, pattern),
{
    let n = first_line_with(b, pattern);
    lemma_first_line_with(b, pattern);
    let all = a + b;
    assert forall|k: int| 0 <= k < a.len() + n implies !contains(#[trigger] all[k], pattern) by {
        if k < a.len() {
            assert(all[k] == a[k]);
        } else {
            assert(all[k] == b[k - a.len()]);
        }
    }
    if n < b.len() {
        assert(all[a.len() + n] == b[n]);
    }
    lemma_first_line_with_is(all, pattern, a.len() + n);
}

/// A walk copies lines that open no block and goes on behind them.
pub proof fn lemma_walk_raw(
    cfg: Settings,
    a: Seq<Seq<char>>,
    b: Seq<Seq<char>>,
    outputs: Seq<Seq<char>>,
)
    requires
        none_contain(a, cfg.markers.start),
    ensures
        walk(cfg, a + b, outputs) == then(join(a), walk(cfg, b, outputs)),
{
    let all = a + b;
    let n = first_line_with(b, cfg.markers.start);
    lemma_first_line_with(b, cfg.markers.start);
    lemma_first_line_concat(a, b, cfg.markers.start);
    if n == b.len() {
        lemma_join_concat(a, b);
    } else {
        assert(all.take(a.len() + n) =~= a + b.take(n));
        assert(all.skip(a.len() + n) =~= b.skip(n));
        lemma_join_concat(a, b.take(n));
        lemma_then_then(join(a), join(b.take(n)), walk_block(cfg, b.skip(n), outputs));
    }
}

/// A walk over lines that open no block copies them all.
pub proof fn lemma_walk_plain(cfg: Settings, lines: Seq<Seq<char>>, outputs: Seq<Seq<char>>)
    requires
        none_contain(lines, cfg.markers.start),
    ensures
        walk(cfg, lines, outputs) == Progress::Finished(Ok(join(lines))),
{
    lemma_first_line_with(lines, cfg.markers.start);
}

/// A walk that begins at a start-of-block line is the walk of that block.
pub proof fn lemma_walk_at_block(cfg: Settings, lines: Seq<Seq<char>>, outputs: Seq<Seq<char>>)
    requires
        lines.len() > 0,
        contains(lines[0], cfg.markers.start),
    ensures
        walk(cfg, lines, outputs) == walk_block(cfg, lines, outputs),
{
    assert(lines.take(0) =~= Seq::<Seq<char>>::empty());
    assert(lines.skip(0) =~= lines);
    lemma_then_empty(walk_block(cfg, lines, outputs));
}

/// The walk of a block whose lines, from the start-of-block line through the
/// end-of-block line, are `block`: they are echoed, and the walk goes on in the
/// output region, which begins at the end-of-block line.
pub proof fn lemma_walk_block_head(
    cfg: Settings,
    block: Seq<Seq<char>>,
    rest: Seq<Seq<char>>,
    outputs: Seq<Seq<char>>,
)
    requires
        block.len() >= 2,
        forall|k: int| 1 <= k < block.len() - 1 ==> !contains(
            #[trigger] block[k],
            cfg.markers.end_block,
        ),
        contains(block.last(), cfg.markers.end_block),
    ensures
        walk_block(cfg, block + rest, outputs) == then(
            echo(cfg, block),
            walk_output(
                cfg,
                seq![block.last()] + rest,
                command_of(
                    command_spec(block[0], cfg.markers.start)->0,
                    join(block.subrange(1, block.len() - 1)),
                ),
                outputs,
            ),
        ),
{
    let all = block + rest;
    let e = block.len() - 1;
    let tail = all.skip(1);
    assert forall|k: int| 0 <= k < e - 1 implies !contains(
        #[trigger] tail[k],
        cfg.markers.end_block,
    ) by {
        assert(tail[k] == block[k + 1]);
    }
    assert(tail[e - 1] == block.last());
    lemma_first_line_with_is(tail, cfg.markers.end_block, e - 1);
    assert(all.take(e + 1) =~= block);
    assert(all.skip(e) =~= seq![block.last()] + rest);
    assert(all.subrange(1, e) =~= block.subrange(1, e));
    assert(all[0] == block[0]);
}

/// In an output region, behind lines that do not close it, the first line that
/// does is found.
pub proof fn lemma_region_closed(
    cfg: Settings,
    stale: Seq<Seq<char>>,
    line: Seq<char>,
    rest: Seq<Seq<char>>,
)
    requires
        none_contain(stale, cfg.markers.end_output),
        contains(line, cfg.markers.end_output),
    ensures
        first_line_with(stale + seq![line] + rest, cfg.markers.end_output) == stale.len(),
        (stale + seq![line] + rest)[stale.len() as int] == line,
        (stale + seq![line] + rest).skip(stale.len() as int + 1) == rest,
{
    let all = stale + seq![line] + rest;
    assert(all =~= stale + (seq![line] + rest));
    lemma_first_line_concat(stale, seq![line] + rest, cfg.markers.end_output);
    assert((seq![line] + rest)[0] == line);
    assert(all.skip(stale.len() as int + 1) =~= rest);
}

/// An output region none of whose lines closes it runs to the document's end.
pub proof fn lemma_region_open(cfg: Settings, lines: Seq<Seq<char>>)
    requires
        none_contain(lines, cfg.markers.end_output),
    ensures
        first_line_with(lines, cfg.markers.end_output) == lines.len(),
{
    lemma_first_line_with(lines, cfg.markers.end_output);
}

} // verus!
