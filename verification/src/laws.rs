//! What holds of every pass: the laws of the processor, each proved from the
//! model in [`crate::document`].

use crate::checksum::{annotation, checksum_lead, digest_of, hex, hex_digit, md5_digest, stamp};
use crate::document::{
    behind_marker, block_commands, closing_line, commands, output_commands, has_block, parse, process, then, walk, walk_block, walk_output,
    Parsed, Progress, Settings,
};
use crate::error::Failure;
use crate::executor::{command_of, Command, ExecutionResult, Invocation};
use crate::markers::{annotation_at, closing, command_spec, lemma_parts_make_the_line};
use crate::reading::{
    all_clean, clean, ends_lines, lemma_first_line_concat, lemma_join_ends_lines,
    lemma_lines_of_concat, lemma_lines_of_cons, lemma_lines_of_join, lemma_lines_of_joined,
    lemma_region_closed, lemma_region_open, lemma_walk_at_block, lemma_walk_block_head,
    lemma_walk_plain, lemma_walk_raw, line_normal, none_contain,
};
use crate::text::{
    chomp, contains, digest_run, first_line_with, first_newline, is_digest_char, is_space, join,
    last_occurrence, leading_space, lemma_first_line_with, lemma_first_of, lemma_join_concat,
    lemma_join_one, lemma_last_occurrence, lemma_leading_space, lemma_trim_start, lines_of,
    newline, occurs_at, trim_start,
};
use crate::{answers, explains, outputs_of, reply};
use vstd::prelude::*;
use vstd::utf8::encode_utf8;

verus! {

/// Whether `given` holds the first of `outputs`, in order.
pub open spec fn is_prefix(given: Seq<Seq<char>>, outputs: Seq<Seq<char>>) -> bool {
    given.len() <= outputs.len() && given == outputs.take(given.len() as int)
}

/// Whether a text can stand among the copied lines of a document without being
/// taken for anything else when read again: it is what its lines join to, and
/// none of its lines opens a block.
pub open spec fn plain(cfg: Settings, text: Seq<char>) -> bool {
    line_normal(text) && none_contain(lines_of(text), cfg.markers.start)
}

/// Whether the fresh output `fresh` of a block leaves a second pass
/// undisturbed.
///
/// Where markers are deleted the output becomes ordinary text of the result,
/// so it has to be [`plain`]. Where they are retained it lies in an output
/// region: none of its lines may close the region, and where an end-of-output
/// line follows (`closed`), it has to end in a line feed, or be empty, so that
/// the line begins a line of its own.
pub open spec fn settled_output(cfg: Settings, fresh: Seq<char>, closed: bool) -> bool {
    if cfg.delete_blocks {
        plain(cfg, fresh)
    } else {
        (closed ==> ends_lines(fresh)) && none_contain(lines_of(fresh), cfg.markers.end_output)
    }
}

/// Whether the end-of-output line `line`, as it is written behind the fresh
/// output `fresh`, is a clean line that is written as itself when it is read
/// again. Nothing is asked where markers are deleted.
pub open spec fn settled_closing(cfg: Settings, line: Seq<char>, fresh: Seq<char>) -> bool {
    cfg.delete_blocks || match closing_line(cfg, line, fresh) {
        Ok(end) => clean(end.drop_last()) && closing_line(cfg, end.drop_last(), fresh) == Ok::<
            Seq<char>,
            Failure,
        >(end),
        Err(_) => true,
    }
}

/// Whether the blocks that a walk over `lines` meets are such that the result
/// reads back as itself, given the outputs of their commands.
///
/// Of each block whose output region an end-of-output line closes, it asks that
/// the end-of-block line is not that line (where markers are retained) and,
/// unless output is omitted, that the fresh output is settled and that the
/// end-of-output line is. Of a block whose output region runs to the
/// document's end it asks that the fresh output is settled. It asks nothing of
/// a block without an end-of-block line.
pub open spec fn stable(cfg: Settings, lines: Seq<Seq<char>>, outputs: Seq<Seq<char>>) -> bool
    decreases lines.len(), 2int,
{
    let s = first_line_with(lines, cfg.markers.start);
    if s < 0 || s >= lines.len() {
        true
    } else {
        stable_block(cfg, lines.skip(s), outputs)
    }
}

/// [`stable`], from a start-of-block line.
pub open spec fn stable_block(
    cfg: Settings,
    lines: Seq<Seq<char>>,
    outputs: Seq<Seq<char>>,
) -> bool
    decreases lines.len(), 1int,
{
    if lines.len() == 0 {
        true
    } else {
        let e = 1 + first_line_with(lines.skip(1), cfg.markers.end_block);
        if e < 1 || e >= lines.len() {
            true
        } else {
            stable_output(cfg, lines.skip(e), outputs)
        }
    }
}

/// [`stable`], from an end-of-block line.
pub open spec fn stable_output(
    cfg: Settings,
    lines: Seq<Seq<char>>,
    outputs: Seq<Seq<char>>,
) -> bool
    decreases lines.len(), 0int,
{
    let o = first_line_with(lines, cfg.markers.end_output);
    if o < 0 || o >= lines.len() {
        outputs.len() > 0 ==> settled_output(cfg, outputs[0], false)
    } else if cfg.omit_output {
        &&& cfg.delete_blocks || o >= 1
        &&& stable(cfg, lines.skip(o + 1), outputs)
    } else {
        outputs.len() > 0 ==> {
            &&& cfg.delete_blocks || o >= 1
            &&& settled_output(cfg, outputs[0], true)
            &&& settled_closing(cfg, lines[o], outputs[0])
            &&& stable(cfg, lines.skip(o + 1), outputs.skip(1))
        }
    }
}

/// What a second pass with markers retained comes to, given what the first
/// pass came to with the same outputs and the text that the first pass
/// assembles with all of them: it waits for the same command, or finishes with
/// that text.
pub open spec fn second(first: Progress, text: Seq<char>) -> Progress {
    match first {
        Progress::Pending(command) => Progress::Pending(command),
        _ => Progress::Finished(Ok(text)),
    }
}

proof fn lemma_clean_part(lines: Seq<Seq<char>>, from: int, to: int)
    requires
        all_clean(lines),
        0 <= from <= to <= lines.len(),
    ensures
        all_clean(lines.subrange(from, to)),
{
    let part = lines.subrange(from, to);
    assert forall|i: int| 0 <= i < part.len() implies clean(#[trigger] part[i]) by {
        assert(part[i] == lines[from + i]);
    }
}

proof fn lemma_none_before(lines: Seq<Seq<char>>, pattern: Seq<char>)
    ensures
        0 <= first_line_with(lines, pattern) <= lines.len(),
        none_contain(lines.take(first_line_with(lines, pattern)), pattern),
        first_line_with(lines, pattern) < lines.len() ==> contains(
            lines[first_line_with(lines, pattern)],
            pattern,
        ),
{
    lemma_first_line_with(lines, pattern);
    let n = first_line_with(lines, pattern);
    let head = lines.take(n);
    assert forall|i: int| 0 <= i < head.len() implies !contains(#[trigger] head[i], pattern) by {
        assert(head[i] == lines[i]);
    }
}

proof fn lemma_second_then(text: Seq<char>, first: Progress, tail: Seq<char>)
    ensures
        then(text, second(first, tail)) == second(then(text, first), text + tail),
{
}

proof fn lemma_plain_empty(cfg: Settings)
    ensures
        plain(cfg, Seq::empty()),
{
    assert(lines_of(Seq::<char>::empty()) =~= Seq::<Seq<char>>::empty());
    assert(join(Seq::<Seq<char>>::empty()) =~= Seq::<char>::empty());
}

proof fn lemma_plain_join(cfg: Settings, lines: Seq<Seq<char>>)
    requires
        all_clean(lines),
        none_contain(lines, cfg.markers.start),
    ensures
        plain(cfg, join(lines)),
{
    lemma_lines_of_joined(lines);
}

proof fn lemma_plain_concat(cfg: Settings, a: Seq<char>, b: Seq<char>)
    requires
        plain(cfg, a),
        plain(cfg, b),
    ensures
        plain(cfg, a + b),
{
    lemma_join_ends_lines(lines_of(a));
    lemma_lines_of_concat(a, b);
    lemma_join_concat(lines_of(a), lines_of(b));
    let all = lines_of(a) + lines_of(b);
    assert forall|i: int| 0 <= i < all.len() implies !contains(
        #[trigger] all[i],
        cfg.markers.start,
    ) by {
        if i < lines_of(a).len() {
            assert(all[i] == lines_of(a)[i]);
        } else {
            assert(all[i] == lines_of(b)[i - lines_of(a).len()]);
        }
    }
}

/// With markers deleted, what a settled pass assembles is plain text.
proof fn lemma_flat_walk(cfg: Settings, lines: Seq<Seq<char>>, outputs: Seq<Seq<char>>)
    requires
        cfg.delete_blocks,
        all_clean(lines),
        stable(cfg, lines, outputs),
        walk(cfg, lines, outputs) matches Progress::Finished(Ok(_)),
    ensures
        plain(cfg, walk(cfg, lines, outputs)->Finished_0->Ok_0),
    decreases lines.len(), 2int,
{
    let s = first_line_with(lines, cfg.markers.start);
    lemma_none_before(lines, cfg.markers.start);
    lemma_clean_part(lines, 0, s);
    lemma_plain_join(cfg, lines.take(s));
    if s >= lines.len() {
        assert(lines.take(s) =~= lines);
    } else {
        let rest = lines.skip(s);
        lemma_clean_part(lines, s, lines.len() as int);
        lemma_flat_block(cfg, rest, outputs);
        lemma_plain_concat(
            cfg,
            join(lines.take(s)),
            walk_block(cfg, rest, outputs)->Finished_0->Ok_0,
        );
    }
}

proof fn lemma_flat_block(cfg: Settings, lines: Seq<Seq<char>>, outputs: Seq<Seq<char>>)
    requires
        cfg.delete_blocks,
        all_clean(lines),
        stable_block(cfg, lines, outputs),
        walk_block(cfg, lines, outputs) matches Progress::Finished(Ok(_)),
    ensures
        plain(cfg, walk_block(cfg, lines, outputs)->Finished_0->Ok_0),
    decreases lines.len(), 1int,
{
    lemma_plain_empty(cfg);
    if lines.len() > 0 {
        let e = 1 + first_line_with(lines.skip(1), cfg.markers.end_block);
        lemma_first_line_with(lines.skip(1), cfg.markers.end_block);
        if e < lines.len() {
            let command = command_of(
                command_spec(lines[0], cfg.markers.start)->0,
                join(lines.subrange(1, e)),
            );
            lemma_clean_part(lines, e, lines.len() as int);
            lemma_flat_output(cfg, lines.skip(e), command, outputs);
            let tail = walk_output(cfg, lines.skip(e), command, outputs)->Finished_0->Ok_0;
            assert(Seq::<char>::empty() + tail =~= tail);
        }
    }
}

proof fn lemma_flat_output(
    cfg: Settings,
    lines: Seq<Seq<char>>,
    command: Command,
    outputs: Seq<Seq<char>>,
)
    requires
        cfg.delete_blocks,
        all_clean(lines),
        stable_output(cfg, lines, outputs),
        walk_output(cfg, lines, command, outputs) matches Progress::Finished(Ok(_)),
    ensures
        plain(cfg, walk_output(cfg, lines, command, outputs)->Finished_0->Ok_0),
    decreases lines.len(), 0int,
{
    let o = first_line_with(lines, cfg.markers.end_output);
    lemma_first_line_with(lines, cfg.markers.end_output);
    if o < lines.len() {
        lemma_clean_part(lines, o + 1, lines.len() as int);
        if cfg.omit_output {
            lemma_flat_walk(cfg, lines.skip(o + 1), outputs);
            let tail = walk(cfg, lines.skip(o + 1), outputs)->Finished_0->Ok_0;
            assert(Seq::<char>::empty() + tail =~= tail);
        } else {
            lemma_flat_walk(cfg, lines.skip(o + 1), outputs.skip(1));
            let tail = walk(cfg, lines.skip(o + 1), outputs.skip(1))->Finished_0->Ok_0;
            assert(outputs[0] + Seq::<char>::empty() =~= outputs[0]);
            lemma_plain_concat(cfg, outputs[0], tail);
        }
    }
}

/// What is written for an end-of-output line is a line that contains the
/// marker.
proof fn lemma_written_closes(cfg: Settings, line: Seq<char>, fresh: Seq<char>)
    requires
        !cfg.delete_blocks,
        contains(line, cfg.markers.end_output),
        closing_line(cfg, line, fresh) is Ok,
    ensures
        closing_line(cfg, line, fresh)->Ok_0.len() > 0,
        closing_line(cfg, line, fresh)->Ok_0 == closing_line(cfg, line, fresh)->Ok_0.drop_last()
            + newline(),
        contains(closing_line(cfg, line, fresh)->Ok_0.drop_last(), cfg.markers.end_output),
{
    let end = closing_line(cfg, line, fresh)->Ok_0;
    if cfg.omit_output {
        lemma_join_one(line);
        assert(end =~= line + newline());
        assert(end.drop_last() =~= line);
    } else {
        let parts = closing(line, cfg.markers.end_output)->0;
        let note = stamp(cfg.checksum, fresh, parts.checksum)->Ok_0;
        let behind = behind_marker(cfg, parts, note);
        let written = parts.prefix + parts.marker + behind + parts.suffix;
        assert(end =~= written + newline());
        assert(end.drop_last() =~= written);
        let at = parts.prefix.len() as int;
        assert(parts.marker == cfg.markers.end_output) by {
            lemma_last_occurrence(line, cfg.markers.end_output);
        }
        assert(written.subrange(at, at + parts.marker.len()) =~= parts.marker);
        assert(occurs_at(written, cfg.markers.end_output, at));
    }
}

/// With markers retained, a second pass over what a settled pass assembled
/// comes to what [`second`] says.
proof fn lemma_again_walk(
    cfg: Settings,
    lines: Seq<Seq<char>>,
    outputs: Seq<Seq<char>>,
    given: Seq<Seq<char>>,
)
    requires
        !cfg.delete_blocks,
        all_clean(lines),
        stable(cfg, lines, outputs),
        is_prefix(given, outputs),
        walk(cfg, lines, outputs) matches Progress::Finished(Ok(_)),
    ensures
        walk(cfg, lines_of(walk(cfg, lines, outputs)->Finished_0->Ok_0), given) == second(
            walk(cfg, lines, given),
            walk(cfg, lines, outputs)->Finished_0->Ok_0,
        ),
        has_block(cfg, lines) ==> has_block(
            cfg,
            lines_of(walk(cfg, lines, outputs)->Finished_0->Ok_0),
        ),
    decreases lines.len(), 2int,
{
    let s = first_line_with(lines, cfg.markers.start);
    let text = walk(cfg, lines, outputs)->Finished_0->Ok_0;
    lemma_none_before(lines, cfg.markers.start);
    lemma_clean_part(lines, 0, s);
    let head = lines.take(s);
    if s >= lines.len() {
        assert(head =~= lines);
        lemma_lines_of_joined(lines);
    } else {
        let rest = lines.skip(s);
        lemma_clean_part(lines, s, lines.len() as int);
        assert(rest[0] == lines[s]);
        lemma_again_block(cfg, rest, outputs, given);
        let tail = walk_block(cfg, rest, outputs)->Finished_0->Ok_0;
        assert(text == join(head) + tail);
        lemma_lines_of_join(head, tail);
        lemma_walk_raw(cfg, head, lines_of(tail), given);
        lemma_second_then(join(head), walk_block(cfg, rest, given), tail);
        lemma_first_line_concat(head, lines_of(tail), cfg.markers.start);
        lemma_first_line_with(lines_of(tail), cfg.markers.start);
    }
}

proof fn lemma_again_block(
    cfg: Settings,
    lines: Seq<Seq<char>>,
    outputs: Seq<Seq<char>>,
    given: Seq<Seq<char>>,
)
    requires
        !cfg.delete_blocks,
        all_clean(lines),
        lines.len() > 0,
        contains(lines[0], cfg.markers.start),
        stable_block(cfg, lines, outputs),
        is_prefix(given, outputs),
        walk_block(cfg, lines, outputs) matches Progress::Finished(Ok(_)),
    ensures
        walk(cfg, lines_of(walk_block(cfg, lines, outputs)->Finished_0->Ok_0), given) == second(
            walk_block(cfg, lines, given),
            walk_block(cfg, lines, outputs)->Finished_0->Ok_0,
        ),
        lines_of(walk_block(cfg, lines, outputs)->Finished_0->Ok_0).len() > 0,
        lines_of(walk_block(cfg, lines, outputs)->Finished_0->Ok_0)[0] == lines[0],
    decreases lines.len(), 1int,
{
    let e = 1 + first_line_with(lines.skip(1), cfg.markers.end_block);
    let text = walk_block(cfg, lines, outputs)->Finished_0->Ok_0;
    lemma_first_line_with(lines.skip(1), cfg.markers.end_block);
    if e >= lines.len() {
        lemma_lines_of_joined(lines);
        lemma_walk_at_block(cfg, lines, given);
    } else {
        let block = lines.take(e + 1);
        let rest = lines.skip(e);
        let command = command_of(
            command_spec(lines[0], cfg.markers.start)->0,
            join(lines.subrange(1, e)),
        );
        lemma_clean_part(lines, 0, e + 1);
        lemma_clean_part(lines, e, lines.len() as int);
        lemma_again_output(cfg, rest, command, outputs, given);
        let tail = walk_output(cfg, rest, command, outputs)->Finished_0->Ok_0;
        assert(text == join(block) + tail);
        lemma_lines_of_join(block, tail);
        let again = block + lines_of(tail);
        assert(again[0] == lines[0]);
        lemma_walk_at_block(cfg, again, given);
        assert forall|k: int| 1 <= k < block.len() - 1 implies !contains(
            #[trigger] block[k],
            cfg.markers.end_block,
        ) by {
            assert(block[k] == lines.skip(1)[k - 1]);
        }
        assert(block.last() == lines.skip(1)[e - 1]);
        lemma_walk_block_head(cfg, block, lines_of(tail), given);
        assert(block.subrange(1, block.len() - 1) =~= lines.subrange(1, e));
        assert(block[0] == lines[0]);
        assert(block.last() == rest[0]);
        lemma_second_then(join(block), walk_output(cfg, rest, command, given), tail);
    }
}

proof fn lemma_again_output(
    cfg: Settings,
    lines: Seq<Seq<char>>,
    command: Command,
    outputs: Seq<Seq<char>>,
    given: Seq<Seq<char>>,
)
    requires
        !cfg.delete_blocks,
        all_clean(lines),
        lines.len() >= 1,
        stable_output(cfg, lines, outputs),
        is_prefix(given, outputs),
        walk_output(cfg, lines, command, outputs) matches Progress::Finished(Ok(_)),
    ensures
        walk_output(
            cfg,
            seq![lines[0]] + lines_of(walk_output(cfg, lines, command, outputs)->Finished_0->Ok_0),
            command,
            given,
        ) == second(
            walk_output(cfg, lines, command, given),
            walk_output(cfg, lines, command, outputs)->Finished_0->Ok_0,
        ),
    decreases lines.len(), 0int,
{
    let o = first_line_with(lines, cfg.markers.end_output);
    let text = walk_output(cfg, lines, command, outputs)->Finished_0->Ok_0;
    let first = seq![lines[0]];
    lemma_none_before(lines, cfg.markers.end_output);
    if given.len() > 0 {
        assert(given[0] == outputs.take(given.len() as int)[0]);
    }
    if o >= lines.len() {
        let again = first + lines_of(text);
        assert(lines.take(o)[0] == lines[0]);
        assert forall|i: int| 0 <= i < again.len() implies !contains(
            #[trigger] again[i],
            cfg.markers.end_output,
        ) by {
            if i >= 1 {
                assert(again[i] == lines_of(text)[i - 1]);
            }
        }
        lemma_region_open(cfg, again);
    } else {
        assert(lines.take(o)[0] == lines[0]);
        let fresh: Seq<char> = if cfg.omit_output {
            Seq::empty()
        } else {
            outputs[0]
        };
        let left = if cfg.omit_output {
            outputs
        } else {
            outputs.skip(1)
        };
        let end = closing_line(cfg, lines[o], fresh)->Ok_0;
        let written = end.drop_last();
        lemma_written_closes(cfg, lines[o], fresh);
        if cfg.omit_output {
            lemma_join_one(lines[o]);
            assert(end =~= lines[o] + newline());
            assert(written =~= lines[o]);
        }
        let rest = lines.skip(o + 1);
        lemma_clean_part(lines, o + 1, lines.len() as int);
        let tail = walk(cfg, rest, left)->Finished_0->Ok_0;
        let now = if cfg.omit_output {
            given
        } else if given.len() > 0 {
            given.skip(1)
        } else {
            given
        };
        assert(is_prefix(now, left)) by {
            if !cfg.omit_output && given.len() > 0 {
                assert(given.skip(1) =~= outputs.skip(1).take(given.len() - 1));
            } else if !cfg.omit_output {
                assert(given =~= outputs.skip(1).take(0));
            }
        }
        lemma_again_walk(cfg, rest, left, now);
        assert(text =~= fresh + (written + newline() + tail));
        lemma_lines_of_cons(written, tail);
        if !cfg.omit_output {
            lemma_lines_of_concat(fresh, written + newline() + tail);
        } else {
            assert(fresh + (written + newline() + tail) =~= written + newline() + tail);
            assert(lines_of(fresh) =~= Seq::<Seq<char>>::empty());
        }
        let stale = first + lines_of(fresh);
        assert forall|i: int| 0 <= i < stale.len() implies !contains(
            #[trigger] stale[i],
            cfg.markers.end_output,
        ) by {
            if i >= 1 {
                assert(stale[i] == lines_of(fresh)[i - 1]);
            }
        }
        lemma_region_closed(cfg, stale, written, lines_of(tail));
        let again = first + lines_of(text);
        assert(again =~= stale + seq![written] + lines_of(tail));
        if cfg.omit_output || given.len() > 0 {
            lemma_second_then(fresh + end, walk(cfg, rest, now), tail);
            assert(fresh + end + tail =~= text);
            if cfg.omit_output {
                assert(fresh + end =~= end);
            }
        }
    }
}

/// A pass over text that a settled pass assembled, with the same outputs,
/// assembles that text again.
///
/// The text is what the walk over `lines` comes to with `outputs`. The lines
/// have to be clean and the blocks [`stable`].
pub proof fn law_idempotence(cfg: Settings, lines: Seq<Seq<char>>, outputs: Seq<Seq<char>>)
    requires
        all_clean(lines),
        stable(cfg, lines, outputs),
        walk(cfg, lines, outputs) matches Progress::Finished(Ok(_)),
    ensures
        walk(cfg, lines_of(walk(cfg, lines, outputs)->Finished_0->Ok_0), outputs)
            == walk(cfg, lines, outputs),
{
    let text = walk(cfg, lines, outputs)->Finished_0->Ok_0;
    if cfg.delete_blocks {
        lemma_flat_walk(cfg, lines, outputs);
        lemma_walk_plain(cfg, lines_of(text), outputs);
    } else {
        assert(outputs.take(outputs.len() as int) =~= outputs);
        lemma_again_walk(cfg, lines, outputs, outputs);
    }
}

/// With markers retained, a second pass asks for the same commands as the
/// first: given the outputs of the first commands only, it waits for the
/// command that the first pass waited for, and finishes where that finished.
pub proof fn law_second_pass_asks_the_same(
    cfg: Settings,
    lines: Seq<Seq<char>>,
    outputs: Seq<Seq<char>>,
    given: Seq<Seq<char>>,
)
    requires
        !cfg.delete_blocks,
        all_clean(lines),
        stable(cfg, lines, outputs),
        is_prefix(given, outputs),
        walk(cfg, lines, outputs) matches Progress::Finished(Ok(_)),
    ensures
        walk(cfg, lines_of(walk(cfg, lines, outputs)->Finished_0->Ok_0), given) == second(
            walk(cfg, lines, given),
            walk(cfg, lines, outputs)->Finished_0->Ok_0,
        ),
{
    lemma_again_walk(cfg, lines, outputs, given);
}

/// With markers deleted, a second pass runs nothing: the text that a settled
/// pass assembled holds no block.
pub proof fn law_deleted_blocks_leave_none(
    cfg: Settings,
    lines: Seq<Seq<char>>,
    outputs: Seq<Seq<char>>,
)
    requires
        cfg.delete_blocks,
        all_clean(lines),
        stable(cfg, lines, outputs),
        walk(cfg, lines, outputs) matches Progress::Finished(Ok(_)),
    ensures
        !has_block(cfg, lines_of(walk(cfg, lines, outputs)->Finished_0->Ok_0)),
{
    lemma_flat_walk(cfg, lines, outputs);
    lemma_first_line_with(
        lines_of(walk(cfg, lines, outputs)->Finished_0->Ok_0),
        cfg.markers.start,
    );
}

/// No line of a document holds a line feed.
pub proof fn lemma_lines_hold_no_newline(document: Seq<char>)
    ensures
        forall|i: int, k: int|
            0 <= i < lines_of(document).len() && 0 <= k < lines_of(document)[i].len()
                ==> #[trigger] lines_of(document)[i][k] != '\n',
    decreases document.len(),
{
    if document.len() > 0 {
        let n = first_newline(document);
        lemma_first_of(document, '\n');
        let lines = lines_of(document);
        if n >= document.len() {
            assert(lines =~= seq![document]);
        } else {
            let rest = lines_of(document.skip(n + 1));
            lemma_lines_hold_no_newline(document.skip(n + 1));
            let piece = chomp(document.take(n));
            assert forall|i: int, k: int|
                0 <= i < lines.len() && 0 <= k < lines[i].len() implies #[trigger] lines[i][k]
                != '\n' by {
                if i == 0 {
                    assert(lines[0] == piece);
                    assert(piece[k] == document[k]);
                } else {
                    assert(lines[i] == rest[i - 1]);
                }
            }
        }
    }
}

/// Whether no line of `document` ends in a carriage return.
pub open spec fn tidy(document: Seq<char>) -> bool {
    forall|i: int|
        0 <= i < lines_of(document).len() && lines_of(document)[i].len() > 0 ==> (
        #[trigger] lines_of(document)[i]).last() != '\r'
}

/// The lines of a tidy document are clean.
proof fn lemma_tidy_lines_are_clean(document: Seq<char>)
    requires
        tidy(document),
    ensures
        all_clean(lines_of(document)),
{
    let lines = lines_of(document);
    lemma_lines_hold_no_newline(document);
    assert forall|i: int| 0 <= i < lines.len() implies clean(#[trigger] lines[i]) by {
        assert forall|k: int| 0 <= k < lines[i].len() implies lines[i][k] != '\n' by {
            assert(lines_of(document)[i][k] != '\n');
        }
    }
}

/// Processing a document twice comes to what processing it once comes to.
///
/// Stated of a document that is [`tidy`] and whose blocks are [`stable`], of
/// a pass that is not check-only and that succeeds, and of a second pass whose
/// commands print what they printed in the first. Where markers are deleted
/// the result holds no block, so the law leaves out the configuration that
/// deletes markers and fails on documents without blocks.
pub proof fn law_processing_twice(cfg: Settings, document: Seq<char>, outputs: Seq<Seq<char>>)
    requires
        !cfg.check_only,
        !(cfg.delete_blocks && cfg.warn_if_no_blocks),
        tidy(document),
        stable(cfg, lines_of(document), outputs),
        process(cfg, document, outputs) matches Some(Ok(_)),
    ensures
        process(cfg, process(cfg, document, outputs)->0->Ok_0, outputs) == process(
            cfg,
            document,
            outputs,
        ),
{
    let lines = lines_of(document);
    lemma_tidy_lines_are_clean(document);
    law_idempotence(cfg, lines, outputs);
    if !cfg.delete_blocks {
        assert(outputs.take(outputs.len() as int) =~= outputs);
        lemma_again_walk(cfg, lines, outputs, outputs);
    }
}

proof fn lemma_walk_ignores_policies(
    cfg: Settings,
    other: Settings,
    lines: Seq<Seq<char>>,
    outputs: Seq<Seq<char>>,
)
    requires
        other == (Settings {
            check_only: other.check_only,
            warn_if_no_blocks: other.warn_if_no_blocks,
            ..cfg
        }),
    ensures
        walk(other, lines, outputs) == walk(cfg, lines, outputs),
    decreases lines.len(), 2int,
{
    let s = first_line_with(lines, cfg.markers.start);
    if !(s < 0 || s >= lines.len()) {
        lemma_block_ignores_policies(cfg, other, lines.skip(s), outputs);
    }
}

proof fn lemma_block_ignores_policies(
    cfg: Settings,
    other: Settings,
    lines: Seq<Seq<char>>,
    outputs: Seq<Seq<char>>,
)
    requires
        other == (Settings {
            check_only: other.check_only,
            warn_if_no_blocks: other.warn_if_no_blocks,
            ..cfg
        }),
    ensures
        walk_block(other, lines, outputs) == walk_block(cfg, lines, outputs),
    decreases lines.len(), 1int,
{
    if lines.len() > 0 {
        let e = 1 + first_line_with(lines.skip(1), cfg.markers.end_block);
        if !(e < 1 || e >= lines.len()) {
            let command = command_of(
                command_spec(lines[0], cfg.markers.start)->0,
                join(lines.subrange(1, e)),
            );
            lemma_output_ignores_policies(cfg, other, lines.skip(e), command, outputs);
        }
    }
}

proof fn lemma_output_ignores_policies(
    cfg: Settings,
    other: Settings,
    lines: Seq<Seq<char>>,
    command: Command,
    outputs: Seq<Seq<char>>,
)
    requires
        other == (Settings {
            check_only: other.check_only,
            warn_if_no_blocks: other.warn_if_no_blocks,
            ..cfg
        }),
    ensures
        walk_output(other, lines, command, outputs) == walk_output(cfg, lines, command, outputs),
    decreases lines.len(), 0int,
{
    let o = first_line_with(lines, cfg.markers.end_output);
    if !(o < 0 || o >= lines.len()) {
        if cfg.omit_output {
            lemma_walk_ignores_policies(cfg, other, lines.skip(o + 1), outputs);
        } else if outputs.len() > 0 {
            lemma_walk_ignores_policies(cfg, other, lines.skip(o + 1), outputs.skip(1));
        }
    }
}

/// What a pass assembles does not depend on whether it only checks, nor on
/// whether it tells of documents without blocks.
pub proof fn law_policies_do_not_change_the_text(
    cfg: Settings,
    other: Settings,
    document: Seq<char>,
    outputs: Seq<Seq<char>>,
)
    requires
        other == (Settings {
            check_only: other.check_only,
            warn_if_no_blocks: other.warn_if_no_blocks,
            ..cfg
        }),
    ensures
        parse(other, document, outputs) == parse(cfg, document, outputs),
{
    lemma_walk_ignores_policies(cfg, other, lines_of(document), outputs);
}

/// A check-only pass over a document succeeds exactly when the same pass
/// without check-only returns the document as it is.
pub proof fn law_check_only_reflects_drift(
    cfg: Settings,
    document: Seq<char>,
    outputs: Seq<Seq<char>>,
)
    ensures
        process(Settings { check_only: true, ..cfg }, document, outputs) is Some && process(
            Settings { check_only: true, ..cfg },
            document,
            outputs,
        )->0 is Ok <==> process(Settings { check_only: false, ..cfg }, document, outputs) == Some(
            Ok::<Seq<char>, Failure>(document),
        ),
        process(Settings { check_only: true, ..cfg }, document, outputs) matches Some(Ok(text))
            ==> text == document,
{
    let checking = Settings { check_only: true, ..cfg };
    let writing = Settings { check_only: false, ..cfg };
    law_policies_do_not_change_the_text(cfg, checking, document, outputs);
    law_policies_do_not_change_the_text(cfg, writing, document, outputs);
}

/// The empty document holds no block and is assembled as it is: processing it
/// fails where documents without blocks are to be told of, and else returns
/// it.
pub proof fn law_empty_document(cfg: Settings, outputs: Seq<Seq<char>>)
    ensures
        process(cfg, Seq::empty(), outputs) == Some(
            if cfg.warn_if_no_blocks {
                Err::<Seq<char>, Failure>(Failure::NoBlocksDetected)
            } else {
                Ok::<Seq<char>, Failure>(Seq::empty())
            },
        ),
{
    let lines = lines_of(Seq::<char>::empty());
    assert(lines =~= Seq::<Seq<char>>::empty());
    assert(join(lines) =~= Seq::<char>::empty());
}

/// Whether every output region that a walk over `lines` meets is closed by an
/// end-of-output line.
pub open spec fn regions_closed(cfg: Settings, lines: Seq<Seq<char>>) -> bool
    decreases lines.len(), 2int,
{
    let s = first_line_with(lines, cfg.markers.start);
    if s < 0 || s >= lines.len() {
        true
    } else {
        block_regions_closed(cfg, lines.skip(s))
    }
}

/// [`regions_closed`], from a start-of-block line.
pub open spec fn block_regions_closed(cfg: Settings, lines: Seq<Seq<char>>) -> bool
    decreases lines.len(), 1int,
{
    if lines.len() == 0 {
        true
    } else {
        let e = 1 + first_line_with(lines.skip(1), cfg.markers.end_block);
        if e < 1 || e >= lines.len() {
            true
        } else {
            let o = e + first_line_with(lines.skip(e), cfg.markers.end_output);
            e <= o < lines.len() && regions_closed(cfg, lines.skip(o + 1))
        }
    }
}

proof fn lemma_omitted_walk(
    cfg: Settings,
    lines: Seq<Seq<char>>,
    a: Seq<Seq<char>>,
    b: Seq<Seq<char>>,
)
    requires
        cfg.omit_output,
        regions_closed(cfg, lines),
    ensures
        walk(cfg, lines, a) == walk(cfg, lines, b),
        !(walk(cfg, lines, a) is Pending),
    decreases lines.len(), 2int,
{
    let s = first_line_with(lines, cfg.markers.start);
    if !(s < 0 || s >= lines.len()) {
        lemma_omitted_block(cfg, lines.skip(s), a, b);
    }
}

proof fn lemma_omitted_block(
    cfg: Settings,
    lines: Seq<Seq<char>>,
    a: Seq<Seq<char>>,
    b: Seq<Seq<char>>,
)
    requires
        cfg.omit_output,
        block_regions_closed(cfg, lines),
    ensures
        walk_block(cfg, lines, a) == walk_block(cfg, lines, b),
        !(walk_block(cfg, lines, a) is Pending),
    decreases lines.len(), 1int,
{
    if lines.len() > 0 {
        let e = 1 + first_line_with(lines.skip(1), cfg.markers.end_block);
        if !(e < 1 || e >= lines.len()) {
            let rest = lines.skip(e);
            let o = first_line_with(rest, cfg.markers.end_output);
            assert(rest.skip(o + 1) =~= lines.skip(e + o + 1));
            lemma_omitted_walk(cfg, rest.skip(o + 1), a, b);
        }
    }
}

/// With output omitted, a pass over a document whose output regions are all
/// closed runs no command: it finishes without any output, and makes nothing
/// of the outputs that it is given.
pub proof fn law_omitted_output_runs_nothing(
    cfg: Settings,
    document: Seq<char>,
    outputs: Seq<Seq<char>>,
)
    requires
        cfg.omit_output,
        regions_closed(cfg, lines_of(document)),
    ensures
        !(parse(cfg, document, Seq::empty()) is Pending),
        parse(cfg, document, outputs) == parse(cfg, document, Seq::empty()),
{
    lemma_omitted_walk(cfg, lines_of(document), outputs, Seq::empty());
}

/// With output omitted, a pass over a document whose output regions are all
/// closed makes no attempt to run a command: whatever accounts for its result
/// holds no attempt, and the result is that of the pass without outputs.
pub proof fn law_omitted_output_makes_no_attempt<
    F: Fn(&Invocation) -> Result<ExecutionResult, std::io::Error>,
>(
    cfg: Settings,
    document: Seq<char>,
    run: F,
    trace: Seq<Result<ExecutionResult, std::io::Error>>,
    result: Result<Seq<char>, Failure>,
)
    requires
        cfg.omit_output,
        regions_closed(cfg, lines_of(document)),
        explains(cfg, document, run, trace, result),
    ensures
        trace.len() == 0,
        process(cfg, document, Seq::empty()) == Some(result),
{
    law_omitted_output_runs_nothing(cfg, document, Seq::empty());
    if trace.len() > 0 {
        assert(answers(cfg, document, run, trace, 0));
        assert(outputs_of(trace.take(0)) =~= Seq::<Seq<char>>::empty());
    }
    assert(outputs_of(trace) =~= Seq::<Seq<char>>::empty());
}

/// With output omitted, no pass ends in a failure of its own: whatever the
/// document holds and whatever outputs it is given, the walk finishes with a
/// text or waits for a command.
pub proof fn law_omitted_output_never_fails(
    cfg: Settings,
    lines: Seq<Seq<char>>,
    outputs: Seq<Seq<char>>,
)
    requires
        cfg.omit_output,
    ensures
        !(walk(cfg, lines, outputs) matches Progress::Finished(Err(_))),
    decreases lines.len(), 2int,
{
    let s = first_line_with(lines, cfg.markers.start);
    if !(s < 0 || s >= lines.len()) {
        lemma_omitted_block_never_fails(cfg, lines.skip(s), outputs);
    }
}

proof fn lemma_omitted_block_never_fails(
    cfg: Settings,
    lines: Seq<Seq<char>>,
    outputs: Seq<Seq<char>>,
)
    requires
        cfg.omit_output,
    ensures
        !(walk_block(cfg, lines, outputs) matches Progress::Finished(Err(_))),
    decreases lines.len(), 1int,
{
    if lines.len() > 0 {
        let e = 1 + first_line_with(lines.skip(1), cfg.markers.end_block);
        if !(e < 1 || e >= lines.len()) {
            let rest = lines.skip(e);
            let o = first_line_with(rest, cfg.markers.end_output);
            if !(o < 0 || o >= rest.len()) {
                law_omitted_output_never_fails(cfg, rest.skip(o + 1), outputs);
            }
        }
    }
}

/// Whether every block that a walk over `lines` meets has an end-of-block
/// line with an end-of-output line directly behind it: its output region is
/// closed and empty.
pub open spec fn at_rest(cfg: Settings, lines: Seq<Seq<char>>) -> bool
    decreases lines.len(), 2int,
{
    let s = first_line_with(lines, cfg.markers.start);
    if s < 0 || s >= lines.len() {
        true
    } else {
        block_at_rest(cfg, lines.skip(s))
    }
}

/// [`at_rest`], from a start-of-block line.
pub open spec fn block_at_rest(cfg: Settings, lines: Seq<Seq<char>>) -> bool
    decreases lines.len(), 1int,
{
    if lines.len() == 0 {
        true
    } else {
        let e = 1 + first_line_with(lines.skip(1), cfg.markers.end_block);
        if e < 1 || e >= lines.len() {
            false
        } else {
            &&& first_line_with(lines.skip(e), cfg.markers.end_output) == 1
            &&& e + 1 < lines.len()
            &&& at_rest(cfg, lines.skip(e + 2))
        }
    }
}

proof fn lemma_kept_walk(cfg: Settings, lines: Seq<Seq<char>>, outputs: Seq<Seq<char>>)
    requires
        cfg.omit_output,
        !cfg.delete_blocks,
        at_rest(cfg, lines),
    ensures
        walk(cfg, lines, outputs) == Progress::Finished(Ok(join(lines))),
    decreases lines.len(), 2int,
{
    let s = first_line_with(lines, cfg.markers.start);
    lemma_first_line_with(lines, cfg.markers.start);
    if s < lines.len() {
        lemma_kept_block(cfg, lines.skip(s), outputs);
        lemma_join_concat(lines.take(s), lines.skip(s));
        assert(lines.take(s) + lines.skip(s) =~= lines);
    }
}

proof fn lemma_kept_block(cfg: Settings, lines: Seq<Seq<char>>, outputs: Seq<Seq<char>>)
    requires
        cfg.omit_output,
        !cfg.delete_blocks,
        block_at_rest(cfg, lines),
    ensures
        walk_block(cfg, lines, outputs) == Progress::Finished(Ok(join(lines))),
    decreases lines.len(), 1int,
{
    if lines.len() == 0 {
    } else {
        let e = 1 + first_line_with(lines.skip(1), cfg.markers.end_block);
        let block = lines.take(e + 1);
        let region = lines.skip(e);
        let rest = lines.skip(e + 2);
        assert(region[1] == lines[e + 1]);
        assert(region.skip(2) =~= rest);
        lemma_kept_walk(cfg, rest, outputs);
        let line = lines[e + 1];
        assert(lines =~= block + seq![line] + rest);
        lemma_join_concat(block, seq![line]);
        lemma_join_one(line);
        lemma_join_concat(block + seq![line], rest);
        assert(join(block) + (line + newline() + join(rest)) =~= join(block) + (line + newline())
            + join(rest));
    }
}

/// With output omitted and markers retained, a document whose blocks are
/// [`at_rest`] is assembled as its own lines, whatever its commands would
/// print and whether or not checksums are on.
pub proof fn law_omitted_output_keeps_the_source(
    cfg: Settings,
    lines: Seq<Seq<char>>,
    outputs: Seq<Seq<char>>,
)
    requires
        cfg.omit_output,
        !cfg.delete_blocks,
        at_rest(cfg, lines),
    ensures
        walk(cfg, lines, outputs) == Progress::Finished(Ok(join(lines))),
{
    lemma_kept_walk(cfg, lines, outputs);
}

/// With output omitted and markers retained, a document that is made of whole
/// lines without carriage returns, and whose blocks are [`at_rest`], is
/// returned as it is.
pub proof fn law_omitted_output_returns_the_document(
    cfg: Settings,
    document: Seq<char>,
    outputs: Seq<Seq<char>>,
)
    requires
        cfg.omit_output,
        !cfg.delete_blocks,
        line_normal(document),
        at_rest(cfg, lines_of(document)),
    ensures
        parse(cfg, document, outputs) matches Parsed::Finished(Ok(parsed)) && parsed.output
            == document,
{
    lemma_kept_walk(cfg, lines_of(document), outputs);
}

/// The digits of a digest are digest characters.
pub proof fn lemma_hex_is_digest(bytes: Seq<u8>)
    ensures
        hex(bytes).len() == 32,
        forall|i: int| 0 <= i < 32 ==> is_digest_char(#[trigger] hex(bytes)[i]),
{
    assert forall|i: int| 0 <= i < 32 implies is_digest_char(#[trigger] hex(bytes)[i]) by {
        let n = if i % 2 == 0 {
            bytes[i / 2] as int / 16
        } else {
            bytes[i / 2] as int
        };
        assert(hex(bytes)[i] == hex_digit(n));
    }
}

/// A run of digest characters before another character is as long as it is.
proof fn lemma_digest_run(run: Seq<char>, tail: Seq<char>)
    requires
        forall|i: int| 0 <= i < run.len() ==> is_digest_char(#[trigger] run[i]),
        tail.len() > 0,
        !is_digest_char(tail[0]),
    ensures
        digest_run(run + tail) == run.len(),
    decreases run.len(),
{
    let all = run + tail;
    if run.len() == 0 {
        assert(all =~= tail);
    } else {
        assert(all[0] == run[0]);
        let rest = run.drop_first();
        assert forall|i: int| 0 <= i < rest.len() implies is_digest_char(#[trigger] rest[i]) by {
            assert(rest[i] == run[i + 1]);
        }
        lemma_digest_run(rest, tail);
        assert(all.drop_first() =~= rest + tail);
    }
}

/// Text that lost its leading white space has none to lose.
proof fn lemma_trim_start_twice(text: Seq<char>)
    ensures
        trim_start(trim_start(text)) == trim_start(text),
    decreases text.len(),
{
    if text.len() > 0 && is_space(text[0]) {
        lemma_trim_start_twice(text.drop_first());
    }
}

/// What stands behind the marker of an end-of-output line has no leading
/// white space.
proof fn lemma_suffix_is_trimmed(line: Seq<char>, marker: Seq<char>)
    requires
        contains(line, marker),
    ensures
        closing(line, marker) is Some,
        closing(line, marker)->0.marker == marker,
        trim_start(closing(line, marker)->0.suffix) == closing(line, marker)->0.suffix,
{
    lemma_last_occurrence(line, marker);
    let at = last_occurrence(line, marker);
    let behind = line.skip(at + marker.len());
    lemma_trim_start_twice(behind);
    match annotation_at(trim_start(behind)) {
        Some((digest, tail)) => {
            lemma_trim_start_twice(tail);
        },
        None => {},
    }
}

/// A digest that a pass wrote is verified by the next: with checksums on, the
/// end-of-output line that was written behind a fresh output is written again
/// as it stands when it is read with the same fresh output.
///
/// Stated of lines in whose written form the marker does not occur again
/// behind the place where it was found.
pub proof fn law_checksum_round_trip(cfg: Settings, line: Seq<char>, fresh: Seq<char>)
    requires
        cfg.checksum,
        !cfg.omit_output,
        !cfg.delete_blocks,
        contains(line, cfg.markers.end_output),
        closing_line(cfg, line, fresh) is Ok,
        last_occurrence(closing_line(cfg, line, fresh)->Ok_0.drop_last(), cfg.markers.end_output)
            == closing(line, cfg.markers.end_output)->0.prefix.len(),
    ensures
        closing_line(cfg, closing_line(cfg, line, fresh)->Ok_0.drop_last(), fresh)
            == closing_line(cfg, line, fresh),
{
    let marker = cfg.markers.end_output;
    let parts = closing(line, marker)->0;
    lemma_suffix_is_trimmed(line, marker);
    let sum = digest_of(fresh);
    let end = closing_line(cfg, line, fresh)->Ok_0;
    let written = parts.prefix + parts.marker + annotation(sum) + parts.suffix;
    assert(end =~= written + newline());
    assert(end.drop_last() =~= written);
    lemma_annotated_parts(parts.prefix, marker, sum, parts.suffix, fresh);
}

/// The parts of a line that was written with the digest of `fresh`, where the
/// marker is last found behind the prefix: the prefix, the digest and the
/// suffix that were written.
proof fn lemma_annotated_parts(
    prefix: Seq<char>,
    marker: Seq<char>,
    sum: Seq<char>,
    suffix: Seq<char>,
    fresh: Seq<char>,
)
    requires
        sum == digest_of(fresh),
        trim_start(suffix) == suffix,
        last_occurrence(prefix + marker + annotation(sum) + suffix, marker) == prefix.len(),
    ensures
        closing(prefix + marker + annotation(sum) + suffix, marker) matches Some(again)
            && again.prefix == prefix && again.marker == marker && again.checksum == Some(sum)
            && again.suffix == suffix,
{
    reveal_strlit("(checksum: ");
    let note = annotation(sum);
    let written = prefix + marker + note + suffix;
    let at = prefix.len() as int;
    let lead = checksum_lead();
    let behind = written.skip(at + marker.len());
    assert(behind =~= note + suffix);
    let inner = lead + sum + seq![')', ' '] + suffix;
    assert(behind =~= seq![' '] + inner);
    assert(is_space(behind[0]));
    assert(behind[1] == lead[0]);
    assert(!is_space(behind[1]));
    lemma_trim_start(behind, 1);
    assert(behind.skip(1) =~= inner);
    assert(inner.subrange(0, lead.len() as int) =~= lead);
    let body = inner.skip(lead.len() as int);
    let tail = seq![')', ' '] + suffix;
    assert(body =~= sum + tail);
    lemma_hex_is_digest(md5_digest(encode_utf8(fresh)));
    lemma_digest_run(sum, tail);
    assert(body[32] == ')');
    assert(body.take(32) =~= sum);
    let after = body.skip(33);
    assert(after =~= seq![' '] + suffix);
    assert(is_space(after[0]));
    assert(after.drop_first() =~= suffix);
    assert(trim_start(after) == trim_start(suffix));
    assert(written.take(at) =~= prefix);
}

/// With markers retained, an end-of-output line in which no digest stands is
/// written as it stands wherever no digest is written: where checksums are off
/// and where output is omitted.
pub proof fn law_closing_line_is_kept(cfg: Settings, line: Seq<char>, fresh: Seq<char>)
    requires
        !cfg.delete_blocks,
        contains(line, cfg.markers.end_output),
        cfg.omit_output || (!cfg.checksum && closing(line, cfg.markers.end_output)->0.checksum
            is None),
    ensures
        closing_line(cfg, line, fresh) == Ok::<Seq<char>, Failure>(line + newline()),
{
    lemma_join_one(line);
    lemma_parts_make_the_line(line, cfg.markers.end_output);
}

/// With output omitted, an end-of-output line is written as it stands, digest
/// and all, and nothing is verified.
pub proof fn law_omitted_output_keeps_the_line(cfg: Settings, line: Seq<char>, fresh: Seq<char>)
    requires
        cfg.omit_output,
    ensures
        closing_line(cfg, line, fresh) == Ok::<Seq<char>, Failure>(
            if cfg.delete_blocks {
                Seq::empty()
            } else {
                line + newline()
            },
        ),
{
    lemma_join_one(line);
}

/// With checksums on, the digest found in an end-of-output line is verified
/// whether or not markers are retained: where output is not omitted, the line
/// fails the pass exactly when it holds a digest that differs from the digest
/// of the fresh output.
pub proof fn law_digest_is_verified_without_markers(
    cfg: Settings,
    line: Seq<char>,
    fresh: Seq<char>,
)
    requires
        cfg.checksum,
        !cfg.omit_output,
    ensures
        closing_line(cfg, line, fresh) is Err <==> (closing(
            line,
            cfg.markers.end_output,
        )->0.checksum matches Some(found) && found != digest_of(fresh)),
        closing_line(cfg, line, fresh) is Err ==> closing_line(cfg, line, fresh) == Err::<
            Seq<char>,
            Failure,
        >(
            Failure::ChecksumMismatch(
                closing(line, cfg.markers.end_output)->0.checksum->0,
                digest_of(fresh),
            ),
        ),
{
}

/// With checksums off, an end-of-output line that was written is written again
/// as it stands when it is read again.
///
/// Stated of lines in whose written form the marker does not occur again
/// behind the place where it was found, and whose suffix does not itself begin
/// with a digest annotation.
pub proof fn law_closing_round_trip(cfg: Settings, line: Seq<char>, fresh: Seq<char>)
    requires
        !cfg.checksum,
        !cfg.delete_blocks,
        contains(line, cfg.markers.end_output),
        last_occurrence(closing_line(cfg, line, fresh)->Ok_0.drop_last(), cfg.markers.end_output)
            == closing(line, cfg.markers.end_output)->0.prefix.len(),
        annotation_at(closing(line, cfg.markers.end_output)->0.suffix) is None,
    ensures
        closing_line(cfg, closing_line(cfg, line, fresh)->Ok_0.drop_last(), fresh)
            == closing_line(cfg, line, fresh),
{
    let marker = cfg.markers.end_output;
    let end = closing_line(cfg, line, fresh)->Ok_0;
    lemma_join_one(line);
    if cfg.omit_output {
        assert(end =~= line + newline());
        assert(end.drop_last() =~= line);
        lemma_join_one(end.drop_last());
    } else {
        let parts = closing(line, marker)->0;
        lemma_suffix_is_trimmed(line, marker);
        lemma_last_occurrence(line, marker);
        lemma_leading_space(line.skip(last_occurrence(line, marker) + marker.len()));
        let written = parts.prefix + parts.marker + parts.gap + parts.suffix;
        assert(end =~= written + newline());
        assert(end.drop_last() =~= written);
        let at = parts.prefix.len() as int;
        let behind = written.skip(at + marker.len());
        assert(behind =~= parts.gap + parts.suffix);
        let k = parts.gap.len() as int;
        assert forall|i: int| 0 <= i < k implies is_space(behind[i]) by {
            assert(behind[i] == parts.gap[i]);
            assert(parts.gap[i] == line.skip(last_occurrence(line, marker) + marker.len())[i]);
        }
        if parts.suffix.len() > 0 {
            assert(behind[k] == parts.suffix[0]);
            lemma_leading_space(parts.suffix);
            assert(!is_space(parts.suffix[0]));
        }
        lemma_trim_start(behind, k);
        assert(behind.skip(k) =~= parts.suffix);
        lemma_leading_space(behind);
        assert(leading_space(behind) =~= parts.gap);
        assert(written.take(at) =~= parts.prefix);
        let again = closing(written, marker)->0;
        assert(again.prefix == parts.prefix);
        assert(again.gap == parts.gap);
        assert(again.checksum is None);
        assert(again.suffix == parts.suffix);
    }
}

/// With checksums on, a digest found in the document fails the pass exactly
/// when it differs from the digest of the fresh output, and the failure
/// reports the two.
pub proof fn law_checksum_detects_change(fresh: Seq<char>, found: Seq<char>)
    ensures
        stamp(true, fresh, Some(found)) is Err <==> found != digest_of(fresh),
        found != digest_of(fresh) ==> stamp(true, fresh, Some(found)) == Err::<Seq<char>, Failure>(
            Failure::ChecksumMismatch(found, digest_of(fresh)),
        ),
{
}

/// Whether `run` answers alike each time: whatever it returns for two commands
/// that read alike means the same for a pass.
pub open spec fn answers_alike<F: Fn(&Invocation) -> Result<ExecutionResult, std::io::Error>>(
    run: F,
) -> bool {
    forall|
        a: Invocation,
        b: Invocation,
        x: Result<ExecutionResult, std::io::Error>,
        y: Result<ExecutionResult, std::io::Error>,
    |
        a@ == b@ && #[trigger] call_ensures(run, (&a,), x) && #[trigger] call_ensures(
            run,
            (&b,),
            y,
        ) ==> reply(x) == reply(y)
}

/// The texts of the first attempts are the first of the texts.
proof fn lemma_outputs_of_take(trace: Seq<Result<ExecutionResult, std::io::Error>>, k: int)
    requires
        0 <= k <= trace.len(),
    ensures
        outputs_of(trace.take(k)) == outputs_of(trace).take(k),
{
    assert(outputs_of(trace.take(k)) =~= outputs_of(trace).take(k));
}

/// Attempts that account for a success all contributed a text, and the result
/// is that of the pass with those texts.
proof fn lemma_explained_success<F: Fn(&Invocation) -> Result<ExecutionResult, std::io::Error>>(
    cfg: Settings,
    document: Seq<char>,
    run: F,
    trace: Seq<Result<ExecutionResult, std::io::Error>>,
    text: Seq<char>,
)
    requires
        explains(cfg, document, run, trace, Ok(text)),
    ensures
        forall|k: int| 0 <= k < trace.len() ==> reply(#[trigger] trace[k]) is Ok,
        process(cfg, document, outputs_of(trace)) == Some(Ok::<Seq<char>, Failure>(text)),
{
    assert forall|k: int| 0 <= k < trace.len() implies reply(#[trigger] trace[k]) is Ok by {
        assert(answers(cfg, document, run, trace, k));
    }
}

/// With markers retained, the attempts of a second pass contribute, one for
/// one, the texts that those of the first pass contributed.
proof fn lemma_second_trace<F: Fn(&Invocation) -> Result<ExecutionResult, std::io::Error>>(
    cfg: Settings,
    document: Seq<char>,
    run: F,
    first: Seq<Result<ExecutionResult, std::io::Error>>,
    text: Seq<char>,
    second_trace: Seq<Result<ExecutionResult, std::io::Error>>,
    k: int,
)
    requires
        answers_alike(run),
        !cfg.delete_blocks,
        all_clean(lines_of(document)),
        stable(cfg, lines_of(document), outputs_of(first)),
        explains(cfg, document, run, first, Ok(text)),
        walk(cfg, lines_of(document), outputs_of(first)) == Progress::Finished(Ok(text)),
        forall|j: int|
            0 <= j < second_trace.len() ==> #[trigger] answers(cfg, text, run, second_trace, j),
        0 <= k <= second_trace.len(),
    ensures
        k <= first.len(),
        outputs_of(second_trace.take(k)) == outputs_of(first).take(k),
        forall|j: int| 0 <= j < k ==> reply(#[trigger] second_trace[j]) is Ok,
    decreases k,
{
    let outs = outputs_of(first);
    if k == 0 {
        assert(outputs_of(second_trace.take(0)) =~= outs.take(0));
    } else {
        let j = k - 1;
        lemma_second_trace(cfg, document, run, first, text, second_trace, j);
        lemma_explained_success(cfg, document, run, first, text);
        let given = outs.take(j);
        assert(is_prefix(given, outs));
        lemma_again_walk(cfg, lines_of(document), outs, given);
        assert(answers(cfg, text, run, second_trace, j));
        let asked = parse(cfg, text, given)->Pending_0;
        assert(walk(cfg, lines_of(document), given) == Progress::Pending(asked));
        if j >= first.len() {
            assert(given =~= outs);
        }
        assert(answers(cfg, document, run, first, j));
        lemma_outputs_of_take(first, j);
        let a = choose|a: Invocation|
            #[trigger] call_ensures(run, (&a,), first[j]) && a@ == asked;
        let b = choose|b: Invocation|
            #[trigger] call_ensures(run, (&b,), second_trace[j]) && b@ == asked;
        assert(reply(first[j]) == reply(second_trace[j]));
        assert(reply(first[j]) is Ok);
        assert(outputs_of(second_trace.take(k)) =~= outs.take(k)) by {
            let mine = outputs_of(second_trace.take(k));
            let earlier = outputs_of(second_trace.take(j));
            assert forall|i: int| 0 <= i < k implies mine[i] == outs.take(k)[i] by {
                if i < j {
                    assert(earlier[i] == outs.take(j)[i]);
                    assert(second_trace.take(k)[i] == second_trace.take(j)[i]);
                }
            }
        }
    }
}

/// Executing twice comes to what executing once comes to, for an executor
/// that answers alike each time.
///
/// Whatever attempts account for a first pass that returned `text`, and
/// whatever attempts account for a pass over `text`, the second pass returns
/// `text`. Stated of a document that is [`tidy`] and whose blocks are
/// [`stable`] under the texts of the first pass, of passes that are not
/// check-only, and not of the configuration that deletes markers and fails on
/// documents without blocks.
pub proof fn law_executing_twice<F: Fn(&Invocation) -> Result<ExecutionResult, std::io::Error>>(
    cfg: Settings,
    document: Seq<char>,
    run: F,
    first: Seq<Result<ExecutionResult, std::io::Error>>,
    text: Seq<char>,
    second_trace: Seq<Result<ExecutionResult, std::io::Error>>,
    again: Result<Seq<char>, Failure>,
)
    requires
        answers_alike(run),
        !cfg.check_only,
        !(cfg.delete_blocks && cfg.warn_if_no_blocks),
        tidy(document),
        stable(cfg, lines_of(document), outputs_of(first)),
        explains(cfg, document, run, first, Ok(text)),
        explains(cfg, text, run, second_trace, again),
    ensures
        again == Ok::<Seq<char>, Failure>(text),
        cfg.delete_blocks ==> second_trace.len() == 0,
        !cfg.delete_blocks ==> outputs_of(second_trace) == outputs_of(first).take(
            second_trace.len() as int,
        ),
{
    let lines = lines_of(document);
    let outs = outputs_of(first);
    lemma_tidy_lines_are_clean(document);
    lemma_explained_success(cfg, document, run, first, text);
    assert(walk(cfg, lines, outs) == Progress::Finished(Ok(text)));
    law_idempotence(cfg, lines, outs);
    if cfg.delete_blocks {
        lemma_flat_walk(cfg, lines, outs);
        if second_trace.len() > 0 {
            assert(answers(cfg, text, run, second_trace, 0));
            lemma_walk_plain(cfg, lines_of(text), outputs_of(second_trace.take(0)));
        }
        lemma_walk_plain(cfg, lines_of(text), outputs_of(second_trace));
        lemma_walk_plain(cfg, lines_of(text), outs);
    } else {
        let n = second_trace.len() as int;
        lemma_second_trace(cfg, document, run, first, text, second_trace, n);
        assert(second_trace.take(n) =~= second_trace);
        let given = outs.take(n);
        assert(is_prefix(given, outs));
        lemma_again_walk(cfg, lines, outs, given);
        assert(outs.take(outs.len() as int) =~= outs);
        lemma_again_walk(cfg, lines, outs, outs);
        if n > 0 {
            assert(reply(second_trace[n - 1]) is Ok);
        }
    }
}

/// Whether a walk came as far as the commands `asked` allow with `given`
/// outputs: it waits for the command whose turn it is, or it has finished with
/// an output for every command, or a digest that differed ended it.
pub open spec fn in_order(progress: Progress, asked: Seq<Command>, given: int) -> bool {
    match progress {
        Progress::Pending(command) => given < asked.len() && command == asked[given],
        Progress::Finished(Ok(_)) => given >= asked.len(),
        Progress::Finished(Err(_)) => true,
    }
}

/// Blocks are run from the first to the last: with the outputs of the first
/// `k` commands a pass waits for command `k` of [`commands`], and it finishes
/// only when it has an output for every one of them.
pub proof fn law_commands_in_document_order(
    cfg: Settings,
    lines: Seq<Seq<char>>,
    given: Seq<Seq<char>>,
)
    ensures
        in_order(walk(cfg, lines, given), commands(cfg, lines), given.len() as int),
    decreases lines.len(), 2int,
{
    let s = first_line_with(lines, cfg.markers.start);
    if !(s < 0 || s >= lines.len()) {
        lemma_block_commands_in_order(cfg, lines.skip(s), given);
    }
}

proof fn lemma_block_commands_in_order(
    cfg: Settings,
    lines: Seq<Seq<char>>,
    given: Seq<Seq<char>>,
)
    ensures
        in_order(walk_block(cfg, lines, given), block_commands(cfg, lines), given.len() as int),
    decreases lines.len(), 1int,
{
    if lines.len() > 0 {
        let e = 1 + first_line_with(lines.skip(1), cfg.markers.end_block);
        if !(e < 1 || e >= lines.len()) {
            let command = command_of(
                command_spec(lines[0], cfg.markers.start)->0,
                join(lines.subrange(1, e)),
            );
            lemma_output_commands_in_order(cfg, lines.skip(e), command, given);
        }
    }
}

proof fn lemma_output_commands_in_order(
    cfg: Settings,
    lines: Seq<Seq<char>>,
    command: Command,
    given: Seq<Seq<char>>,
)
    ensures
        in_order(
            walk_output(cfg, lines, command, given),
            output_commands(cfg, lines, command),
            given.len() as int,
        ),
    decreases lines.len(), 0int,
{
    let o = first_line_with(lines, cfg.markers.end_output);
    if !(o < 0 || o >= lines.len()) {
        if cfg.omit_output {
            law_commands_in_document_order(cfg, lines.skip(o + 1), given);
            law_omitted_output_keeps_the_line(cfg, lines[o], Seq::empty());
        } else if given.len() > 0 {
            law_commands_in_document_order(cfg, lines.skip(o + 1), given.skip(1));
        }
    }
}

/// Whether `attempt` is what `run` returned for `command`.
pub open spec fn attempted<F: Fn(&Invocation) -> Result<ExecutionResult, std::io::Error>>(
    run: F,
    command: Command,
    attempt: Result<ExecutionResult, std::io::Error>,
) -> bool {
    exists|invocation: Invocation| #[trigger]
        call_ensures(run, (&invocation,), attempt) && invocation@ == command
}

/// The executor is called for the blocks in document order: each attempt of a
/// pass is what `run` returned for the command of [`commands`] at its place,
/// and a pass that succeeds has made one attempt for every command.
pub proof fn law_attempts_follow_the_blocks<
    F: Fn(&Invocation) -> Result<ExecutionResult, std::io::Error>,
>(
    cfg: Settings,
    document: Seq<char>,
    run: F,
    trace: Seq<Result<ExecutionResult, std::io::Error>>,
    result: Result<Seq<char>, Failure>,
)
    requires
        explains(cfg, document, run, trace, result),
    ensures
        trace.len() <= commands(cfg, lines_of(document)).len(),
        forall|k: int|
            0 <= k < trace.len() ==> attempted(
                run,
                commands(cfg, lines_of(document))[k],
                #[trigger] trace[k],
            ),
        result is Ok ==> trace.len() == commands(cfg, lines_of(document)).len(),
{
    let lines = lines_of(document);
    let asked = commands(cfg, lines);
    assert forall|k: int| 0 <= k < trace.len() implies k < asked.len() && attempted(
        run,
        asked[k],
        #[trigger] trace[k],
    ) by {
        assert(answers(cfg, document, run, trace, k));
        law_commands_in_document_order(cfg, lines, outputs_of(trace.take(k)));
    }
    if trace.len() > 0 {
        assert(trace.len() - 1 < asked.len());
    }
    if result is Ok {
        law_commands_in_document_order(cfg, lines, outputs_of(trace));
    }
}

/// A document that a pass stamped verifies in the next pass: with checksums
/// on, for an executor that answers alike each time, the pass over what a
/// first pass returned ends in no digest mismatch and returns the same text.
///
/// Stated as [`law_executing_twice`] is.
pub proof fn law_stamped_document_verifies<
    F: Fn(&Invocation) -> Result<ExecutionResult, std::io::Error>,
>(
    cfg: Settings,
    document: Seq<char>,
    run: F,
    first: Seq<Result<ExecutionResult, std::io::Error>>,
    text: Seq<char>,
    second_trace: Seq<Result<ExecutionResult, std::io::Error>>,
    again: Result<Seq<char>, Failure>,
)
    requires
        cfg.checksum,
        answers_alike(run),
        !cfg.check_only,
        !(cfg.delete_blocks && cfg.warn_if_no_blocks),
        tidy(document),
        stable(cfg, lines_of(document), outputs_of(first)),
        explains(cfg, document, run, first, Ok(text)),
        explains(cfg, text, run, second_trace, again),
    ensures
        !(again matches Err(Failure::ChecksumMismatch(_, _))),
        again == Ok::<Seq<char>, Failure>(text),
{
    law_executing_twice(cfg, document, run, first, text, second_trace, again);
}

} // verus!
