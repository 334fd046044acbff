//! What processing a document means, stated on character sequences.
//!
//! A document is walked line by line. Lines outside blocks are copied. A block
//! opens at a start-of-block line, its source runs up to the next end-of-block
//! line, and the output region that follows runs up to the next end-of-output
//! line, the end-of-block line itself included in the search. The lines of the
//! output region are dropped and the fresh output of the block's command takes
//! their place.
//!
//! The walk does not run commands. It is given the outputs of the commands run
//! so far, in document order, and either finishes or names the command whose
//! output it needs next.

use crate::checksum::stamp;
use crate::error::Failure;
use crate::executor::{command_of, Command};
use crate::markers::{closing, command_spec, Closing, Markers};
use crate::text::{first_line_with, join, lines_of, newline};
use vstd::prelude::*;

verus! {

/// The configuration of a pass.
pub struct Settings {
    /// Leave the block markers and the block source out of the result.
    pub delete_blocks: bool,
    /// Fail where the document holds no block.
    pub warn_if_no_blocks: bool,
    /// Leave the output regions empty and run no command for them.
    pub omit_output: bool,
    /// Fail where the result differs from the document.
    pub check_only: bool,
    /// Write and verify digests on end-of-output lines.
    pub checksum: bool,
    /// The three markers.
    pub markers: Markers,
}

/// How far a walk gets with the outputs it was given.
pub enum Progress {
    /// The output of this command is needed next.
    Pending(Command),
    /// The walk is over: the assembled text, or the failure that ended it.
    Finished(Result<Seq<char>, Failure>),
}

/// An assembled document and whether a block was met on the way.
pub struct Processed {
    pub output: Seq<char>,
    pub blocks_found: bool,
}

/// How far a parse gets with the outputs it was given.
pub enum Parsed {
    /// The output of this command is needed next.
    Pending(Command),
    /// The parse is over.
    Finished(Result<Processed, Failure>),
}

/// `text` put in front of what `rest` assembles.
pub open spec fn then(text: Seq<char>, rest: Progress) -> Progress {
    match rest {
        Progress::Finished(Ok(tail)) => Progress::Finished(Ok(text + tail)),
        _ => rest,
    }
}

/// The lines of a block as they are re-emitted: as they stand where markers are
/// retained, not at all where they are deleted.
pub open spec fn echo(cfg: Settings, lines: Seq<Seq<char>>) -> Seq<char> {
    if cfg.delete_blocks {
        Seq::empty()
    } else {
        join(lines)
    }
}

/// What is written behind the marker of an end-of-output line: the digest
/// annotation `note` where checksums are on, else the gap of white space that
/// stood there.
pub open spec fn behind_marker(cfg: Settings, parts: Closing, note: Seq<char>) -> Seq<char> {
    if cfg.checksum {
        note
    } else {
        parts.gap
    }
}

/// What closes the output region at the end-of-output line `line`, behind the
/// fresh output `fresh`.
///
/// Where output is omitted, nothing was run: no digest is looked at and the
/// line is written as it stands. Else the digest found in the line is held
/// against the fresh output, whether or not the line is written, and a
/// mismatch is a failure; the line is then written as its prefix, the marker,
/// what [`behind_marker`] gives, and its suffix. Where markers are deleted
/// nothing is written for the line.
pub open spec fn closing_line(cfg: Settings, line: Seq<char>, fresh: Seq<char>) -> Result<
    Seq<char>,
    Failure,
> {
    if cfg.omit_output {
        Ok(echo(cfg, seq![line]))
    } else {
        let parts = closing(line, cfg.markers.end_output)->0;
        match stamp(cfg.checksum, fresh, parts.checksum) {
            Ok(note) => Ok(
                if cfg.delete_blocks {
                    Seq::empty()
                } else {
                    parts.prefix + parts.marker + behind_marker(cfg, parts, note) + parts.suffix
                        + newline()
                },
            ),
            Err(failure) => Err(failure),
        }
    }
}

/// The walk from outside any block: lines are copied up to the first
/// start-of-block line.
pub open spec fn walk(cfg: Settings, lines: Seq<Seq<char>>, outputs: Seq<Seq<char>>) -> Progress
    decreases lines.len(), 2int,
{
    let s = first_line_with(lines, cfg.markers.start);
    if s < 0 || s >= lines.len() {
        Progress::Finished(Ok(join(lines)))
    } else {
        then(join(lines.take(s)), walk_block(cfg, lines.skip(s), outputs))
    }
}

/// The walk from a start-of-block line, the first of `lines`: the block runs up
/// to the first end-of-block line behind it. A block that the document's end
/// cuts short is echoed and nothing is run for it.
pub open spec fn walk_block(
    cfg: Settings,
    lines: Seq<Seq<char>>,
    outputs: Seq<Seq<char>>,
) -> Progress
    decreases lines.len(), 1int,
{
    if lines.len() == 0 {
        Progress::Finished(Ok(Seq::empty()))
    } else {
        let e = 1 + first_line_with(lines.skip(1), cfg.markers.end_block);
        if e < 1 || e >= lines.len() {
            Progress::Finished(Ok(echo(cfg, lines)))
        } else {
            let command = command_of(
                command_spec(lines[0], cfg.markers.start)->0,
                join(lines.subrange(1, e)),
            );
            then(echo(cfg, lines.take(e + 1)), walk_output(cfg, lines.skip(e), command, outputs))
        }
    }
}

/// The walk from an end-of-block line, the first of `lines`, with the block's
/// `command` in hand: lines are dropped up to the first end-of-output line.
///
/// Where there is none, the command's output ends the document. Where there is
/// one and output is omitted, nothing is run and the line closes an empty
/// region as it stands. Otherwise the command's output is followed by the line
/// as [`closing_line`] writes it.
pub open spec fn walk_output(
    cfg: Settings,
    lines: Seq<Seq<char>>,
    command: Command,
    outputs: Seq<Seq<char>>,
) -> Progress
    decreases lines.len(), 0int,
{
    let o = first_line_with(lines, cfg.markers.end_output);
    if o < 0 || o >= lines.len() {
        if outputs.len() == 0 {
            Progress::Pending(command)
        } else {
            Progress::Finished(Ok(outputs[0]))
        }
    } else if cfg.omit_output {
        match closing_line(cfg, lines[o], Seq::empty()) {
            Err(failure) => Progress::Finished(Err(failure)),
            Ok(end) => then(end, walk(cfg, lines.skip(o + 1), outputs)),
        }
    } else if outputs.len() == 0 {
        Progress::Pending(command)
    } else {
        match closing_line(cfg, lines[o], outputs[0]) {
            Err(failure) => Progress::Finished(Err(failure)),
            Ok(end) => then(outputs[0] + end, walk(cfg, lines.skip(o + 1), outputs.skip(1))),
        }
    }
}

/// The commands that a pass over `lines` asks for, in the order in which it
/// asks for them, as long as none fails and no digest differs: one for each
/// block that has an end-of-block line, in document order, but none for a
/// block whose output region is closed where output is omitted.
pub open spec fn commands(cfg: Settings, lines: Seq<Seq<char>>) -> Seq<Command>
    decreases lines.len(), 2int,
{
    let s = first_line_with(lines, cfg.markers.start);
    if s < 0 || s >= lines.len() {
        Seq::empty()
    } else {
        block_commands(cfg, lines.skip(s))
    }
}

/// [`commands`], from a start-of-block line.
pub open spec fn block_commands(cfg: Settings, lines: Seq<Seq<char>>) -> Seq<Command>
    decreases lines.len(), 1int,
{
    if lines.len() == 0 {
        Seq::empty()
    } else {
        let e = 1 + first_line_with(lines.skip(1), cfg.markers.end_block);
        if e < 1 || e >= lines.len() {
            Seq::empty()
        } else {
            let command = command_of(
                command_spec(lines[0], cfg.markers.start)->0,
                join(lines.subrange(1, e)),
            );
            output_commands(cfg, lines.skip(e), command)
        }
    }
}

/// [`commands`], from an end-of-block line, with the block's command in hand.
pub open spec fn output_commands(
    cfg: Settings,
    lines: Seq<Seq<char>>,
    command: Command,
) -> Seq<Command>
    decreases lines.len(), 0int,
{
    let o = first_line_with(lines, cfg.markers.end_output);
    if o < 0 || o >= lines.len() {
        seq![command]
    } else if cfg.omit_output {
        commands(cfg, lines.skip(o + 1))
    } else {
        seq![command] + commands(cfg, lines.skip(o + 1))
    }
}

/// Whether a walk over `lines` meets a block: whether one of them is a
/// start-of-block line.
pub open spec fn has_block(cfg: Settings, lines: Seq<Seq<char>>) -> bool {
    first_line_with(lines, cfg.markers.start) < lines.len()
}

/// The parse of `document` with the given outputs.
pub open spec fn parse(cfg: Settings, document: Seq<char>, outputs: Seq<Seq<char>>) -> Parsed {
    let lines = lines_of(document);
    match walk(cfg, lines, outputs) {
        Progress::Pending(command) => Parsed::Pending(command),
        Progress::Finished(Ok(text)) => Parsed::Finished(
            Ok(Processed { output: text, blocks_found: has_block(cfg, lines) }),
        ),
        Progress::Finished(Err(failure)) => Parsed::Finished(Err(failure)),
    }
}

/// What the processor makes of a finished parse of `document`: a failure where
/// no block was met and that is to be told; in check-only mode a failure where
/// the assembled text differs from the document, with both texts; else the
/// assembled text.
pub open spec fn verdict(cfg: Settings, document: Seq<char>, parsed: Processed) -> Result<
    Seq<char>,
    Failure,
> {
    if cfg.warn_if_no_blocks && !parsed.blocks_found {
        Err(Failure::NoBlocksDetected)
    } else if cfg.check_only && parsed.output != document {
        Err(Failure::CheckFailed(document, parsed.output))
    } else {
        Ok(parsed.output)
    }
}

/// The result of a pass over `document` with the given outputs: `None` while a
/// command's output is still needed, else the parse's failure or the verdict on
/// what it assembled.
pub open spec fn process(cfg: Settings, document: Seq<char>, outputs: Seq<Seq<char>>) -> Option<
    Result<Seq<char>, Failure>,
> {
    match parse(cfg, document, outputs) {
        Parsed::Pending(_) => None,
        Parsed::Finished(Ok(parsed)) => Some(verdict(cfg, document, parsed)),
        Parsed::Finished(Err(failure)) => Some(Err(failure)),
    }
}

/// Nothing put in front changes nothing.
pub proof fn lemma_then_empty(rest: Progress)
    ensures
        then(Seq::empty(), rest) == rest,
{
    match rest {
        Progress::Finished(Ok(tail)) => {
            assert(Seq::<char>::empty() + tail =~= tail);
        },
        _ => {},
    }
}

/// `then` is associative in its texts.
pub proof fn lemma_then_then(a: Seq<char>, b: Seq<char>, rest: Progress)
    ensures
        then(a, then(b, rest)) == then(a + b, rest),
{
    match rest {
        Progress::Finished(Ok(tail)) => {
            assert(a + (b + tail) =~= (a + b) + tail);
        },
        _ => {},
    }
}

/// A walk that waits for a command has been given fewer outputs than the
/// document has lines: every command that it asks for belongs to a block of its
/// own, so a pass asks for fewer commands than there are lines.
pub proof fn lemma_pending_walk(cfg: Settings, lines: Seq<Seq<char>>, outputs: Seq<Seq<char>>)
    ensures
        walk(cfg, lines, outputs) is Pending ==> outputs.len() < lines.len(),
    decreases lines.len(), 2int,
{
    let s = first_line_with(lines, cfg.markers.start);
    if !(s < 0 || s >= lines.len()) {
        lemma_pending_block(cfg, lines.skip(s), outputs);
    }
}

/// As [`lemma_pending_walk`], from a start-of-block line.
pub proof fn lemma_pending_block(cfg: Settings, lines: Seq<Seq<char>>, outputs: Seq<Seq<char>>)
    ensures
        walk_block(cfg, lines, outputs) is Pending ==> outputs.len() < lines.len(),
    decreases lines.len(), 1int,
{
    if lines.len() > 0 {
        let e = 1 + first_line_with(lines.skip(1), cfg.markers.end_block);
        if !(e < 1 || e >= lines.len()) {
            let command = command_of(
                command_spec(lines[0], cfg.markers.start)->0,
                join(lines.subrange(1, e)),
            );
            lemma_pending_output(cfg, lines.skip(e), command, outputs);
        }
    }
}

/// As [`lemma_pending_walk`], from an end-of-block line.
pub proof fn lemma_pending_output(
    cfg: Settings,
    lines: Seq<Seq<char>>,
    command: Command,
    outputs: Seq<Seq<char>>,
)
    requires
        lines.len() >= 1,
    ensures
        walk_output(cfg, lines, command, outputs) is Pending ==> outputs.len() < lines.len(),
    decreases lines.len(), 0int,
{
    let o = first_line_with(lines, cfg.markers.end_output);
    if !(o < 0 || o >= lines.len()) {
        if cfg.omit_output {
            lemma_pending_walk(cfg, lines.skip(o + 1), outputs);
        } else if outputs.len() > 0 {
            lemma_pending_walk(cfg, lines.skip(o + 1), outputs.skip(1));
        }
    }
}

} // verus!
