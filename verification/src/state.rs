//! The parse state machine: it walks a document line by line and assembles the
//! processed text.

use crate::chars::{append_chars, append_line, split_lines, to_chars, to_text};
use crate::checksum::{stamp, stamp_or_verify};
use crate::document::{
    behind_marker, closing_line, echo, has_block, lemma_then_empty, lemma_then_then, parse, then,
    walk, walk_block, walk_output, Parsed, Processed, Progress, Settings,
};
use crate::error::{CorgError, Failure};
use crate::executor::{command_of, Command, Invocation};
use crate::markers::{command_spec, MarkerSet};
use crate::text::{
    contains, first_line_with, join, lemma_first_line_with, lemma_first_line_with_is,
    lemma_join_concat, lemma_join_one, lines_of,
    newline, strings, texts,
};
use crate::Corg;
use vstd::prelude::*;
use vstd::string::StringExecFns;

verus! {

/// The entry point of the state machine.
pub struct Parser;

/// The accumulator: the text assembled so far, and whether a block was met.
#[derive(Debug)]
pub struct OutputState {
    output: String,
    blocks_found: bool,
}

impl View for OutputState {
    type V = Processed;

    closed spec fn view(&self) -> Processed {
        Processed { output: self.output@, blocks_found: self.blocks_found }
    }
}

impl OutputState {
    /// The assembled text.
    pub fn get_output(&self) -> (output: &str)
        ensures
            output@ == self@.output,
    {
        self.output.as_str()
    }

    /// Whether a block was met.
    pub fn found_blocks(&self) -> (found: bool)
        ensures
            found == self@.blocks_found,
    {
        self.blocks_found
    }
}

/// How far an evaluation got with the outputs it was given.
#[derive(Debug)]
pub enum Evaluation {
    /// The output of this command is needed next.
    Pending(Invocation),
    /// The document has been walked to its end, or a failure ended the walk.
    Finished(Result<OutputState, CorgError>),
}

impl View for Evaluation {
    type V = Parsed;

    open spec fn view(&self) -> Parsed {
        match *self {
            Evaluation::Pending(invocation) => Parsed::Pending(invocation@),
            Evaluation::Finished(Ok(state)) => Parsed::Finished(Ok(state@)),
            Evaluation::Finished(Err(e)) => Parsed::Finished(Err(e@)),
        }
    }
}

/// The lines of a document and the place that the walk has reached in them.
struct Lines {
    lines: Vec<Vec<char>>,
    next: usize,
}

impl Lines {
    #[verifier::type_invariant]
    spec fn in_bounds(&self) -> bool {
        self.next <= self.lines.len()
    }

    /// The lines not yet consumed.
    spec fn rest(&self) -> Seq<Seq<char>> {
        texts(self.lines@).skip(self.next as int)
    }

    fn new(text: &str) -> (lines: Lines)
        ensures
            lines.rest() == lines_of(text@),
    {
        let lines = split_lines(&to_chars(text));
        assert(texts(lines@).skip(0) =~= texts(lines@));
        Lines { lines, next: 0 }
    }

    /// The next line, without consuming it.
    fn peek(&self) -> (line: Option<&Vec<char>>)
        ensures
            match line {
                Some(l) => self.rest().len() > 0 && l@ == self.rest()[0],
                None => self.rest().len() == 0,
            },
    {
        proof {
            use_type_invariant(self);
        }
        if self.next < self.lines.len() {
            Some(&self.lines[self.next])
        } else {
            None
        }
    }

    /// Consumes the next line.
    fn advance(&mut self)
        requires
            old(self).rest().len() > 0,
        ensures
            final(self).rest() == old(self).rest().skip(1),
    {
        proof {
            use_type_invariant(&*self);
        }
        self.next = self.next + 1;
        assert(texts(self.lines@).skip(self.next as int) =~= texts(self.lines@).skip(
            self.next - 1,
        ).skip(1));
    }
}

enum ParseStates {
    RawText(RawText),
    CodePending(CodePending),
    OutputPending(OutputPending),
    Done(OutputState),
}

impl ParseStates {
    fn raw_text(state: OutputState) -> (next: Self)
        ensures
            next == ParseStates::RawText(RawText { state }),
    {
        ParseStates::RawText(RawText { state })
    }

    fn code_pending(state: OutputState) -> (next: Self)
        ensures
            next == ParseStates::CodePending(CodePending { state }),
    {
        ParseStates::CodePending(CodePending { state })
    }

    fn output_pending(state: OutputState, shebang: String, code: String) -> (next: Self)
        ensures
            next == ParseStates::OutputPending(OutputPending { state, shebang, code }),
    {
        ParseStates::OutputPending(OutputPending { state, shebang, code })
    }

    fn done(state: OutputState) -> (next: Self)
        ensures
            next == ParseStates::Done(state),
    {
        ParseStates::Done(state)
    }

    /// The text assembled so far.
    spec fn output(self) -> Seq<char> {
        match self {
            ParseStates::RawText(s) => s.state.output@,
            ParseStates::CodePending(s) => s.state.output@,
            ParseStates::OutputPending(s) => s.state.output@,
            ParseStates::Done(s) => s.output@,
        }
    }

    /// Whether a block was met so far.
    spec fn found(self) -> bool {
        match self {
            ParseStates::RawText(s) => s.state.blocks_found,
            ParseStates::CodePending(s) => s.state.blocks_found,
            ParseStates::OutputPending(s) => s.state.blocks_found,
            ParseStates::Done(s) => s.blocks_found,
        }
    }

    /// What the walk still assembles from this state, over the lines `rest`.
    spec fn remainder(self, cfg: Settings, rest: Seq<Seq<char>>, outputs: Seq<Seq<char>>) -> Progress {
        match self {
            ParseStates::RawText(_) => walk(cfg, rest, outputs),
            ParseStates::CodePending(_) => walk_block(cfg, rest, outputs),
            ParseStates::OutputPending(s) => walk_output(
                cfg,
                rest,
                command_of(s.shebang@, s.code@),
                outputs,
            ),
            ParseStates::Done(_) => Progress::Finished(Ok(Seq::empty())),
        }
    }

    /// The rank of this state among those that can hold at one place.
    spec fn rank(self) -> int {
        match self {
            ParseStates::RawText(_) => 3,
            ParseStates::CodePending(_) => 2,
            ParseStates::OutputPending(_) => 1,
            ParseStates::Done(_) => 0,
        }
    }
}

impl ParseStates {
    /// The state in which every walk begins: outside any block, with nothing
    /// assembled and no block met.
    fn initial() -> (start: Self)
        ensures
            start is RawText,
            start.output() == Seq::<char>::empty(),
            !start.found(),
    {
        Self::RawText(RawText { state: OutputState { output: String::new(), blocks_found: false } })
    }
}

struct RawText {
    state: OutputState,
}

struct CodePending {
    state: OutputState,
}

struct OutputPending {
    state: OutputState,
    shebang: String,
    code: String,
}

/// What the output state yields: the next state, or the command to run first.
enum Produced {
    /// The next state, and whether the fresh output at hand was used up.
    Next(ParseStates, bool),
    /// No fresh output is at hand, and this command is to give it.
    Request(Invocation),
}

/// A block's fresh output, or the command that is to give it.
enum Execution {
    Output(String),
    Request(Invocation),
}

impl RawText {
    /// Copies lines up to the first start-of-block line, which it leaves
    /// unconsumed.
    fn consume_raw_text(self, input: &mut Lines, markers: &MarkerSet) -> (next: ParseStates)
        ensures
            ({
                let lines = old(input).rest();
                let s = first_line_with(lines, markers@.start);
                &&& 0 <= s <= lines.len()
                &&& final(input).rest() == lines.skip(s)
                &&& next.output() == self.state.output@ + join(lines.take(s))
                &&& next.found() == self.state.blocks_found
                &&& if s == lines.len() {
                    next is Done
                } else {
                    next is CodePending
                }
            }),
    {
        let mut state = self.state;
        let ghost lines = input.rest();
        let ghost before = state.output@;
        let ghost mut taken: int = 0;
        proof {
            assert(lines.skip(0) =~= lines);
            assert(lines.take(0) =~= Seq::empty());
            assert(before + join(lines.take(0)) =~= before);
        }
        loop
            invariant
                lines == old(input).rest(),
                before == self.state.output@,
                0 <= taken <= lines.len(),
                input.rest() == lines.skip(taken),
                forall|k: int| 0 <= k < taken ==> !contains(#[trigger] lines[k], markers@.start),
                state.output@ == before + join(lines.take(taken)),
                state.blocks_found == self.state.blocks_found,
            decreases lines.len() - taken,
        {
            match input.peek() {
                Some(line) => {
                    if markers.is_start_of_block(line) {
                        proof {
                            lemma_first_line_with_is(lines, markers@.start, taken);
                        }
                        return ParseStates::code_pending(state);
                    }
                    append_line(&mut state.output, line);
                },
                None => {
                    proof {
                        lemma_first_line_with_is(lines, markers@.start, taken);
                    }
                    return ParseStates::done(state);
                },
            }
            input.advance();
            proof {
                assert(lines.take(taken + 1).drop_last() =~= lines.take(taken));
                assert(lines.skip(taken).skip(1) =~= lines.skip(taken + 1));
                assert(before + join(lines.take(taken)) + lines[taken] + newline() =~= before
                    + (join(lines.take(taken)) + lines[taken] + newline()));
                taken = taken + 1;
            }
        }
    }
}

impl CodePending {
    /// Echoes `line` where block markers are retained.
    fn add_meta_line(&mut self, corg: &Corg, line: &Vec<char>)
        ensures
            final(self).state.output@ == old(self).state.output@ + echo(corg@, seq![line@]),
            final(self).state.blocks_found == old(self).state.blocks_found,
    {
        proof {
            lemma_join_one(line@);
        }
        if !corg.deletes_blocks() {
            append_line(&mut self.state.output, line);
        } else {
            assert(self.state.output@ + Seq::<char>::empty() =~= self.state.output@);
        }
    }

    /// Consumes the start-of-block line and the block's source, up to the
    /// end-of-block line, which it echoes and leaves unconsumed.
    fn consume_code(self, input: &mut Lines, markers: &MarkerSet, corg: &Corg) -> (next:
        ParseStates)
        requires
            old(input).rest().len() > 0,
            contains(old(input).rest()[0], markers@.start),
        ensures
            ({
                let lines = old(input).rest();
                let e = 1 + first_line_with(lines.skip(1), markers@.end_block);
                &&& 1 <= e <= lines.len()
                &&& next.found()
                &&& if e == lines.len() {
                    &&& next is Done
                    &&& next.output() == self.state.output@ + echo(corg@, lines)
                    &&& final(input).rest() == lines.skip(e)
                } else {
                    &&& next matches ParseStates::OutputPending(pending)
                    &&& pending.shebang@ == command_spec(lines[0], markers@.start)->0
                    &&& pending.code@ == join(lines.subrange(1, e))
                    &&& next.output() == self.state.output@ + echo(corg@, lines.take(e + 1))
                    &&& final(input).rest() == lines.skip(e)
                }
            }),
    {
        let mut this = self;
        let ghost lines = input.rest();
        let ghost before = this.state.output@;
        this.state.blocks_found = true;
        let shebang = match input.peek() {
            Some(line) => {
                let shebang = match markers.start_of_block(line) {
                    Some(text) => to_text(&text),
                    None => String::new(),
                };
                this.add_meta_line(corg, line);
                shebang
            },
            None => String::new(),
        };
        input.advance();
        let mut code = String::new();
        let ghost mut taken: int = 1;
        proof {
            assert(lines.take(1) =~= seq![lines[0]]);
            assert(lines.subrange(1, 1) =~= Seq::empty());
        }
        loop
            invariant
                lines == old(input).rest(),
                before == self.state.output@,
                1 <= taken <= lines.len(),
                input.rest() == lines.skip(taken),
                forall|k: int| 1 <= k < taken ==> !contains(#[trigger] lines[k], markers@.end_block),
                this.state.output@ == before + echo(corg@, lines.take(taken)),
                this.state.blocks_found,
                code@ == join(lines.subrange(1, taken)),
                shebang@ == command_spec(lines[0], markers@.start)->0,
            decreases lines.len() - taken,
        {
            let ghost tail = lines.skip(1);
            proof {
                assert forall|k: int| 0 <= k < taken - 1 implies !contains(
                    #[trigger] tail[k],
                    markers@.end_block,
                ) by {
                    assert(tail[k] == lines[k + 1]);
                }
            }
            let line = match input.peek() {
                Some(line) => line,
                None => {
                    proof {
                        lemma_first_line_with_is(tail, markers@.end_block, taken - 1);
                        assert(lines.take(taken) =~= lines);
                    }
                    return ParseStates::done(this.state);
                },
            };
            this.add_meta_line(corg, line);
            proof {
                assert(lines.take(taken + 1) =~= lines.take(taken) + seq![lines[taken]]);
                lemma_join_concat(lines.take(taken), seq![lines[taken]]);
                assert(before + echo(corg@, lines.take(taken)) + echo(corg@, seq![lines[taken]])
                    =~= before + echo(corg@, lines.take(taken + 1)));
            }
            if markers.is_end_of_block(line) {
                proof {
                    assert(tail[taken - 1] == lines[taken]);
                    lemma_first_line_with_is(tail, markers@.end_block, taken - 1);
                }
                return ParseStates::output_pending(this.state, shebang, code);
            }
            append_line(&mut code, line);
            input.advance();
            proof {
                assert(lines.subrange(1, taken + 1).drop_last() =~= lines.subrange(1, taken));
                assert(lines.skip(taken).skip(1) =~= lines.skip(taken + 1));
                taken = taken + 1;
            }
        }
    }
}

impl OutputPending {
    /// The block's fresh output where it is at hand, else the command that is
    /// to give it.
    fn execute_code_block(&self, fresh: Option<&String>) -> (execution: Execution)
        ensures
            match execution {
                Execution::Output(text) => fresh matches Some(given) && text@ == given@,
                Execution::Request(invocation) => fresh is None && invocation@ == command_of(
                    self.shebang@,
                    self.code@,
                ),
            },
    {
        match fresh {
            Some(text) => Execution::Output(text.clone()),
            None => Execution::Request(Invocation::new(self.shebang.as_str(), self.code.clone())),
        }
    }

    /// What is written behind the end-of-output marker for the fresh `output`,
    /// given the digest captured there.
    fn output_checksum(
        &self,
        corg: &Corg,
        output: &str,
        checksum_capture: Option<&Vec<char>>,
    ) -> (result: Result<Vec<char>, CorgError>)
        ensures
            match result {
                Ok(text) => stamp(
                    corg@.checksum,
                    output@,
                    match checksum_capture {
                        Some(old) => Some(old@),
                        None => None,
                    },
                ) == Ok::<Seq<char>, Failure>(text@),
                Err(e) => stamp(
                    corg@.checksum,
                    output@,
                    match checksum_capture {
                        Some(old) => Some(old@),
                        None => None,
                    },
                ) == Err::<Seq<char>, Failure>(e@),
            },
    {
        stamp_or_verify(corg.uses_checksum(), output, checksum_capture)
    }

    /// Drops lines up to the end-of-output line. Where output is omitted it
    /// then emits the line as it stands; else it emits the block's fresh
    /// output, verifies the digest found in the line, and emits the line with
    /// what the configuration asks behind its marker. Where the document ends
    /// first, the fresh output ends it.
    fn produce_output(
        self,
        input: &mut Lines,
        markers: &MarkerSet,
        corg: &Corg,
        fresh: Option<&String>,
    ) -> (result: Result<Produced, CorgError>)
        requires
            markers@ == corg@.markers,
        ensures
            ({
                let lines = old(input).rest();
                let cfg = corg@;
                let o = first_line_with(lines, markers@.end_output);
                let needs = o >= lines.len() || !cfg.omit_output;
                let text = if needs {
                    fresh->0@
                } else {
                    Seq::empty()
                };
                &&& 0 <= o <= lines.len()
                &&& if needs && fresh is None {
                    &&& result matches Ok(Produced::Request(invocation))
                    &&& invocation@ == command_of(self.shebang@, self.code@)
                } else if o >= lines.len() {
                    &&& result matches Ok(Produced::Next(next, used))
                    &&& next is Done
                    &&& next.output() == self.state.output@ + text
                    &&& next.found() == self.state.blocks_found
                    &&& used
                    &&& final(input).rest() == lines.skip(o)
                } else {
                    match closing_line(cfg, lines[o], text) {
                        Err(failure) => result matches Err(e) && e@ == failure,
                        Ok(end) => {
                            &&& result matches Ok(Produced::Next(next, used))
                            &&& next is RawText
                            &&& next.output() == self.state.output@ + text + end
                            &&& next.found() == self.state.blocks_found
                            &&& used == needs
                            &&& final(input).rest() == lines.skip(o + 1)
                        },
                    }
                }
            }),
    {
        let mut this = self;
        let ghost lines = input.rest();
        let ghost before = this.state.output@;
        let ghost mut taken: int = 0;
        proof {
            assert(lines.skip(0) =~= lines);
        }
        loop
            invariant
                lines == old(input).rest(),
                before == self.state.output@,
                markers@ == corg@.markers,
                this == self,
                0 <= taken <= lines.len(),
                input.rest() == lines.skip(taken),
                forall|k: int|
                    0 <= k < taken ==> !contains(#[trigger] lines[k], markers@.end_output),
            decreases lines.len() - taken,
        {
            let line = match input.peek() {
                Some(line) => line,
                None => {
                    proof {
                        lemma_first_line_with_is(lines, markers@.end_output, taken);
                    }
                    match this.execute_code_block(fresh) {
                        Execution::Request(invocation) => {
                            return Ok(Produced::Request(invocation));
                        },
                        Execution::Output(output) => {
                            this.state.output.append(output.as_str());
                            return Ok(Produced::Next(ParseStates::done(this.state), true));
                        },
                    }
                },
            };
            match markers.end_of_output(line) {
                Some(capture) => {
                    proof {
                        lemma_first_line_with_is(lines, markers@.end_output, taken);
                    }
                    if corg.omits_output() {
                        proof {
                            lemma_join_one(line@);
                        }
                        if !corg.deletes_blocks() {
                            append_line(&mut this.state.output, line);
                            assert(this.state.output@ =~= before + Seq::<char>::empty() + (line@
                                + newline()));
                        } else {
                            assert(this.state.output@ =~= before + Seq::<char>::empty()
                                + Seq::<char>::empty());
                        }
                        input.advance();
                        proof {
                            assert(lines.skip(taken).skip(1) =~= lines.skip(taken + 1));
                        }
                        return Ok(Produced::Next(ParseStates::raw_text(this.state), false));
                    }
                    let output = match this.execute_code_block(fresh) {
                        Execution::Request(invocation) => {
                            return Ok(Produced::Request(invocation));
                        },
                        Execution::Output(output) => output,
                    };
                    this.state.output.append(output.as_str());
                    let note = match this.output_checksum(
                        corg,
                        output.as_str(),
                        capture.checksum.as_ref(),
                    ) {
                        Ok(note) => note,
                        Err(e) => {
                            return Err(e);
                        },
                    };
                    if !corg.deletes_blocks() {
                        append_chars(&mut this.state.output, &capture.prefix);
                        append_chars(&mut this.state.output, &capture.marker);
                        if corg.uses_checksum() {
                            append_chars(&mut this.state.output, &note);
                        } else {
                            append_chars(&mut this.state.output, &capture.gap);
                        }
                        append_line(&mut this.state.output, &capture.suffix);
                        proof {
                            let parts = capture@;
                            assert(this.state.output@ =~= before + output@ + (parts.prefix
                                + parts.marker + behind_marker(corg@, parts, note@) + parts.suffix
                                + newline()));
                        }
                    } else {
                        assert(this.state.output@ =~= before + output@ + Seq::<char>::empty());
                    }
                    input.advance();
                    proof {
                        assert(lines.skip(taken).skip(1) =~= lines.skip(taken + 1));
                    }
                    return Ok(Produced::Next(ParseStates::raw_text(this.state), true));
                },
                None => {},
            }
            input.advance();
            proof {
                assert(lines.skip(taken).skip(1) =~= lines.skip(taken + 1));
                taken = taken + 1;
            }
        }
    }
}

impl Parser {
    /// Walks `input` with the outputs of the commands run so far, in document
    /// order.
    ///
    /// The result is the finished document, or the failure that ended the
    /// walk, or the command whose output is needed next. An evaluation starts
    /// from the head of the document every time it is called: it keeps no
    /// state between calls, and `outputs` beyond those it needs are ignored.
    pub fn evaluate(input: &str, corg: &Corg, outputs: &Vec<String>) -> (result: Evaluation)
        ensures
            result@ == parse(corg@, input@, strings(outputs@)),
    {
        let markers = corg.markers();
        let mut lines = Lines::new(input);
        let ghost cfg = corg@;
        let ghost all = lines.rest();
        let ghost outs = strings(outputs@);
        let ghost mut consumed: int = 0;
        let mut used: usize = 0;
        let mut state = ParseStates::initial();
        proof {
            assert(all.skip(0) =~= all);
            assert(outs.skip(0) =~= outs);
            lemma_then_empty(walk(cfg, all, outs));
        }
        loop
            invariant
                cfg == corg@,
                markers@ == cfg.markers,
                all == lines_of(input@),
                outs == strings(outputs@),
                used <= outputs.len(),
                0 <= consumed <= all.len(),
                lines.rest() == all.skip(consumed),
                walk(cfg, all, outs) == then(
                    state.output(),
                    state.remainder(cfg, lines.rest(), outs.skip(used as int)),
                ),
                state.found() ==> has_block(cfg, all),
                !state.found() ==> forall|k: int|
                    0 <= k < consumed ==> !contains(#[trigger] all[k], cfg.markers.start),
                state is CodePending ==> lines.rest().len() > 0 && contains(
                    lines.rest()[0],
                    cfg.markers.start,
                ),
                state is OutputPending ==> state.found(),
                state is Done ==> consumed == all.len(),
            decreases all.len() - consumed, state.rank(),
        {
            let ghost rest = lines.rest();
            let ghost left = outs.skip(used as int);
            let ghost out = state.output();
            match state {
                ParseStates::RawText(raw_text) => {
                    proof {
                        lemma_raw_step(cfg, rest, left, out);
                        lemma_unmet(cfg, all, consumed, first_line_with(rest, cfg.markers.start));
                    }
                    state = raw_text.consume_raw_text(&mut lines, &markers);
                    proof {
                        consumed = consumed + first_line_with(rest, cfg.markers.start);
                    }
                },
                ParseStates::CodePending(code_pending) => {
                    proof {
                        lemma_block_step(cfg, rest, left, out);
                        lemma_met(cfg, all, consumed);
                        assert(all.skip(consumed).skip(
                            1 + first_line_with(rest.skip(1), cfg.markers.end_block),
                        ) =~= all.skip(
                            consumed + 1 + first_line_with(rest.skip(1), cfg.markers.end_block),
                        ));
                    }
                    state = code_pending.consume_code(&mut lines, &markers, corg);
                    proof {
                        consumed = consumed + 1 + first_line_with(
                            rest.skip(1),
                            cfg.markers.end_block,
                        );
                    }
                },
                ParseStates::OutputPending(output_pending) => {
                    let fresh = if used < outputs.len() {
                        Some(&outputs[used])
                    } else {
                        None
                    };
                    let ghost command = command_of(
                        output_pending.shebang@,
                        output_pending.code@,
                    );
                    proof {
                        if used < outputs.len() {
                            assert(left[0] == outputs@[used as int]@);
                            assert(left.skip(1) =~= outs.skip(used + 1));
                        }
                        lemma_output_step(cfg, rest, command, left, out);
                        let o = first_line_with(rest, cfg.markers.end_output);
                        if o < rest.len() {
                            assert(all.skip(consumed).skip(o + 1) =~= all.skip(consumed + o + 1));
                        } else {
                            assert(all.skip(consumed).skip(o) =~= all.skip(consumed + o));
                        }
                    }
                    match output_pending.produce_output(&mut lines, &markers, corg, fresh) {
                        Err(e) => {
                            return Evaluation::Finished(Err(e));
                        },
                        Ok(Produced::Request(invocation)) => {
                            return Evaluation::Pending(invocation);
                        },
                        Ok(Produced::Next(next, spent)) => {
                            proof {
                                let o = first_line_with(rest, cfg.markers.end_output);
                                if o < rest.len() {
                                    consumed = consumed + o + 1;
                                } else {
                                    consumed = consumed + o;
                                }
                            }
                            if spent {
                                used = used + 1;
                            }
                            state = next;
                        },
                    }
                },
                ParseStates::Done(finished) => {
                    proof {
                        assert(out + Seq::<char>::empty() =~= out);
                        if !finished.blocks_found {
                            lemma_first_line_with_is(all, cfg.markers.start, all.len() as int);
                        }
                    }
                    return Evaluation::Finished(Ok(finished));
                },
            }
        }
    }
}

/// Where no line before `from` opens a block, nor any of the `count` lines
/// from there on, none before `from + count` does.
proof fn lemma_unmet(cfg: Settings, all: Seq<Seq<char>>, from: int, count: int)
    requires
        0 <= from <= all.len(),
        count == first_line_with(all.skip(from), cfg.markers.start),
    ensures
        0 <= count <= all.len() - from,
        all.skip(from).skip(count) == all.skip(from + count),
        (forall|k: int| 0 <= k < from ==> !contains(#[trigger] all[k], cfg.markers.start))
            ==> forall|k: int|
            0 <= k < from + count ==> !contains(#[trigger] all[k], cfg.markers.start),
        count < all.len() - from ==> contains(all.skip(from + count)[0], cfg.markers.start),
{
    let rest = all.skip(from);
    lemma_first_line_with(rest, cfg.markers.start);
    assert(rest.skip(count) =~= all.skip(from + count));
    assert forall|k: int| from <= k < from + count implies !contains(
        #[trigger] all[k],
        cfg.markers.start,
    ) by {
        assert(all[k] == rest[k - from]);
    }
    if count < all.len() - from {
        assert(all.skip(from + count)[0] == rest[count]);
    }
}

/// A document with a start-of-block line holds a block.
proof fn lemma_met(cfg: Settings, all: Seq<Seq<char>>, at: int)
    requires
        0 <= at < all.len(),
        contains(all.skip(at)[0], cfg.markers.start),
    ensures
        has_block(cfg, all),
{
    lemma_first_line_with(all, cfg.markers.start);
    assert(all.skip(at)[0] == all[at]);
}

/// One step of the walk from outside a block.
proof fn lemma_raw_step(cfg: Settings, rest: Seq<Seq<char>>, left: Seq<Seq<char>>, out: Seq<char>)
    ensures
        ({
            let s = first_line_with(rest, cfg.markers.start);
            &&& 0 <= s <= rest.len()
            &&& s == rest.len() ==> then(out, walk(cfg, rest, left)) == then(
                out + join(rest.take(s)),
                Progress::Finished(Ok(Seq::empty())),
            )
            &&& s < rest.len() ==> then(out, walk(cfg, rest, left)) == then(
                out + join(rest.take(s)),
                walk_block(cfg, rest.skip(s), left),
            )
        }),
{
    let s = first_line_with(rest, cfg.markers.start);
    lemma_first_line_with(rest, cfg.markers.start);
    if s == rest.len() {
        assert(rest.take(s) =~= rest);
        assert(out + join(rest) + Seq::<char>::empty() =~= out + join(rest));
    } else {
        lemma_then_then(out, join(rest.take(s)), walk_block(cfg, rest.skip(s), left));
    }
}

/// One step of the walk from a start-of-block line.
proof fn lemma_block_step(
    cfg: Settings,
    rest: Seq<Seq<char>>,
    left: Seq<Seq<char>>,
    out: Seq<char>,
)
    requires
        rest.len() > 0,
    ensures
        ({
            let e = 1 + first_line_with(rest.skip(1), cfg.markers.end_block);
            &&& 1 <= e <= rest.len()
            &&& e == rest.len() ==> then(out, walk_block(cfg, rest, left)) == then(
                out + echo(cfg, rest),
                Progress::Finished(Ok(Seq::empty())),
            )
            &&& e < rest.len() ==> then(out, walk_block(cfg, rest, left)) == then(
                out + echo(cfg, rest.take(e + 1)),
                walk_output(
                    cfg,
                    rest.skip(e),
                    command_of(
                        command_spec(rest[0], cfg.markers.start)->0,
                        join(rest.subrange(1, e)),
                    ),
                    left,
                ),
            )
        }),
{
    let e = 1 + first_line_with(rest.skip(1), cfg.markers.end_block);
    lemma_first_line_with(rest.skip(1), cfg.markers.end_block);
    if e == rest.len() {
        assert(out + echo(cfg, rest) + Seq::<char>::empty() =~= out + echo(cfg, rest));
    } else {
        lemma_then_then(
            out,
            echo(cfg, rest.take(e + 1)),
            walk_output(
                cfg,
                rest.skip(e),
                command_of(command_spec(rest[0], cfg.markers.start)->0, join(rest.subrange(1, e))),
                left,
            ),
        );
    }
}

/// One step of the walk from an end-of-block line.
proof fn lemma_output_step(
    cfg: Settings,
    rest: Seq<Seq<char>>,
    command: Command,
    left: Seq<Seq<char>>,
    out: Seq<char>,
)
    ensures
        ({
            let o = first_line_with(rest, cfg.markers.end_output);
            let needs = o >= rest.len() || !cfg.omit_output;
            let text = if needs {
                left[0]
            } else {
                Seq::empty()
            };
            let after = if needs {
                left.skip(1)
            } else {
                left
            };
            let now = then(out, walk_output(cfg, rest, command, left));
            &&& 0 <= o <= rest.len()
            &&& if needs && left.len() == 0 {
                now == Progress::Pending(command)
            } else if o >= rest.len() {
                now == then(out + text, Progress::Finished(Ok(Seq::empty())))
            } else {
                match closing_line(cfg, rest[o], text) {
                    Err(failure) => now == Progress::Finished(Err(failure)),
                    Ok(end) => now == then(out + text + end, walk(cfg, rest.skip(o + 1), after)),
                }
            }
        }),
{
    let o = first_line_with(rest, cfg.markers.end_output);
    lemma_first_line_with(rest, cfg.markers.end_output);
    let needs = o >= rest.len() || !cfg.omit_output;
    if needs && left.len() == 0 {
    } else if o >= rest.len() {
        assert(out + left[0] + Seq::<char>::empty() =~= out + left[0]);
    } else {
        let text = if needs {
            left[0]
        } else {
            Seq::empty()
        };
        let after = if needs {
            left.skip(1)
        } else {
            left
        };
        match closing_line(cfg, rest[o], text) {
            Err(failure) => {},
            Ok(end) => {
                assert(Seq::<char>::empty() + end =~= end);
                assert(out + text + end =~= out + (text + end));
                lemma_then_then(out, text + end, walk(cfg, rest.skip(o + 1), after));
            },
        }
    }
}

} // verus!
