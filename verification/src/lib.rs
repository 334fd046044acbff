//! A literate-text preprocessor: snippets embedded in a document between
//! textual markers are run as commands, and what they print is spliced back
//! into the document.
//!
//! The library decides everything and runs nothing itself. [`Corg::execute`]
//! walks a document and calls the executor that it is handed for each command;
//! [`state::Parser::evaluate`] is the same walk as a function of the outputs
//! obtained so far. What a pass means is stated in [`document`], on character
//! sequences; [`laws`] holds what follows for every document.
//!
//! - [`text`], [`chars`]: character sequences and the routines on them.
//! - [`markers`]: the three markers and the classification of a line.
//! - [`checksum`]: the digest annotation of an end-of-output line.
//! - [`executor`]: the command of a block and the meaning of its outcome.
//! - [`document`]: the meaning of a pass.
//! - [`state`]: the state machine that carries a pass out.
//! - [`reading`], [`laws`]: how results read back, and the laws of the pass.
//! - [`options`]: the options of the command line.

pub mod chars;
pub mod checksum;
pub mod document;
pub mod error;
pub mod executor;
pub mod laws;
pub mod markers;
pub mod options;
pub mod reading;
pub mod state;
pub mod text;

pub use crate::error::CorgError;

use crate::chars::to_chars;
use crate::checksum::same;
use crate::document::{lemma_pending_walk, parse, process, verdict, Parsed, Settings};
use crate::error::Failure;
use crate::executor::{contribution, ExecutionResult, Invocation};
use crate::markers::{MarkerSet, Markers};
use crate::state::{Evaluation, OutputState, Parser};
use crate::text::{lines_of, strings};
use std::path::PathBuf;
use vstd::prelude::*;

verus! {

/// The markers that a processor recognises unless told otherwise.
pub open spec fn default_markers() -> Markers {
    Markers { start: "[[[#!"@, end_block: "]]]"@, end_output: "[[[end]]]"@ }
}

/// The settings of a processor that was told nothing.
pub open spec fn default_settings() -> Settings {
    Settings {
        delete_blocks: false,
        warn_if_no_blocks: false,
        omit_output: false,
        check_only: false,
        checksum: false,
        markers: default_markers(),
    }
}

/// What a result of the processor says, with texts as character sequences.
pub open spec fn outcome_of(result: Result<String, CorgError>) -> Result<Seq<char>, Failure> {
    match result {
        Ok(text) => Ok(text@),
        Err(e) => Err(e@),
    }
}

/// What an attempt to run a command means for the pass: the text that the
/// command contributes, or the failure that ends the pass.
pub open spec fn reply(attempt: Result<ExecutionResult, std::io::Error>) -> Result<
    Seq<char>,
    Failure,
> {
    match attempt {
        Ok(result) => contribution(result),
        Err(e) => Err(Failure::IOError(e)),
    }
}

/// The texts that the attempts `trace` contribute, one for one.
pub open spec fn outputs_of(trace: Seq<Result<ExecutionResult, std::io::Error>>) -> Seq<Seq<char>> {
    Seq::new(trace.len(), |i: int| reply(trace[i])->Ok_0)
}

/// Whether `trace[k]` is what `run` returned for the command that the pass
/// asked for after the attempts before it, all of which contributed a text.
pub open spec fn answers<F: Fn(&Invocation) -> Result<ExecutionResult, std::io::Error>>(
    cfg: Settings,
    document: Seq<char>,
    run: F,
    trace: Seq<Result<ExecutionResult, std::io::Error>>,
    k: int,
) -> bool {
    &&& parse(cfg, document, outputs_of(trace.take(k))) matches Parsed::Pending(command)
    &&& exists|invocation: Invocation| #[trigger]
        call_ensures(run, (&invocation,), trace[k]) && invocation@ == command
    &&& k + 1 < trace.len() ==> reply(trace[k]) is Ok
}

/// Whether the attempts `trace`, made in this order, account for the result of
/// a pass over `document`.
///
/// Each attempt answers the command that was asked for at its turn. A pass
/// ends at the first attempt that does not contribute a text, with that
/// attempt's failure. Else it ends when the parse asks for no more, with the
/// result that [`process`] gives for the texts that the attempts contributed.
pub open spec fn explains<F: Fn(&Invocation) -> Result<ExecutionResult, std::io::Error>>(
    cfg: Settings,
    document: Seq<char>,
    run: F,
    trace: Seq<Result<ExecutionResult, std::io::Error>>,
    result: Result<Seq<char>, Failure>,
) -> bool {
    &&& forall|k: int| 0 <= k < trace.len() ==> #[trigger] answers(cfg, document, run, trace, k)
    &&& if trace.len() > 0 && reply(trace.last()) is Err {
        result == Err::<Seq<char>, Failure>(reply(trace.last())->Err_0)
    } else {
        process(cfg, document, outputs_of(trace)) == Some(result)
    }
}

/// The document processor: a configuration, and the entry point that applies it
/// to a document.
pub struct Corg {
    delete_blocks: bool,
    warn_if_no_blocks: bool,
    omit_output: bool,
    check_only: bool,
    checksum: bool,
    start_block_marker: String,
    end_block_marker: String,
    end_output_marker: String,
}

impl View for Corg {
    type V = Settings;

    closed spec fn view(&self) -> Settings {
        Settings {
            delete_blocks: self.delete_blocks,
            warn_if_no_blocks: self.warn_if_no_blocks,
            omit_output: self.omit_output,
            check_only: self.check_only,
            checksum: self.checksum,
            markers: Markers {
                start: self.start_block_marker@,
                end_block: self.end_block_marker@,
                end_output: self.end_output_marker@,
            },
        }
    }
}

impl Default for Corg {
    fn default() -> (corg: Corg)
        ensures
            corg@ == default_settings(),
    {
        Corg {
            delete_blocks: false,
            warn_if_no_blocks: false,
            omit_output: false,
            check_only: false,
            checksum: false,
            start_block_marker: "[[[#!".to_owned(),
            end_block_marker: "]]]".to_owned(),
            end_output_marker: "[[[end]]]".to_owned(),
        }
    }
}

impl Corg {
    /// Whether the block markers and sources are left out of the result.
    #[must_use]
    pub fn delete_blocks(self, delete_blocks: bool) -> (corg: Corg)
        ensures
            corg@ == (Settings { delete_blocks, ..self@ }),
    {
        Corg { delete_blocks, ..self }
    }

    /// Whether a document without blocks is a failure.
    #[must_use]
    pub fn warn_if_no_blocks(self, warn_if_no_blocks: bool) -> (corg: Corg)
        ensures
            corg@ == (Settings { warn_if_no_blocks, ..self@ }),
    {
        Corg { warn_if_no_blocks, ..self }
    }

    /// Whether output regions are left empty and their commands not run.
    #[must_use]
    pub fn omit_output(self, omit_output: bool) -> (corg: Corg)
        ensures
            corg@ == (Settings { omit_output, ..self@ }),
    {
        Corg { omit_output, ..self }
    }

    /// Whether a result that differs from the document is a failure.
    #[must_use]
    pub fn check_only(self, check_only: bool) -> (corg: Corg)
        ensures
            corg@ == (Settings { check_only, ..self@ }),
    {
        Corg { check_only, ..self }
    }

    /// Whether digests are written on end-of-output lines and verified there.
    #[must_use]
    pub fn checksum(self, checksum: bool) -> (corg: Corg)
        ensures
            corg@ == (Settings { checksum, ..self@ }),
    {
        Corg { checksum, ..self }
    }

    /// Replaces the three markers.
    #[must_use]
    pub fn override_markers(
        self,
        start_block_marker: String,
        end_block_marker: String,
        end_output_marker: String,
    ) -> (corg: Corg)
        ensures
            corg@ == (Settings {
                markers: Markers {
                    start: start_block_marker@,
                    end_block: end_block_marker@,
                    end_output: end_output_marker@,
                },
                ..self@
            }),
    {
        Corg { start_block_marker, end_block_marker, end_output_marker, ..self }
    }

    /// The markers, ready to classify lines.
    pub fn markers(&self) -> (set: MarkerSet)
        ensures
            set@ == self@.markers,
    {
        MarkerSet::new(
            self.start_block_marker.as_str(),
            self.end_block_marker.as_str(),
            self.end_output_marker.as_str(),
        )
    }

    /// Whether block markers and sources are deleted.
    pub fn deletes_blocks(&self) -> (b: bool)
        ensures
            b == self@.delete_blocks,
    {
        self.delete_blocks
    }

    /// Whether output is omitted.
    pub fn omits_output(&self) -> (b: bool)
        ensures
            b == self@.omit_output,
    {
        self.omit_output
    }

    /// Whether the result of a pass is to be written anywhere: a check-only
    /// pass is a dry run, whose result is compared and then dropped.
    pub fn keeps_result(&self) -> (b: bool)
        ensures
            b == !self@.check_only,
    {
        !self.check_only
    }

    /// Whether digests are written and verified.
    pub fn uses_checksum(&self) -> (b: bool)
        ensures
            b == self@.checksum,
    {
        self.checksum
    }
}

impl Corg {
    /// Judges a finished parse of `content`: a document without blocks fails
    /// where that is to be told, and in check-only mode a result that differs
    /// from `content` fails with both texts.
    pub fn conclude(&self, content: &str, parsed: OutputState) -> (result: Result<String, CorgError>)
        ensures
            outcome_of(result) == verdict(self@, content@, parsed@),
    {
        if self.warn_if_no_blocks && !parsed.found_blocks() {
            return Err(CorgError::NoBlocksDetected);
        }
        let output = parsed.get_output();
        if self.check_only && !same(&to_chars(content), &to_chars(output)) {
            return Err(CorgError::CheckFailed((content.to_owned(), output.to_owned())));
        }
        Ok(output.to_owned())
    }

    /// Processes `content`, calling `run` for every command that a block asks
    /// for, in document order, and stopping at the first failure.
    ///
    /// Whatever `run` returns, some sequence of its returns explains the
    /// result in the sense of [`explains`].
    pub fn execute<F: Fn(&Invocation) -> Result<ExecutionResult, std::io::Error>>(
        &self,
        content: &str,
        run: F,
    ) -> (result: Result<String, CorgError>)
        requires
            forall|invocation: &Invocation| call_requires(run, (invocation,)),
        ensures
            exists|trace: Seq<Result<ExecutionResult, std::io::Error>>|
                explains(self@, content@, run, trace, outcome_of(result)),
    {
        let mut outputs: Vec<String> = Vec::new();
        let ghost mut trace: Seq<Result<ExecutionResult, std::io::Error>> = Seq::empty();
        let ghost cfg = self@;
        let ghost document = content@;
        proof {
            assert(strings(outputs@) =~= outputs_of(trace));
        }
        loop
            invariant
                cfg == self@,
                document == content@,
                forall|invocation: &Invocation| call_requires(run, (invocation,)),
                trace.len() == outputs.len(),
                strings(outputs@) == outputs_of(trace),
                forall|k: int|
                    0 <= k < trace.len() ==> #[trigger] answers(cfg, document, run, trace, k),
                forall|k: int| 0 <= k < trace.len() ==> reply(#[trigger] trace[k]) is Ok,
                outputs.len() <= lines_of(document).len(),
            decreases lines_of(document).len() - outputs.len(),
        {
            match Parser::evaluate(content, self, &outputs) {
                Evaluation::Finished(Ok(parsed)) => {
                    let result = self.conclude(content, parsed);
                    proof {
                        if trace.len() > 0 {
                            assert(reply(trace[trace.len() - 1]) is Ok);
                        }
                        assert(explains(cfg, document, run, trace, outcome_of(result)));
                    }
                    return result;
                },
                Evaluation::Finished(Err(e)) => {
                    proof {
                        if trace.len() > 0 {
                            assert(reply(trace[trace.len() - 1]) is Ok);
                        }
                        assert(explains(cfg, document, run, trace, Err(e@)));
                    }
                    return Err(e);
                },
                Evaluation::Pending(invocation) => {
                    proof {
                        lemma_pending_walk(cfg, lines_of(document), strings(outputs@));
                    }
                    let attempt = run(&invocation);
                    let ghost longer = trace.push(attempt);
                    proof {
                        assert(longer.take(trace.len() as int) =~= trace);
                        assert forall|k: int| 0 <= k < longer.len() implies #[trigger] answers(
                            cfg,
                            document,
                            run,
                            longer,
                            k,
                        ) by {
                            if k < trace.len() {
                                assert(answers(cfg, document, run, trace, k));
                                assert(longer.take(k) =~= trace.take(k));
                                assert(longer[k] == trace[k]);
                                assert(reply(trace[k]) is Ok);
                            } else {
                                assert(call_ensures(run, (&invocation,), longer[k]));
                            }
                        }
                    }
                    let text = match attempt {
                        Err(e) => {
                            proof {
                                assert(explains(
                                    cfg,
                                    document,
                                    run,
                                    longer,
                                    Err(Failure::IOError(e)),
                                ));
                            }
                            return Err(CorgError::IOError(e));
                        },
                        Ok(outcome) => match outcome.into_output() {
                            Err(e) => {
                                proof {
                                    assert(explains(cfg, document, run, longer, Err(e@)));
                                }
                                return Err(e);
                            },
                            Ok(text) => text,
                        },
                    };
                    let ghost earlier = outputs@;
                    outputs.push(text);
                    proof {
                        assert forall|i: int| 0 <= i < longer.len() implies strings(outputs@)[i]
                            == outputs_of(longer)[i] by {
                            if i < trace.len() {
                                assert(strings(earlier)[i] == outputs_of(trace)[i]);
                            }
                        }
                        trace = longer;
                        assert(strings(outputs@) =~= outputs_of(trace));
                    }
                },
            }
        }
    }
}

/// `std::path::PathBuf`, carried through unopened.
#[verifier::external_type_specification]
#[verifier::external_body]
pub struct ExPathBuf(std::path::PathBuf);

/// `PathBuf::new`: a path; nothing is said of it.
pub assume_specification[ PathBuf::new ]() -> (path: PathBuf)
;

/// Where a document comes from and where the result goes.
pub struct CorgRunner {
    input: PathBuf,
    output: Option<PathBuf>,
    replace_input: bool,
}

impl Default for CorgRunner {
    fn default() -> (runner: CorgRunner)
        ensures
            runner.target() is None,
            !runner.replaces_input(),
    {
        CorgRunner { input: PathBuf::new(), output: None, replace_input: false }
    }
}

impl CorgRunner {
    /// The path that the document is read from.
    pub closed spec fn source(&self) -> PathBuf {
        self.input
    }

    /// The path that the result is to be written to, unless the input is to be
    /// replaced.
    pub closed spec fn target(&self) -> Option<PathBuf> {
        self.output
    }

    /// Whether the result is to be written over the input.
    pub closed spec fn replaces_input(&self) -> bool {
        self.replace_input
    }

    /// Sets the path that the document is read from.
    #[must_use]
    pub fn input(self, input: PathBuf) -> (runner: CorgRunner)
        ensures
            runner.source() == input,
            runner.target() == self.target(),
            runner.replaces_input() == self.replaces_input(),
    {
        CorgRunner { input, ..self }
    }

    /// Sets the path that the result is written to; `None` is the standard
    /// output.
    #[must_use]
    pub fn output(self, output: Option<PathBuf>) -> (runner: CorgRunner)
        ensures
            runner.source() == self.source(),
            runner.target() == output,
            runner.replaces_input() == self.replaces_input(),
    {
        CorgRunner { output, ..self }
    }

    /// Sets whether the result is written over the input.
    #[must_use]
    pub fn replace_input(self, replace_input: bool) -> (runner: CorgRunner)
        ensures
            runner.source() == self.source(),
            runner.target() == self.target(),
            runner.replaces_input() == replace_input,
    {
        CorgRunner { replace_input, ..self }
    }

    /// The path that the document is read from.
    pub fn origin(&self) -> (path: &PathBuf)
        ensures
            *path == self.source(),
    {
        &self.input
    }

    /// The path that the result is written to: the input where it is to be
    /// replaced, whatever output was set; else the output that was set; `None`
    /// for the standard output.
    pub fn destination(&self) -> (path: Option<&PathBuf>)
        ensures
            match path {
                Some(p) => Some(*p) == (if self.replaces_input() {
                    Some(self.source())
                } else {
                    self.target()
                }),
                None => !self.replaces_input() && self.target() is None,
            },
    {
        if self.replace_input {
            Some(&self.input)
        } else {
            self.output.as_ref()
        }
    }
}

} // verus!
