//! The options of the command line, as plain data.

use crate::chars::{find_char, slice, to_chars, to_text};
use crate::text::first_of;
use crate::{Corg, CorgRunner};
use std::path::PathBuf;
use vstd::prelude::*;
use vstd::string::StringExecFns;

verus! {

/// The options that say where the document is and how it is processed.
#[derive(Debug)]
pub struct Options {
    /// The input file.
    pub input: PathBuf,
    /// Write the output to a file instead of the standard output.
    pub output: Option<PathBuf>,
    /// Write the output to the input file; this overrides `output`.
    pub replace: bool,
    /// Delete the generator code from the output.
    pub delete_block: bool,
    /// Fail where the document holds no block.
    pub warn_if_no_blocks: bool,
    /// Omit the generated output and run no generator.
    pub omit_output: bool,
    /// Check that the document would not change if processed again.
    pub check: bool,
}

/// The options of the command-line program.
#[derive(Debug)]
pub struct Cli {
    /// The input file.
    pub input: PathBuf,
    /// Write the output to a file instead of the standard output.
    pub output: Option<PathBuf>,
    /// Write the output to the input file; this overrides `output`.
    pub replace: bool,
    /// Delete the generator code from the output.
    pub delete_blocks: bool,
    /// Fail where the document holds no block.
    pub warn_if_no_blocks: bool,
    /// Omit the generated output and run no generator.
    pub omit_output: bool,
    /// Check that the document would not change if processed again.
    pub check: bool,
    /// Write and verify a digest of each block's output.
    pub checksum: bool,
    /// The start-of-block, end-of-block and end-of-output markers.
    pub markers: Option<(String, String, String)>,
}

/// The three markers that `text` names: the text before its first space, the
/// text between its first and second space, and all that follows the second.
/// `None` where it has fewer than two spaces.
pub open spec fn marker_triple(text: Seq<char>) -> Option<(Seq<char>, Seq<char>, Seq<char>)> {
    let a = first_of(text, ' ');
    if a < 0 || a >= text.len() {
        None
    } else {
        let rest = text.skip(a + 1);
        let b = first_of(rest, ' ');
        if b < 0 || b >= rest.len() {
            None
        } else {
            Some((text.take(a), rest.take(b), rest.skip(b + 1)))
        }
    }
}

/// The words that open the complaint about a marker triple.
pub open spec fn invalid_marker() -> Seq<char> {
    "Invalid marker: "@
}

/// Reads a marker triple: three texts separated by single spaces, of which the
/// last may hold spaces of its own. A text with fewer than two spaces is
/// refused with a message that quotes it.
pub fn parse_markers(s: &str) -> (result: Result<(String, String, String), String>)
    ensures
        match result {
            Ok(triple) => marker_triple(s@) == Some((triple.0@, triple.1@, triple.2@)),
            Err(message) => marker_triple(s@) is None && message@ == invalid_marker() + s@,
        },
{
    let text = to_chars(s);
    let a = find_char(&text, ' ');
    if a < text.len() {
        let rest = slice(&text, a + 1, text.len());
        let b = find_char(&rest, ' ');
        if b < rest.len() {
            let start_block = to_text(&slice(&text, 0, a));
            let end_block = to_text(&slice(&rest, 0, b));
            let end_output = to_text(&slice(&rest, b + 1, rest.len()));
            return Ok((start_block, end_block, end_output));
        }
    }
    let mut message = "Invalid marker: ".to_owned();
    message.append(s);
    Err(message)
}

impl Cli {
    /// The processor and the runner that these options ask for.
    pub fn configure(self) -> (parts: (Corg, CorgRunner))
        ensures
            parts.0@.delete_blocks == self.delete_blocks,
            parts.0@.warn_if_no_blocks == self.warn_if_no_blocks,
            parts.0@.omit_output == self.omit_output,
            parts.0@.check_only == self.check,
            parts.0@.checksum == self.checksum,
            match self.markers {
                Some(triple) => {
                    &&& parts.0@.markers.start == triple.0@
                    &&& parts.0@.markers.end_block == triple.1@
                    &&& parts.0@.markers.end_output == triple.2@
                },
                None => parts.0@.markers == crate::default_markers(),
            },
            parts.1.source() == self.input,
            parts.1.target() == self.output,
            parts.1.replaces_input() == self.replace,
    {
        let mut options = Corg::default().delete_blocks(self.delete_blocks).warn_if_no_blocks(
            self.warn_if_no_blocks,
        ).omit_output(self.omit_output).check_only(self.check).checksum(self.checksum);
        if let Some(markers) = self.markers {
            options = options.override_markers(markers.0, markers.1, markers.2);
        }
        let runner = CorgRunner::default().input(self.input).replace_input(self.replace).output(
            self.output,
        );
        (options, runner)
    }
}

} // verus!
