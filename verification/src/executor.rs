//! What the processor asks of the world: that a command be run on a block's
//! source. This module says which command that is and what its outcome means
//! for the document; running it is the caller's part.

use crate::chars::{split_chars, to_chars, to_text};
use crate::error::{CorgError, Failure};
use crate::text::{split_on, strings, texts};
use vstd::prelude::*;
use vstd::utf8::encode_utf8;

verus! {

/// The words of `text` under the quoting rules of a POSIX shell, as
/// `shlex::split` finds them; `None` where the text ends inside a quotation or
/// behind a backslash.
pub uninterp spec fn shlex_split(text: Seq<char>) -> Option<Seq<Seq<char>>>;

/// What a permissive decoding of `bytes` as UTF-8 yields, each invalid sequence
/// replaced, as `String::from_utf8_lossy` does it. The encoding of a text is
/// decoded to that text.
pub uninterp spec fn utf8_lossy(bytes: Seq<u8>) -> Seq<char>;

/// The views of the words that a tokenizer returned.
pub open spec fn words_of(words: Option<Vec<String>>) -> Option<Seq<Seq<char>>> {
    match words {
        Some(list) => Some(strings(list@)),
        None => None,
    }
}

/// `shlex::split`: the shell words of `text`.
#[verifier::external_body]
fn shell_words(text: &str) -> (words: Option<Vec<String>>)
    ensures
        words_of(words) == shlex_split(text@),
{
    shlex::split(text)
}

/// `String::from_utf8_lossy`: `bytes` decoded permissively. Bytes that are the
/// UTF-8 encoding of a text decode to that text.
#[verifier::external_body]
fn decode_lossy(bytes: &Vec<u8>) -> (text: String)
    ensures
        text@ == utf8_lossy(bytes@),
        forall|chars: Seq<char>| #[trigger] encode_utf8(chars) == bytes@ ==> text@ == chars,
{
    String::from_utf8_lossy(bytes).into_owned()
}

/// A command to run: the program, its arguments, and the text to feed to its
/// standard input.
#[derive(Debug)]
pub struct Invocation {
    pub program: String,
    pub args: Vec<String>,
    pub input: String,
}

/// An [`Invocation`] as character sequences.
pub struct Command {
    pub program: Seq<char>,
    pub args: Seq<Seq<char>>,
    pub input: Seq<char>,
}

impl View for Invocation {
    type V = Command;

    open spec fn view(&self) -> Command {
        Command { program: self.program@, args: strings(self.args@), input: self.input@ }
    }
}

/// What came of running a command: whether it ended successfully, and the
/// bytes it wrote to its output and error streams.
#[derive(Debug)]
pub struct ExecutionResult {
    pub success: bool,
    pub stdout: Vec<u8>,
    pub stderr: Vec<u8>,
}

/// The words of a command specification, given what the shell tokenizer made
/// of it: its words where it found at least one, else the pieces of the
/// specification between single spaces.
pub open spec fn command_words(shebang: Seq<char>, tokens: Option<Seq<Seq<char>>>) -> Seq<
    Seq<char>,
> {
    match tokens {
        Some(words) if words.len() > 0 => words,
        _ => split_on(shebang, ' '),
    }
}

/// The command for a block: the first word of its specification is the program,
/// the others are the arguments, and the block's source is the input.
pub open spec fn command_of(shebang: Seq<char>, code: Seq<char>) -> Command {
    let words = command_words(shebang, shlex_split(shebang));
    Command { program: words[0], args: words.skip(1), input: code }
}

/// What a finished command contributes: its decoded output where it succeeded,
/// else a failure that carries its decoded error stream.
pub open spec fn contribution(result: ExecutionResult) -> Result<Seq<char>, Failure> {
    if result.success {
        Ok(utf8_lossy(result.stdout@))
    } else {
        Err(Failure::BlockExecutionError(utf8_lossy(result.stderr@)))
    }
}

/// The pieces between single spaces always number at least one.
pub proof fn lemma_split_on_nonempty(text: Seq<char>, separator: char)
    ensures
        split_on(text, separator).len() >= 1,
    decreases text.len(),
{
    if text.len() > 0 {
        lemma_split_on_nonempty(text.drop_last(), separator);
    }
}

impl Invocation {
    /// The command for the block with command specification `shebang` and
    /// source `code`.
    pub fn new(shebang: &str, code: String) -> (invocation: Invocation)
        ensures
            invocation@ == command_of(shebang@, code@),
    {
        let tokens = shell_words(shebang);
        Invocation::from_words(shebang, tokens, code)
    }

    /// The command for a block, given the words that the shell tokenizer found
    /// in its command specification.
    pub fn from_words(shebang: &str, tokens: Option<Vec<String>>, code: String) -> (invocation:
        Invocation)
        ensures
            invocation.program@ == command_words(shebang@, words_of(tokens))[0],
            strings(invocation.args@) == command_words(shebang@, words_of(tokens)).skip(1),
            invocation.input@ == code@,
    {
        let mut words: Vec<String> = match tokens {
            Some(list) => list,
            None => Vec::new(),
        };
        if words.len() == 0 {
            let pieces = split_chars(&to_chars(shebang), ' ');
            let mut i: usize = 0;
            while i < pieces.len()
                invariant
                    i <= pieces.len(),
                    words@.len() == i,
                    forall|k: int| 0 <= k < i ==> words@[k]@ == pieces@[k]@,
                decreases pieces.len() - i,
            {
                words.push(to_text(&pieces[i]));
                i += 1;
            }
            proof {
                lemma_split_on_nonempty(shebang@, ' ');
                assert(strings(words@) =~= texts(pieces@));
            }
        }
        let ghost all = strings(words@);
        assert(all == command_words(shebang@, words_of(tokens)));
        let args = words.split_off(1);
        let program = words.remove(0);
        proof {
            assert(program@ == all[0]);
            assert(strings(args@) =~= all.skip(1));
        }
        Invocation { program, args, input: code }
    }
}

impl ExecutionResult {
    /// The text that this outcome contributes to the document, or the failure
    /// that it means for the pass.
    pub fn into_output(self) -> (output: Result<String, CorgError>)
        ensures
            match output {
                Ok(text) => contribution(self) == Ok::<Seq<char>, Failure>(text@),
                Err(e) => contribution(self) == Err::<Seq<char>, Failure>(e@),
            },
            forall|chars: Seq<char>|
                (self.success && #[trigger] encode_utf8(chars) == self.stdout@) ==> (
                output matches Ok(text) && text@ == chars),
            forall|chars: Seq<char>|
                (!self.success && #[trigger] encode_utf8(chars) == self.stderr@) ==> (
                output matches Err(CorgError::BlockExecutionError(text)) && text@ == chars),
    {
        if self.success {
            Ok(decode_lossy(&self.stdout))
        } else {
            Err(CorgError::BlockExecutionError(decode_lossy(&self.stderr)))
        }
    }
}

} // verus!
