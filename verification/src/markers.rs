//! The three markers and the classification of a line against them.
//!
//! A marker is literal text: a line is a start-of-block, end-of-block or
//! end-of-output line when it contains the marker as a substring. Where a
//! marker occurs more than once in a line, its last occurrence counts.

use crate::chars::{count_digest_chars, find_last, has, matches_at, skip_spaces, slice, to_chars, trimmed};
use crate::checksum::checksum_lead;
use crate::text::{
    contains, digest_run, last_occurrence, leading_space, lemma_last_occurrence,
    lemma_leading_space, occurs_at, starts_with, trim, trim_start,
};
use vstd::prelude::*;

verus! {

/// The three markers as character sequences.
pub struct Markers {
    pub start: Seq<char>,
    pub end_block: Seq<char>,
    pub end_output: Seq<char>,
}

/// The three markers, ready to be searched for.
pub struct MarkerSet {
    start: Vec<char>,
    end_block: Vec<char>,
    end_output: Vec<char>,
}

/// The parts of an end-of-output line.
pub struct EndOfOutput {
    /// The text before the marker.
    pub prefix: Vec<char>,
    /// The marker.
    pub marker: Vec<char>,
    /// The white space that stands directly behind the marker.
    pub gap: Vec<char>,
    /// The digest written behind the gap, if there is one.
    pub checksum: Option<Vec<char>>,
    /// The rest of the line: what follows the gap or, where a digest is
    /// written, what follows the digest annotation and the white space behind
    /// it.
    pub suffix: Vec<char>,
}

/// The parts of an end-of-output line, as character sequences.
pub struct Closing {
    pub prefix: Seq<char>,
    pub marker: Seq<char>,
    pub gap: Seq<char>,
    pub checksum: Option<Seq<char>>,
    pub suffix: Seq<char>,
}

impl View for EndOfOutput {
    type V = Closing;

    open spec fn view(&self) -> Closing {
        Closing {
            prefix: self.prefix@,
            marker: self.marker@,
            gap: self.gap@,
            checksum: match self.checksum {
                Some(digest) => Some(digest@),
                None => None,
            },
            suffix: self.suffix@,
        }
    }
}

impl View for MarkerSet {
    type V = Markers;

    closed spec fn view(&self) -> Markers {
        Markers { start: self.start@, end_block: self.end_block@, end_output: self.end_output@ }
    }
}

/// Whether the markers are such as a document is meant to be written with:
/// none of them is empty. An empty marker is found in every line; the
/// processor accepts it all the same.
pub open spec fn well_formed(markers: Markers) -> bool {
    markers.start.len() > 0 && markers.end_block.len() > 0 && markers.end_output.len() > 0
}

/// The command specification of a start-of-block line: what follows the last
/// occurrence of `marker`, trimmed. `None` if `line` does not contain `marker`.
pub open spec fn command_spec(line: Seq<char>, marker: Seq<char>) -> Option<Seq<char>> {
    let at = last_occurrence(line, marker);
    if at < 0 {
        None
    } else {
        Some(trim(line.skip(at + marker.len())))
    }
}

/// A digest annotation at the head of `text`: the lead, one or more digest
/// characters, as many as there are in a row, and a closing bracket. The result
/// is the digest and what follows the bracket.
pub open spec fn annotation_at(text: Seq<char>) -> Option<(Seq<char>, Seq<char>)> {
    let lead = checksum_lead();
    if starts_with(text, lead) {
        let body = text.skip(lead.len() as int);
        let n = digest_run(body);
        if 1 <= n && n < body.len() && body[n] == ')' {
            Some((body.take(n), body.skip(n + 1)))
        } else {
            None
        }
    } else {
        None
    }
}

/// The parts of an end-of-output line: the text before the last occurrence of
/// `marker`; the marker; the gap of white space behind it; a digest annotation
/// if one stands there; and the rest, which begins behind the gap or, where
/// there is an annotation, behind the annotation and the white space that
/// follows it. `None` if `line` does not contain `marker`.
///
/// Where no annotation stands in the line, prefix, marker, gap and suffix make
/// up the line as it is.
pub open spec fn closing(line: Seq<char>, marker: Seq<char>) -> Option<Closing> {
    let at = last_occurrence(line, marker);
    if at < 0 {
        None
    } else {
        let behind = line.skip(at + marker.len());
        let rest = trim_start(behind);
        match annotation_at(rest) {
            Some((digest, tail)) => Some(
                Closing {
                    prefix: line.take(at),
                    marker: marker,
                    gap: leading_space(behind),
                    checksum: Some(digest),
                    suffix: trim_start(tail),
                },
            ),
            None => Some(
                Closing {
                    prefix: line.take(at),
                    marker: marker,
                    gap: leading_space(behind),
                    checksum: None,
                    suffix: rest,
                },
            ),
        }
    }
}

/// The line as it is, put together from its parts where no digest annotation
/// stands in it.
pub open spec fn as_it_stands(parts: Closing) -> Seq<char> {
    parts.prefix + parts.marker + parts.gap + parts.suffix
}

/// An end-of-output line without a digest annotation is made up of its parts.
pub proof fn lemma_parts_make_the_line(line: Seq<char>, marker: Seq<char>)
    requires
        contains(line, marker),
    ensures
        closing(line, marker) matches Some(parts) && parts.marker == marker && parts.prefix
            + parts.marker + parts.gap + trim_start(
            line.skip(last_occurrence(line, marker) + marker.len()),
        ) == line,
        closing(line, marker)->0.checksum is None ==> as_it_stands(closing(line, marker)->0)
            == line,
{
    lemma_last_occurrence(line, marker);
    let at = last_occurrence(line, marker);
    let behind = line.skip(at + marker.len());
    lemma_leading_space(behind);
    assert(line.take(at) + marker + behind =~= line) by {
        assert(line.subrange(at, at + marker.len()) == marker);
        assert(line.take(at) + line.subrange(at, at + marker.len()) + behind =~= line);
    }
    assert(line.take(at) + marker + leading_space(behind) + trim_start(behind) =~= line.take(at)
        + marker + (leading_space(behind) + trim_start(behind)));
}

impl MarkerSet {
    /// The marker set of the three given texts.
    pub fn new(start: &str, end_block: &str, end_output: &str) -> (set: MarkerSet)
        ensures
            set@ == (Markers { start: start@, end_block: end_block@, end_output: end_output@ }),
    {
        MarkerSet {
            start: to_chars(start),
            end_block: to_chars(end_block),
            end_output: to_chars(end_output),
        }
    }

    /// Whether none of the three markers is empty.
    pub fn is_well_formed(&self) -> (b: bool)
        ensures
            b == well_formed(self@),
    {
        self.start.len() > 0 && self.end_block.len() > 0 && self.end_output.len() > 0
    }

    /// The command specification of `line`, if it is a start-of-block line.
    pub fn start_of_block(&self, line: &Vec<char>) -> (command: Option<Vec<char>>)
        ensures
            match command {
                Some(text) => command_spec(line@, self@.start) == Some(text@),
                None => command_spec(line@, self@.start) is None,
            },
            command is Some <==> contains(line@, self@.start),
    {
        proof {
            lemma_last_occurrence(line@, self.start@);
        }
        match find_last(line, &self.start) {
            None => None,
            Some(at) => {
                let end = line.len();
                assert(occurs_at(line@, self.start@, at as int));
                let rest = slice(line, at + self.start.len(), end);
                Some(trimmed(&rest))
            },
        }
    }

    /// Whether `line` is a start-of-block line.
    pub fn is_start_of_block(&self, line: &Vec<char>) -> (b: bool)
        ensures
            b == contains(line@, self@.start),
    {
        has(line, &self.start)
    }

    /// Whether `line` is an end-of-block line.
    pub fn is_end_of_block(&self, line: &Vec<char>) -> (b: bool)
        ensures
            b == contains(line@, self@.end_block),
    {
        has(line, &self.end_block)
    }

    /// The parts of `line`, if it is an end-of-output line.
    pub fn end_of_output(&self, line: &Vec<char>) -> (parts: Option<EndOfOutput>)
        ensures
            match parts {
                Some(found) => closing(line@, self@.end_output) == Some(found@),
                None => closing(line@, self@.end_output) is None,
            },
            parts is Some <==> contains(line@, self@.end_output),
    {
        proof {
            lemma_last_occurrence(line@, self.end_output@);
        }
        let at = match find_last(line, &self.end_output) {
            None => {
                return None;
            },
            Some(at) => at,
        };
        let end = line.len();
        assert(occurs_at(line@, self.end_output@, at as int));
        let behind = at + self.end_output.len();
        let from = skip_spaces(line, behind);
        let gap = slice(line, behind, from);
        let rest = slice(line, from, line.len());
        proof {
            let tail = line@.skip(behind as int);
            lemma_leading_space(tail);
            assert(trim_start(tail).len() == line@.len() - from);
            assert(gap@ =~= leading_space(tail));
        }
        let lead = to_chars("(checksum: ");
        let prefix = slice(line, 0, at);
        let marker = slice(&self.end_output, 0, self.end_output.len());
        assert(marker@ =~= self.end_output@);
        assert(rest@ =~= trim_start(line@.skip(behind as int)));
        if matches_at(&rest, &lead, 0) {
            let n = count_digest_chars(&rest, lead.len());
            let stop = lead.len() + n;
            let ghost body = rest@.skip(lead.len() as int);
            if n >= 1 && stop < rest.len() && rest[stop] == ')' {
                let digest = slice(&rest, lead.len(), stop);
                let after = skip_spaces(&rest, stop + 1);
                let suffix = slice(&rest, after, rest.len());
                proof {
                    assert(body[n as int] == rest@[stop as int]);
                    assert(digest@ =~= body.take(n as int));
                    assert(body.skip(n + 1) =~= rest@.skip(stop + 1));
                    assert(suffix@ =~= trim_start(body.skip(n + 1)));
                }
                return Some(EndOfOutput { prefix, marker, gap, checksum: Some(digest), suffix });
            }
            proof {
                if stop < rest.len() {
                    assert(body[n as int] == rest@[stop as int]);
                }
            }
        }
        Some(EndOfOutput { prefix, marker, gap, checksum: None, suffix: rest })
    }
}

} // verus!
