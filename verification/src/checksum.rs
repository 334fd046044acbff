//! The digest that guards embedded output against edits made behind the
//! processor's back.

use crate::chars::{to_chars, to_text};
use crate::error::{CorgError, Failure};
use vstd::prelude::*;
use vstd::utf8::encode_utf8;

verus! {

/// The MD5 digest of `data`, as `md5::compute` computes it.
pub uninterp spec fn md5_digest(data: Seq<u8>) -> Seq<u8>;

/// `md5::compute`: the sixteen bytes of the digest of `data`.
#[verifier::external_body]
fn md5_of(data: &[u8]) -> (digest: [u8; 16])
    ensures
        digest@ == md5_digest(data@),
{
    md5::compute(data).0
}

/// The lower-case hexadecimal digit for `n`, taken modulo sixteen.
pub open spec fn hex_digit(n: int) -> char {
    let d = n % 16;
    if d == 0 {
        '0'
    } else if d == 1 {
        '1'
    } else if d == 2 {
        '2'
    } else if d == 3 {
        '3'
    } else if d == 4 {
        '4'
    } else if d == 5 {
        '5'
    } else if d == 6 {
        '6'
    } else if d == 7 {
        '7'
    } else if d == 8 {
        '8'
    } else if d == 9 {
        '9'
    } else if d == 10 {
        'a'
    } else if d == 11 {
        'b'
    } else if d == 12 {
        'c'
    } else if d == 13 {
        'd'
    } else if d == 14 {
        'e'
    } else {
        'f'
    }
}

/// Sixteen bytes written as thirty-two lower-case hexadecimal digits, the high
/// half of each byte first.
pub open spec fn hex(bytes: Seq<u8>) -> Seq<char> {
    Seq::new(
        32,
        |i: int|
            if i % 2 == 0 {
                hex_digit(bytes[i / 2] as int / 16)
            } else {
                hex_digit(bytes[i / 2] as int)
            },
    )
}

/// The digest of a text: its UTF-8 bytes hashed, the hash in hexadecimal.
pub open spec fn digest_of(text: Seq<char>) -> Seq<char> {
    hex(md5_digest(encode_utf8(text)))
}

/// The words in which a digest is written behind an end-of-output marker.
pub open spec fn checksum_lead() -> Seq<char> {
    "(checksum: "@
}

/// The annotation that carries `digest`: a space, the lead, the digest, a
/// closing bracket and a space.
pub open spec fn annotation(digest: Seq<char>) -> Seq<char> {
    seq![' '] + checksum_lead() + digest + seq![')', ' ']
}

/// What is written behind the end-of-output marker for the fresh output
/// `fresh`, given the digest found there before.
///
/// With checksums off it is nothing, whatever was found. With checksums on it
/// is the annotation of the fresh digest, unless a digest was found that
/// differs from it: that is a failure, which reports the found digest and the
/// fresh one.
pub open spec fn stamp(enabled: bool, fresh: Seq<char>, previous: Option<Seq<char>>) -> Result<
    Seq<char>,
    Failure,
> {
    if !enabled {
        Ok(Seq::empty())
    } else {
        match previous {
            Some(old) if old != digest_of(fresh) => Err(
                Failure::ChecksumMismatch(old, digest_of(fresh)),
            ),
            _ => Ok(annotation(digest_of(fresh))),
        }
    }
}

fn digit(n: u8) -> (c: char)
    requires
        n < 16,
    ensures
        c == hex_digit(n as int),
{
    if n == 0 {
        '0'
    } else if n == 1 {
        '1'
    } else if n == 2 {
        '2'
    } else if n == 3 {
        '3'
    } else if n == 4 {
        '4'
    } else if n == 5 {
        '5'
    } else if n == 6 {
        '6'
    } else if n == 7 {
        '7'
    } else if n == 8 {
        '8'
    } else if n == 9 {
        '9'
    } else if n == 10 {
        'a'
    } else if n == 11 {
        'b'
    } else if n == 12 {
        'c'
    } else if n == 13 {
        'd'
    } else if n == 14 {
        'e'
    } else {
        'f'
    }
}

/// The hexadecimal writing of sixteen bytes.
pub fn to_hex(bytes: &[u8; 16]) -> (out: Vec<char>)
    ensures
        out@ == hex(bytes@),
{
    let mut out: Vec<char> = Vec::new();
    let mut i: usize = 0;
    while i < 16
        invariant
            i <= 16,
            out@.len() == 2 * i,
            forall|k: int| 0 <= k < 2 * i ==> out@[k] == hex(bytes@)[k],
        decreases 16 - i,
    {
        let b: u8 = bytes[i];
        out.push(digit(b / 16));
        out.push(digit(b % 16));
        i += 1;
    }
    assert(out@ =~= hex(bytes@));
    out
}

/// The digest of `text`.
pub fn digest(text: &str) -> (out: Vec<char>)
    ensures
        out@ == digest_of(text@),
{
    let sum = md5_of(text.as_bytes());
    to_hex(&sum)
}

/// Computes the digest of the fresh `output` and, with checksums `enabled`,
/// holds the digest found in the document against it.
pub fn stamp_or_verify(enabled: bool, output: &str, previous: Option<&Vec<char>>) -> (result:
    Result<Vec<char>, CorgError>)
    ensures
        match result {
            Ok(text) => stamp(
                enabled,
                output@,
                match previous {
                    Some(old) => Some(old@),
                    None => None,
                },
            ) == Ok::<Seq<char>, Failure>(text@),
            Err(e) => stamp(
                enabled,
                output@,
                match previous {
                    Some(old) => Some(old@),
                    None => None,
                },
            ) == Err::<Seq<char>, Failure>(e@),
        },
{
    if !enabled {
        return Ok(Vec::new());
    }
    let fresh = digest(output);
    if let Some(old) = previous {
        if !same(old, &fresh) {
            return Err(CorgError::ChecksumMismatch((to_text(old), to_text(&fresh))));
        }
    }
    let mut text: Vec<char> = Vec::new();
    text.push(' ');
    let mut lead = to_chars("(checksum: ");
    text.append(&mut lead);
    let mut hexed = fresh;
    text.append(&mut hexed);
    text.push(')');
    text.push(' ');
    assert(text@ =~= annotation(digest_of(output@)));
    Ok(text)
}

/// Whether two character vectors hold the same text.
pub fn same(a: &Vec<char>, b: &Vec<char>) -> (eq: bool)
    ensures
        eq == (a@ == b@),
{
    if a.len() != b.len() {
        return false;
    }
    let mut i: usize = 0;
    while i < a.len()
        invariant
            i <= a.len(),
            a.len() == b.len(),
            forall|k: int| 0 <= k < i ==> a@[k] == b@[k],
        decreases a.len() - i,
    {
        if a[i] != b[i] {
            return false;
        }
        i += 1;
    }
    assert(a@ =~= b@);
    true
}

} // verus!
