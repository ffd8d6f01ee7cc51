//! From raw input to a document.

use crate::complete::smaller;
use crate::engine::{parsed, refused_with, Document, PADDING};
use crate::session_laws::law_trimmed;
use crate::text::{byte_len, lossy, lossy_text, trim, trimmed, white_space};
use vstd::prelude::*;
use vstd::utf8::*;

verus! {

/// How many bytes of the input the debug overlay shows.
pub const PREVIEW: usize = 60;

/// How many bytes of an input that is no JSON its error shows.
pub const EXCERPT: usize = 40;

/// Why there is no document.
#[derive(Debug)]
pub enum LoadError {
    /// There was no input at all.
    Empty,
    /// The input is longer than the parser can take.
    TooLong,
    /// The input is not JSON: its length and its first bytes, without the white space around it,
    /// and the parser's message.
    Malformed { bytes: usize, first: Vec<u8>, cause: String },
}

/// A document that was read, and the beginning of its text.
pub struct Loaded {
    pub document: Document,
    pub preview: String,
}

/// The bytes of the input that are parsed: its text without the white space around it.
pub open spec fn cleaned(raw: Seq<u8>) -> Seq<u8> {
    encode_utf8(trimmed(lossy_text(raw)))
}

/// The first bytes of `bytes`, `n` at most.
pub open spec fn beginning(bytes: Seq<u8>, n: int) -> Seq<u8> {
    bytes.take(smaller(n, bytes.len() as int))
}

/// A copy of the first bytes, `n` at most.
fn excerpt(bytes: &[u8], n: usize) -> (r: Vec<u8>)
    ensures
        r@ == beginning(bytes@, n as int),
{
    let mut r: Vec<u8> = Vec::new();
    while r.len() < n && r.len() < bytes.len()
        invariant
            r@.len() <= n,
            r@.len() <= bytes@.len(),
            r@ =~= bytes@.take(r@.len() as int),
        decreases n - r@.len(),
    {
        let b = bytes[r.len()];
        r.push(b);
    }
    r
}

/// What comes of parsing a text: the document and the beginning of the text, or why there is no
/// document.
pub fn finish(text: &str, result: Result<Document, String>) -> (r: Result<Loaded, LoadError>)
    ensures
        match result {
            Ok(d) => r matches Ok(l) && l.document == d && l.preview@ == lossy_text(
                beginning(encode_utf8(text@), PREVIEW as int),
            ),
            Err(m) => r matches Err(LoadError::Malformed { bytes, first, cause }) && bytes
                == encode_utf8(text@).len() && first@ == beginning(
                encode_utf8(text@),
                EXCERPT as int,
            ) && cause@ == m@,
        },
{
    let clean = text.as_bytes();
    match result {
        Ok(document) => {
            let preview = lossy(excerpt(clean, PREVIEW).as_slice());
            Ok(Loaded { document, preview })
        },
        Err(cause) => Err(
            LoadError::Malformed { bytes: clean.len(), first: excerpt(clean, EXCERPT), cause },
        ),
    }
}

/// Reads the document that the input holds, where the parser accepts it.
pub fn load(raw: &[u8]) -> (r: Result<Loaded, LoadError>)
    ensures
        raw@.len() > 0 && valid_utf8(raw@) ==> cleaned(raw@) == encode_utf8(
            trimmed(decode_utf8(raw@)),
        ),
        match r {
            Ok(l) => {
                &&& raw@.len() > 0
                &&& cleaned(raw@).len() + PADDING <= isize::MAX
                &&& parsed(cleaned(raw@)) == l.document@
                &&& l.preview@ == lossy_text(beginning(cleaned(raw@), PREVIEW as int))
            },
            Err(LoadError::Empty) => raw@.len() == 0,
            Err(LoadError::TooLong) => raw@.len() > 0 && cleaned(raw@).len() + PADDING > isize::MAX,
            Err(LoadError::Malformed { bytes, first, cause }) => {
                &&& raw@.len() > 0
                &&& cleaned(raw@).len() + PADDING <= isize::MAX
                &&& refused_with(cleaned(raw@), cause@)
                &&& bytes == cleaned(raw@).len()
                &&& first@ == beginning(cleaned(raw@), EXCERPT as int)
            },
        },
{
    if raw.len() == 0 {
        return Err(LoadError::Empty);
    }
    let text = trim(lossy(raw).as_str());
    if byte_len(text.as_str()) > isize::MAX as usize - PADDING {
        return Err(LoadError::TooLong);
    }
    let result = Document::parse(text.as_str());
    finish(text.as_str(), result)
}

/// The text of the input is parsed without the white space around it.
pub proof fn law_cleaned(raw: Seq<u8>, l: Seq<char>, t: Seq<char>, r: Seq<char>)
    requires
        lossy_text(raw) == l + t + r,
        forall|i: int| 0 <= i < l.len() ==> white_space(#[trigger] l[i]),
        forall|i: int| 0 <= i < r.len() ==> white_space(#[trigger] r[i]),
        t.len() > 0 ==> !white_space(t[0]) && !white_space(t.last()),
    ensures
        cleaned(raw) == encode_utf8(t),
{
    law_trimmed(l, t, r);
}

/// The debug overlay shows sixty bytes at most, and an error forty: the first ones.
pub proof fn law_beginnings(bytes: Seq<u8>)
    ensures
        bytes.len() <= 60 ==> beginning(bytes, PREVIEW as int) == bytes,
        bytes.len() > 60 ==> beginning(bytes, PREVIEW as int).len() == 60,
        bytes.len() <= 40 ==> beginning(bytes, EXCERPT as int) == bytes,
        bytes.len() > 40 ==> beginning(bytes, EXCERPT as int).len() == 40,
        beginning(bytes, PREVIEW as int).is_prefix_of(bytes),
        beginning(bytes, EXCERPT as int).is_prefix_of(bytes),
{
    assert(bytes.take(bytes.len() as int) =~= bytes);
}

} // verus!
