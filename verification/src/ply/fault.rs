//! Why a PLY header is refused.

use vstd::prelude::*;
#[allow(unused_imports)]
use vstd::string::*;
use crate::numbers::NumberError;

verus! {

/// Why a header is refused.
#[derive(Debug, Clone)]
pub enum PlyHeaderError {
    /// A line is not valid UTF-8.
    InvalidUtf8,
    /// The first line is not the magic word.
    MissingMagic,
    /// The data ends before the header does.
    UnexpectedEnd,
    /// A `format` line without a format.
    MalformedFormat,
    /// A `format` line with an unknown format, given in small letters.
    UnsupportedFormat(String),
    /// An `element` line without a name and a count.
    MalformedElement,
    /// The number of vertices is not a number in range.
    InvalidVertexCount(NumberError),
    /// A `property` line without a type and a name.
    MalformedProperty,
    /// A list property of the vertex element.
    ListProperty,
    /// A property of an unknown type, given as it is written.
    UnknownPropertyType(String),
    /// No `format` line.
    MissingFormat,
    /// No property for one of the coordinates.
    MissingCoordinates,
}

/// The mathematical value of a [`PlyHeaderError`].
pub enum HeaderFault {
    InvalidUtf8,
    MissingMagic,
    UnexpectedEnd,
    MalformedFormat,
    UnsupportedFormat(Seq<char>),
    MalformedElement,
    InvalidVertexCount(NumberError),
    MalformedProperty,
    ListProperty,
    UnknownPropertyType(Seq<char>),
    MissingFormat,
    MissingCoordinates,
}

impl View for PlyHeaderError {
    type V = HeaderFault;

    open spec fn view(&self) -> HeaderFault {
        match self {
            PlyHeaderError::InvalidUtf8 => HeaderFault::InvalidUtf8,
            PlyHeaderError::MissingMagic => HeaderFault::MissingMagic,
            PlyHeaderError::UnexpectedEnd => HeaderFault::UnexpectedEnd,
            PlyHeaderError::MalformedFormat => HeaderFault::MalformedFormat,
            PlyHeaderError::UnsupportedFormat(s) => HeaderFault::UnsupportedFormat(s@),
            PlyHeaderError::MalformedElement => HeaderFault::MalformedElement,
            PlyHeaderError::InvalidVertexCount(e) => HeaderFault::InvalidVertexCount(*e),
            PlyHeaderError::MalformedProperty => HeaderFault::MalformedProperty,
            PlyHeaderError::ListProperty => HeaderFault::ListProperty,
            PlyHeaderError::UnknownPropertyType(s) => HeaderFault::UnknownPropertyType(s@),
            PlyHeaderError::MissingFormat => HeaderFault::MissingFormat,
            PlyHeaderError::MissingCoordinates => HeaderFault::MissingCoordinates,
        }
    }
}

impl HeaderFault {
    /// The message that describes the fault.
    pub open spec fn message(self) -> Seq<char> {
        match self {
            HeaderFault::InvalidUtf8 => "stream did not contain valid UTF-8"@,
            HeaderFault::MissingMagic => "Not a valid PLY file (missing 'ply' magic header)"@,
            HeaderFault::UnexpectedEnd => "Unexpected EOF while reading PLY header"@,
            HeaderFault::MalformedFormat => "Malformed 'format' line in PLY header"@,
            HeaderFault::UnsupportedFormat(s) => "Unsupported PLY format '"@ + s + "'"@,
            HeaderFault::MalformedElement => "Malformed 'element' line in PLY header"@,
            HeaderFault::InvalidVertexCount(e) => match e {
                NumberError::Empty => "cannot parse integer from empty string"@,
                NumberError::InvalidDigit => "invalid digit found in string"@,
                NumberError::Overflow => "number too large to fit in target type"@,
            },
            HeaderFault::MalformedProperty => "Malformed 'property' line in PLY header"@,
            HeaderFault::ListProperty => "List properties in vertex element are not supported"@,
            HeaderFault::UnknownPropertyType(s) => "Unknown PLY property type '"@ + s + "'"@,
            HeaderFault::MissingFormat => "Missing 'format' specification in PLY header"@,
            HeaderFault::MissingCoordinates =>
                "PLY file vertex element missing required 'x', 'y', or 'z' properties"@,
        }
    }
}

/// `before`, `text` and an apostrophe.
fn quoted(before: &str, text: &String) -> (res: String)
    ensures
        res@ == before@ + text@ + "'"@,
{
    let mut out = before.to_owned();
    out.append(text.as_str());
    out.append("'");
    out
}

impl PlyHeaderError {
    /// Describes the error.
    pub fn message(&self) -> (res: String)
        ensures
            res@ == self@.message(),
    {
        match self {
            PlyHeaderError::InvalidUtf8 => "stream did not contain valid UTF-8".to_owned(),
            PlyHeaderError::MissingMagic =>
                "Not a valid PLY file (missing 'ply' magic header)".to_owned(),
            PlyHeaderError::UnexpectedEnd => "Unexpected EOF while reading PLY header".to_owned(),
            PlyHeaderError::MalformedFormat => "Malformed 'format' line in PLY header".to_owned(),
            PlyHeaderError::UnsupportedFormat(s) => quoted("Unsupported PLY format '", s),
            PlyHeaderError::MalformedElement => "Malformed 'element' line in PLY header".to_owned(),
            PlyHeaderError::InvalidVertexCount(e) => match e {
                NumberError::Empty => "cannot parse integer from empty string".to_owned(),
                NumberError::InvalidDigit => "invalid digit found in string".to_owned(),
                NumberError::Overflow => "number too large to fit in target type".to_owned(),
            },
            PlyHeaderError::MalformedProperty => "Malformed 'property' line in PLY header".to_owned(),
            PlyHeaderError::ListProperty =>
                "List properties in vertex element are not supported".to_owned(),
            PlyHeaderError::UnknownPropertyType(s) => quoted("Unknown PLY property type '", s),
            PlyHeaderError::MissingFormat =>
                "Missing 'format' specification in PLY header".to_owned(),
            PlyHeaderError::MissingCoordinates =>
                "PLY file vertex element missing required 'x', 'y', or 'z' properties".to_owned(),
        }
    }
}

impl HeaderFault {
    /// The message for a word shows the word as it is between apostrophes, and
    /// nothing else in it depends on the word.
    pub proof fn lemma_word_shown(word: Seq<char>)
        ensures
            HeaderFault::UnsupportedFormat(word).message() == HeaderFault::UnsupportedFormat(
                Seq::empty(),
            ).message().drop_last() + word + seq!['\''],
            HeaderFault::UnknownPropertyType(word).message() == HeaderFault::UnknownPropertyType(
                Seq::empty(),
            ).message().drop_last() + word + seq!['\''],
    {
        reveal_strlit("'");
        assert("'"@ =~= seq!['\'']);
        let before = "Unsupported PLY format '"@;
        assert((before + Seq::<char>::empty() + "'"@).drop_last() =~= before);
        let other = "Unknown PLY property type '"@;
        assert((other + Seq::<char>::empty() + "'"@).drop_last() =~= other);
    }
}

} // verus!
