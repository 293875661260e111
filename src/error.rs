//! The errors of parsing, validation and rendering.
use vstd::prelude::*;

verus! {

/// What went wrong. The parser pairs each error with the line it was found on.
#[derive(Debug)]
pub enum Error {
    /// A record that needs an argument had none.
    MissingValue(String),
    /// A keyword that is not valid where it stands.
    UnexpectedEntry(String),
    /// A `BITMAP` block with neither a glyph nor a font bounding box.
    MissingBoundingBox,
    /// An `ENCODING` that is no Unicode scalar value.
    InvalidCodepoint(u32),
    /// A value that does not match its grammar; holds the expected shape.
    ParseError(&'static str),
    /// An `ENCODING` of `-1`, which is not supported.
    SpecialEncoding,
    /// A font-level invariant failed.
    FontValidation(&'static str),
    /// An XLFD invariant failed.
    XlfdValidation(&'static str),
    /// A glyph invariant failed; holds the glyph's codepoint.
    GlyphValidation(char, &'static str),
}

/// The mathematical value of an [`Error`].
pub ghost enum ErrorModel {
    MissingValue(Seq<char>),
    UnexpectedEntry(Seq<char>),
    MissingBoundingBox,
    InvalidCodepoint(u32),
    ParseError(Seq<char>),
    SpecialEncoding,
    FontValidation(Seq<char>),
    XlfdValidation(Seq<char>),
    GlyphValidation(char, Seq<char>),
}

impl View for Error {
    type V = ErrorModel;

    open spec fn view(&self) -> ErrorModel {
        match self {
            Error::MissingValue(s) => ErrorModel::MissingValue(s@),
            Error::UnexpectedEntry(s) => ErrorModel::UnexpectedEntry(s@),
            Error::MissingBoundingBox => ErrorModel::MissingBoundingBox,
            Error::InvalidCodepoint(u) => ErrorModel::InvalidCodepoint(*u),
            Error::ParseError(s) => ErrorModel::ParseError(s@),
            Error::SpecialEncoding => ErrorModel::SpecialEncoding,
            Error::FontValidation(s) => ErrorModel::FontValidation(s@),
            Error::XlfdValidation(s) => ErrorModel::XlfdValidation(s@),
            Error::GlyphValidation(c, s) => ErrorModel::GlyphValidation(*c, s@),
        }
    }
}

} // verus!
