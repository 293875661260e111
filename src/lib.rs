//! Reading and writing fonts in the Glyph Bitmap Distribution Format (BDF).
use vstd::prelude::*;

pub mod bitmap;
pub mod error;
pub mod ids;
pub mod laws;
pub mod model;
pub mod parser;
pub mod round_trip;
pub mod text;
pub mod values;

pub use bitmap::BitmapRow;
pub use error::Error;
pub use model::{Bitmap, Font, Glyph, Property, Xlfd};
pub use parser::Parser;
pub use values::{BoundingBox, FontSize, MetricsSet, PropertyValue, WritingMetrics, XYPair};

verus! {

/// Parses BDF text into a validated font, or gives the first error with the
/// number of the non-blank line it was found on.
pub fn parse_font(input: &str) -> (r: Result<Font, (usize, Error)>)
    ensures
        match parser::parse_spec(input@) {
            Ok(f) => r matches Ok(x) && x@ == f,
            Err((n, e)) => r matches Err((k, x)) && k == n && x@ == e,
        },
{
    Parser::parse(input)
}

} // verus!
