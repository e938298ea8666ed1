//! The error surface: any malformed input aborts a run with the first of
//! these that the parse meets. A value that no rule covers is never an
//! error; it falls through to the identity mapping.

use vstd::prelude::*;

verus! {

/// A fatal input-format failure.
#[derive(Clone, Copy, Debug, PartialEq, Eq, Structural)]
pub enum ParseError {
    /// A required line is missing from the input.
    MissingLine,
    /// A header line holds no space after its label.
    NoSpace,
    /// A line holds no `:` where one is required.
    NoColon,
    /// A card line holds no `|` separating winners from draws.
    NoPipe,
    /// A map title line holds no `-to-` separator.
    MissingSeparator,
    /// A data line does not split into the expected number of fields.
    FieldCount,
    /// A field does not parse as an integer of the expected width.
    BadInteger,
    /// An interval length is not strictly positive, or its end overflows.
    BadRange,
    /// A map title names a category outside the fixed eight.
    UnknownCategory,
    /// A required category has no map block in the input.
    MissingCategory,
    /// A cube count names a color outside red, green and blue.
    UnknownColor,
    /// A reduction over the input found no value to reduce.
    NoValues,
    /// A line holds none of the sought patterns.
    NoMatch,
}

impl ParseError {
    /// A short human-readable account of the failure.
    pub fn describe(&self) -> &'static str {
        match self {
            ParseError::MissingLine => "a required line is missing",
            ParseError::NoSpace => "no space after the header label",
            ParseError::NoColon => "no ':' in the line",
            ParseError::NoPipe => "no '|' in the line",
            ParseError::MissingSeparator => "no '-to-' in the map title",
            ParseError::FieldCount => "wrong number of fields in the line",
            ParseError::BadInteger => "a field is not an integer in range",
            ParseError::BadRange => "an interval length is not positive",
            ParseError::UnknownCategory => "unknown category name",
            ParseError::MissingCategory => "a category map is missing",
            ParseError::UnknownColor => "unknown cube color",
            ParseError::NoValues => "nothing to reduce",
            ParseError::NoMatch => "no pattern matches the line",
        }
    }
}

} // verus!
