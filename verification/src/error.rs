use vstd::prelude::*;

verus! {

/// Everything that can go wrong while building cube states from user input
/// or while decoding a serialized table blob.
#[derive(Clone, Copy, PartialEq, Eq, Structural, Debug)]
pub enum Error {
    InvalidColor,
    InvalidEdge,
    InvalidCorner,
    InvalidScramble,
    InvalidFaceletString,
    InvalidFaceletValue,
    InvalidCubieValue,
    DecodeError,
}

impl Error {
    /// A human-readable description of the error.
    pub fn message(self) -> (r: &'static str)
        ensures
            r@ == self.spec_message(),
    {
        match self {
            Error::InvalidColor => "Invalid color value",
            Error::InvalidEdge => "Invalid edge value",
            Error::InvalidCorner => "Invalid corner value",
            Error::InvalidScramble => "Invalid scramble string",
            Error::InvalidFaceletString => "Invalid facelet string",
            Error::InvalidFaceletValue => "Invalid facelet representation",
            Error::InvalidCubieValue => "Invalid cubie representation",
            Error::DecodeError => "Failed to decode the table blob",
        }
    }

    pub open spec fn spec_message(self) -> Seq<char> {
        match self {
            Error::InvalidColor => "Invalid color value"@,
            Error::InvalidEdge => "Invalid edge value"@,
            Error::InvalidCorner => "Invalid corner value"@,
            Error::InvalidScramble => "Invalid scramble string"@,
            Error::InvalidFaceletString => "Invalid facelet string"@,
            Error::InvalidFaceletValue => "Invalid facelet representation"@,
            Error::InvalidCubieValue => "Invalid cubie representation"@,
            Error::DecodeError => "Failed to decode the table blob"@,
        }
    }
}

} // verus!
