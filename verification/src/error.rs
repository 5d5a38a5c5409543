//! The errors of building a tree and of reading a compressed file.
use vstd::prelude::*;
use vstd::string::*;

verus! {

/// The class of an error, as the I/O layer reports it.
#[derive(Clone, Copy, Debug, PartialEq, Eq)]
pub enum ErrorKind {
    InvalidData,
    UnexpectedEof,
}

#[derive(Clone, Copy, Debug, PartialEq, Eq)]
pub enum ZipError {
    /// There is nothing to build a tree from.
    EmptyInput,
    /// The file ends before the magic number does.
    TooShort,
    /// The file does not start with the magic number.
    InvalidMagic,
    /// The file ends before the leaf count.
    MissingLeafCount,
    /// The file ends inside the table of leaves.
    MissingLeafData,
    /// A byte to compress has no code word of at most 32 bits.
    NoCodeWord,
}

impl ZipError {
    /// The class of the error.
    pub open spec fn kind_of(self) -> ErrorKind {
        match self {
            ZipError::EmptyInput => ErrorKind::InvalidData,
            ZipError::TooShort => ErrorKind::InvalidData,
            ZipError::InvalidMagic => ErrorKind::InvalidData,
            ZipError::MissingLeafCount => ErrorKind::UnexpectedEof,
            ZipError::MissingLeafData => ErrorKind::UnexpectedEof,
            ZipError::NoCodeWord => ErrorKind::InvalidData,
        }
    }

    /// The text that describes the error.
    pub open spec fn message(self) -> Seq<char> {
        match self {
            ZipError::EmptyInput => "Input file is empty."@,
            ZipError::TooShort => "File too short to contain magic number"@,
            ZipError::InvalidMagic => "Invalid magic number"@,
            ZipError::MissingLeafCount => "Unexpected EOF reading leaf count"@,
            ZipError::MissingLeafData => "Unexpected EOF reading leaf data"@,
            ZipError::NoCodeWord => "No code word of at most 32 bits for a byte"@,
        }
    }

    /// The class of the error.
    pub fn kind(&self) -> (k: ErrorKind)
        ensures
            k == self.kind_of(),
    {
        match self {
            ZipError::EmptyInput => ErrorKind::InvalidData,
            ZipError::TooShort => ErrorKind::InvalidData,
            ZipError::InvalidMagic => ErrorKind::InvalidData,
            ZipError::MissingLeafCount => ErrorKind::UnexpectedEof,
            ZipError::MissingLeafData => ErrorKind::UnexpectedEof,
            ZipError::NoCodeWord => ErrorKind::InvalidData,
        }
    }

    /// The message that describes the error.
    pub fn to_string(&self) -> (s: String)
        ensures
            s@ == self.message(),
    {
        match self {
            ZipError::EmptyInput => String::from_str("Input file is empty."),
            ZipError::TooShort => String::from_str("File too short to contain magic number"),
            ZipError::InvalidMagic => String::from_str("Invalid magic number"),
            ZipError::MissingLeafCount => String::from_str("Unexpected EOF reading leaf count"),
            ZipError::MissingLeafData => String::from_str("Unexpected EOF reading leaf data"),
            ZipError::NoCodeWord => String::from_str("No code word of at most 32 bits for a byte"),
        }
    }
}

} // verus!
