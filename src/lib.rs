//! Decoding of StarDict dictionaries (descriptor, word index and data blob)
//! into headword entries with XML bodies.
use vstd::prelude::*;
use vstd::string::StringExecFns;

pub mod text;
pub mod fields;
pub mod index;
pub mod info;
pub mod dict;
pub mod template;

verus! {

/// Why a dictionary could not be decoded.
#[derive(Debug, Clone, Copy, PartialEq, Eq, Structural)]
pub enum DictError {
    /// A file could not be opened or read.
    Io,
    /// A number or a piece of text is malformed.
    Format,
    /// A file ends before the records it declares.
    Truncated,
}

impl DictError {
    /// A short description of the error.
    pub fn message(&self) -> (r: String)
        ensures
            r@ == match self {
                DictError::Io => "file could not be read"@,
                DictError::Format => "malformed dictionary data"@,
                DictError::Truncated => "dictionary data is truncated"@,
            },
    {
        match self {
            DictError::Io => String::from_str("file could not be read"),
            DictError::Format => String::from_str("malformed dictionary data"),
            DictError::Truncated => String::from_str("dictionary data is truncated"),
        }
    }
}
} // verus!
