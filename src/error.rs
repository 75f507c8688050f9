//! The library's error type.

use vstd::prelude::*;

verus! {

#[verifier::external_type_specification]
#[verifier::external_body]
pub struct ExIoError(std::io::Error);

#[verifier::external_type_specification]
#[verifier::external_body]
pub struct ExEncodeError(bincode::error::EncodeError);

#[verifier::external_type_specification]
#[verifier::external_body]
pub struct ExDecodeError(bincode::error::DecodeError);

/// What can go wrong while building, loading or configuring converters.
#[derive(Debug)]
pub enum OpenCCError {
    /// Reading or writing bytes failed, or compressed data was corrupt.
    Io(std::io::Error),
    /// The automaton could not be built or read.
    Fst(fst::Error),
    /// Serialized data could not be decoded.
    BincodeDecode(bincode::error::DecodeError),
    /// Data could not be serialized.
    BincodeEncode(bincode::error::EncodeError),
    /// A compiled dictionary ends before its metadata does.
    Truncated,
    /// A configuration lacks what its kind of entry needs.
    InvalidConfig(String),
    /// A named configuration or resource does not exist.
    ConfigNotFound(String),
    /// A file that a configuration names does not exist.
    FileNotFound(String),
    /// A configuration names a kind of dictionary that is not supported.
    UnsupportedDictType(String),
}

} // verus!
