//! The failures a conversion can end with.

use vstd::prelude::*;

verus! {

/// Declares `std::io::Error` to the verifier as an opaque type, so that
/// [`Error::Io`] can carry one. Nothing is claimed about its contents.
#[verifier::external_type_specification]
#[verifier::external_body]
pub struct ExIoError(std::io::Error);

/// Declares `std::string::FromUtf8Error` to the verifier as an opaque type, so
/// that [`Error::Utf8`] can carry one. Nothing is claimed about its contents.
#[verifier::external_type_specification]
#[verifier::external_body]
pub struct ExFromUtf8Error(std::string::FromUtf8Error);

/// The result of a conversion.
pub type Result<T> = std::result::Result<T, Error>;

/// Why a conversion stopped.
///
/// Decoding raises only [`Error::InvalidHexChar`] and [`Error::OddHexLength`];
/// encoding into memory never fails. The remaining variants complete the
/// taxonomy for callers that move data through streams.
#[derive(Debug)]
pub enum Error {
    /// The underlying source or sink failed.
    Io(std::io::Error),
    /// A character that is no hex digit, with its index in the hex string
    /// taken from one line.
    InvalidHexChar(char, usize),
    /// The hex digits of one line do not pair up into bytes.
    OddHexLength,
    /// Text was not valid UTF-8.
    Utf8(std::string::FromUtf8Error),
    /// Input could not be parsed.
    Parse(String),
    /// The configuration cannot be used.
    Config(String),
}

} // verus!
