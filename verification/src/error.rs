//! The closed set of failure kinds returned by fallible operations.

use vstd::prelude::*;

verus! {

/// Error kinds for plist operations.
///
/// `InvalidArg` is produced locally whenever a kind check fails; the
/// remaining kinds mirror the status codes of the wire-format codec.
#[derive(Debug, PartialEq, Eq, Structural, Clone, Copy)]
pub enum PlistError {
    Success,
    InvalidArg,
    Format,
    Parse,
    NoMem,
    Unknown,
}

/// The error kind denoted by a codec status code: `0` is success and the
/// negative codes map one to one onto the named kinds.
pub open spec fn spec_error_from_code(code: i32) -> PlistError {
    if code == 0 {
        PlistError::Success
    } else if code == -1 {
        PlistError::InvalidArg
    } else if code == -2 {
        PlistError::Format
    } else if code == -3 {
        PlistError::Parse
    } else if code == -4 {
        PlistError::NoMem
    } else {
        PlistError::Unknown
    }
}

impl PlistError {
    /// Maps a codec status code to its error kind.
    pub fn from_code(code: i32) -> (r: PlistError)
        ensures
            r == spec_error_from_code(code),
    {
        match code {
            0 => PlistError::Success,
            -1 => PlistError::InvalidArg,
            -2 => PlistError::Format,
            -3 => PlistError::Parse,
            -4 => PlistError::NoMem,
            _ => PlistError::Unknown,
        }
    }

    /// A human-readable name for the error kind.
    pub fn name(&self) -> (r: &'static str)
        ensures
            self is Success ==> r@ == "Success"@,
            self is InvalidArg ==> r@ == "InvalidArg"@,
            self is Format ==> r@ == "Format"@,
            self is Parse ==> r@ == "Parse"@,
            self is NoMem ==> r@ == "NoMem"@,
            self is Unknown ==> r@ == "Unknown"@,
    {
        match self {
            PlistError::Success => "Success",
            PlistError::InvalidArg => "InvalidArg",
            PlistError::Format => "Format",
            PlistError::Parse => "Parse",
            PlistError::NoMem => "NoMem",
            PlistError::Unknown => "Unknown",
        }
    }
}

} // verus!
