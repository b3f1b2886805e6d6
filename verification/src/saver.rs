//! Save formats: the file extensions of the built-in formats.

use vstd::prelude::*;

verus! {

/// The file extension used by a format that does not choose one.
pub fn default_extension() -> (r: &'static str)
    ensures
        r@ == ".sav"@,
{
    ".sav"
}

/// The MessagePack format.
#[derive(Clone, Copy, Debug, Default)]
pub struct RMPFormat;

impl RMPFormat {
    /// The file extension used by the format.
    pub fn extension() -> (r: &'static str)
        ensures
            r@ == ".mp"@,
    {
        ".mp"
    }
}

/// The JSON format.
#[derive(Clone, Copy, Debug, Default)]
pub struct JSONFormat;

impl JSONFormat {
    /// The file extension used by the format.
    pub fn extension() -> (r: &'static str)
        ensures
            r@ == ".json"@,
    {
        ".json"
    }
}

} // verus!
