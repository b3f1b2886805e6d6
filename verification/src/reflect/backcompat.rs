//! Versions of the reflection-based snapshot format.

use vstd::prelude::*;

use crate::version::{
    SemVer,
    at_or_after,
    semver_parse,
};

verus! {

/// Error thrown if snapshot version is invalid
#[derive(Debug)]
pub enum VersionError {
    /// Unsupported snapshot version
    Unsupported,
    /// Invalid semver string
    Invalid(semver::Error),
}

/// Snapshot format version
#[derive(Clone, Copy, Debug, PartialEq, Eq, Structural)]
#[non_exhaustive]
pub enum Version {
    /// Snapshot with explicit `rollbacks` field
    V0_16,
    /// Reflect-enabled snapshot with metadata
    V0_20,
}

impl Default for Version {
    fn default() -> (r: Self)
        ensures
            r == Version::V0_20,
    {
        Version::V0_20
    }
}

impl Version {
    /// Picks the snapshot format written by the crate version in `value`:
    /// at least `0.20.0` is [`Version::V0_20`], at least `0.16.0` is
    /// [`Version::V0_16`], anything older is unsupported.
    ///
    /// # Errors
    /// - [`VersionError::Invalid`] if `value` is not a semver version.
    /// - [`VersionError::Unsupported`] if it is older than `0.16.0`.
    pub fn try_from_str(value: &str) -> (r: Result<Version, VersionError>)
        ensures
            semver_parse(value@) is None <==> r matches Err(VersionError::Invalid(_)),
            semver_parse(value@) matches Some(v) ==> (if at_or_after(v, (0, 20, 0)) {
                r == Ok::<Version, VersionError>(Version::V0_20)
            } else if at_or_after(v, (0, 16, 0)) {
                r == Ok::<Version, VersionError>(Version::V0_16)
            } else {
                r matches Err(VersionError::Unsupported)
            }),
    {
        let ver = match SemVer::parse(value) {
            Ok(v) => v,
            Err(e) => return Err(VersionError::Invalid(e)),
        };
        if ver.at_least(&SemVer::new(0, 20, 0)) {
            Ok(Version::V0_20)
        } else if ver.at_least(&SemVer::new(0, 16, 0)) {
            Ok(Version::V0_16)
        } else {
            Err(VersionError::Unsupported)
        }
    }
}

impl<'a> TryFrom<&'a str> for Version {
    type Error = VersionError;

    /// See [`Version::try_from_str`].
    fn try_from(value: &'a str) -> (r: Result<Self, Self::Error>)
        ensures
            semver_parse(value@) is None <==> r matches Err(VersionError::Invalid(_)),
            semver_parse(value@) matches Some(v) ==> (if at_or_after(v, (0, 20, 0)) {
                r == Ok::<Version, VersionError>(Version::V0_20)
            } else if at_or_after(v, (0, 16, 0)) {
                r == Ok::<Version, VersionError>(Version::V0_16)
            } else {
                r matches Err(VersionError::Unsupported)
            }),
    {
        Version::try_from_str(value)
    }
}

/// The conversion of `try_from`, as far as a spec can give it: the format
/// picked for a version, `Unsupported` for an older one, and `Invalid` for a
/// text that is no version. The parse error carried by `Invalid` comes from
/// `semver` and is not specified, so the conversion is not declared to obey
/// this spec; the `ensures` of `try_from` state what it does.
impl<'a> vstd::std_specs::convert::TryFromSpecImpl<&'a str> for Version {
    open spec fn obeys_try_from_spec() -> bool {
        false
    }

    open spec fn try_from_spec(v: &'a str) -> Result<Self, Self::Error> {
        match semver_parse(v@) {
            None => Err(VersionError::Invalid(vstd::pervasive::arbitrary())),
            Some(ver) => if at_or_after(ver, (0, 20, 0)) {
                Ok(Version::V0_20)
            } else if at_or_after(ver, (0, 16, 0)) {
                Ok(Version::V0_16)
            } else {
                Err(VersionError::Unsupported)
            },
        }
    }
}

} // verus!
