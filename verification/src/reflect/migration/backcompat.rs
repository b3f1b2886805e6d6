//! Versions of the snapshot format, as read from the crate version that
//! wrote a snapshot.

use vstd::prelude::*;

use crate::version::{
    SemVer,
    at_or_after,
    semver_parse,
};

verus! {

/// Error thrown if snapshot version is invalid
#[derive(Debug)]
pub enum VersionError {
    /// Unsupported version
    Unsupported,
    /// Invalid semver string
    Invalid(semver::Error),
}

/// Snapshot format version
#[derive(Clone, Copy, Debug, PartialEq, Eq, Structural)]
#[non_exhaustive]
pub enum SnapshotVersion {
    /// Snapshot with explicit `rollbacks` field, dynamically cloned values,
    /// index-only entities, and nested `entities` map
    ///
    /// Not currently supported
    V0,
    /// Snapshot with explicit `rollbacks` field, dynamically cloned values, and
    /// index-only entities
    ///
    /// Not currently supported
    V1,
    /// Snapshot with explicit `rollbacks` field and dynamically cloned values
    ///
    /// Not currently supported
    V2,
    /// Snapshot with explicit `rollbacks` field
    V3,
    /// Reflect-enabled snapshot with versioning
    V4,
}

impl Default for SnapshotVersion {
    fn default() -> (r: Self)
        ensures
            r == SnapshotVersion::V4,
    {
        SnapshotVersion::V4
    }
}

/// The snapshot format that a crate version wrote: the newest format whose
/// first crate version (`1.0.0`, `0.16.0`, `0.15.0`, `0.6.0`, `0.2.0`) the
/// version has reached, or `None` before `0.2.0`.
pub open spec fn snapshot_version_of(v: (u64, u64, u64, Seq<char>, Seq<char>)) -> Option<
    SnapshotVersion,
> {
    if at_or_after(v, (1, 0, 0)) {
        Some(SnapshotVersion::V4)
    } else if at_or_after(v, (0, 16, 0)) {
        Some(SnapshotVersion::V3)
    } else if at_or_after(v, (0, 15, 0)) {
        Some(SnapshotVersion::V2)
    } else if at_or_after(v, (0, 6, 0)) {
        Some(SnapshotVersion::V1)
    } else if at_or_after(v, (0, 2, 0)) {
        Some(SnapshotVersion::V0)
    } else {
        None
    }
}

impl SnapshotVersion {
    /// Picks the snapshot format written by the crate version in `value`.
    ///
    /// # Errors
    /// - [`VersionError::Invalid`] if `value` is not a semver version.
    /// - [`VersionError::Unsupported`] if it is older than `0.2.0`.
    pub fn try_from_str(value: &str) -> (r: Result<SnapshotVersion, VersionError>)
        ensures
            semver_parse(value@) is None <==> r matches Err(VersionError::Invalid(_)),
            semver_parse(value@) matches Some(v) ==> match snapshot_version_of(v) {
                Some(s) => r == Ok::<SnapshotVersion, VersionError>(s),
                None => r matches Err(VersionError::Unsupported),
            },
    {
        let ver = match SemVer::parse(value) {
            Ok(v) => v,
            Err(e) => return Err(VersionError::Invalid(e)),
        };
        if ver.at_least(&SemVer::new(1, 0, 0)) {
            Ok(SnapshotVersion::V4)
        } else if ver.at_least(&SemVer::new(0, 16, 0)) {
            Ok(SnapshotVersion::V3)
        } else if ver.at_least(&SemVer::new(0, 15, 0)) {
            Ok(SnapshotVersion::V2)
        } else if ver.at_least(&SemVer::new(0, 6, 0)) {
            Ok(SnapshotVersion::V1)
        } else if ver.at_least(&SemVer::new(0, 2, 0)) {
            Ok(SnapshotVersion::V0)
        } else {
            Err(VersionError::Unsupported)
        }
    }
}

impl<'a> TryFrom<&'a str> for SnapshotVersion {
    type Error = VersionError;

    /// See [`SnapshotVersion::try_from_str`].
    fn try_from(value: &'a str) -> (r: Result<Self, Self::Error>)
        ensures
            semver_parse(value@) is None <==> r matches Err(VersionError::Invalid(_)),
            semver_parse(value@) matches Some(v) ==> match snapshot_version_of(v) {
                Some(s) => r == Ok::<SnapshotVersion, VersionError>(s),
                None => r matches Err(VersionError::Unsupported),
            },
    {
        SnapshotVersion::try_from_str(value)
    }
}

/// The conversion of `try_from`, as far as a spec can give it: the format
/// written by a version, `Unsupported` for one older than `0.2.0`, and
/// `Invalid` for a text that is no version. The parse error carried by
/// `Invalid` comes from `semver` and is not specified, so the conversion is
/// not declared to obey this spec; the `ensures` of `try_from` state what it
/// does.
impl<'a> vstd::std_specs::convert::TryFromSpecImpl<&'a str> for SnapshotVersion {
    open spec fn obeys_try_from_spec() -> bool {
        false
    }

    open spec fn try_from_spec(v: &'a str) -> Result<Self, Self::Error> {
        match semver_parse(v@) {
            None => Err(VersionError::Invalid(vstd::pervasive::arbitrary())),
            Some(ver) => match snapshot_version_of(ver) {
                Some(s) => Ok(s),
                None => Err(VersionError::Unsupported),
            },
        }
    }
}

} // verus!
