use bevy_save::reflect::backcompat::{Version, VersionError};
use bevy_save::reflect::migration::backcompat::{
    SnapshotVersion,
    VersionError as SnapshotVersionError,
};

#[test]
fn version_picks_format_by_crate_version() {
    assert!(matches!(Version::try_from("0.20.0"), Ok(Version::V0_20)));
    assert!(matches!(Version::try_from("0.21.3"), Ok(Version::V0_20)));
    assert!(matches!(Version::try_from("1.0.0"), Ok(Version::V0_20)));
    assert!(matches!(Version::try_from("0.16.0"), Ok(Version::V0_16)));
    assert!(matches!(Version::try_from("0.19.9"), Ok(Version::V0_16)));
    assert!(matches!(Version::try_from("0.20.0-alpha"), Ok(Version::V0_16)));
}

#[test]
fn version_rejects_old_and_invalid() {
    assert!(matches!(Version::try_from("0.15.9"), Err(VersionError::Unsupported)));
    assert!(matches!(Version::try_from("0.0.1"), Err(VersionError::Unsupported)));
    assert!(matches!(Version::try_from("x"), Err(VersionError::Invalid(_))));
    assert!(matches!(Version::try_from_str("0.16"), Err(VersionError::Invalid(_))));
}

#[test]
fn version_default_is_newest() {
    assert!(matches!(Version::default(), Version::V0_20));
}

#[test]
fn snapshot_version_picks_format_by_crate_version() {
    assert!(matches!(SnapshotVersion::try_from("1.0.0"), Ok(SnapshotVersion::V4)));
    assert!(matches!(SnapshotVersion::try_from("2.3.4"), Ok(SnapshotVersion::V4)));
    assert!(matches!(SnapshotVersion::try_from("0.16.0"), Ok(SnapshotVersion::V3)));
    assert!(matches!(SnapshotVersion::try_from("0.99.0"), Ok(SnapshotVersion::V3)));
    assert!(matches!(SnapshotVersion::try_from("0.15.0"), Ok(SnapshotVersion::V2)));
    assert!(matches!(SnapshotVersion::try_from("0.6.0"), Ok(SnapshotVersion::V1)));
    assert!(matches!(SnapshotVersion::try_from("0.14.2"), Ok(SnapshotVersion::V1)));
    assert!(matches!(SnapshotVersion::try_from("0.2.0"), Ok(SnapshotVersion::V0)));
    assert!(matches!(SnapshotVersion::try_from("0.5.9"), Ok(SnapshotVersion::V0)));
}

#[test]
fn snapshot_version_rejects_old_and_invalid() {
    assert!(matches!(
        SnapshotVersion::try_from("0.1.9"),
        Err(SnapshotVersionError::Unsupported)
    ));
    assert!(matches!(
        SnapshotVersion::try_from("one"),
        Err(SnapshotVersionError::Invalid(_))
    ));
    assert!(matches!(SnapshotVersion::default(), SnapshotVersion::V4));
}
