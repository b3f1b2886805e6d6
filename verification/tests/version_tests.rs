use bevy_save::version::{IntoVersion, Precedence, SemVer};

#[test]
fn semver_parse_reads_every_part() {
    let v = SemVer::parse("1.2.3-alpha.1+build.5").unwrap();
    assert_eq!(v.major(), 1);
    assert_eq!(v.minor(), 2);
    assert_eq!(v.patch(), 3);
    assert_eq!(v.pre(), "alpha.1");
    assert_eq!(v.build(), "build.5");
}

#[test]
fn semver_parse_rejects_what_is_no_version() {
    assert!(SemVer::parse("").is_err());
    assert!(SemVer::parse("x").is_err());
    assert!(SemVer::parse("1.2").is_err());
    assert!(SemVer::parse("01.2.3").is_err());
}

#[test]
fn semver_compare_orders_by_numbers_then_prerelease() {
    let a = SemVer::parse("1.2.3").unwrap();
    let b = SemVer::parse("1.10.0").unwrap();
    assert!(matches!(a.compare(&b), Precedence::Less));
    assert!(matches!(b.compare(&a), Precedence::Greater));
    assert!(matches!(a.compare(&SemVer::new(1, 2, 3)), Precedence::Equal));
    let pre = SemVer::parse("1.0.0-alpha").unwrap();
    let rel = SemVer::parse("1.0.0").unwrap();
    assert!(matches!(pre.compare(&rel), Precedence::Less));
}

#[test]
fn semver_at_least_compares_with_release() {
    let floor = SemVer::new(0, 20, 0);
    assert!(SemVer::parse("0.20.0").unwrap().at_least(&floor));
    assert!(SemVer::parse("0.20.1").unwrap().at_least(&floor));
    assert!(SemVer::parse("1.0.0").unwrap().at_least(&floor));
    assert!(!SemVer::parse("0.19.9").unwrap().at_least(&floor));
    assert!(!SemVer::parse("0.20.0-rc.1").unwrap().at_least(&floor));
}

#[test]
fn semver_to_text_writes_the_version() {
    assert_eq!(SemVer::new(0, 16, 0).to_text(), "0.16.0");
    assert_eq!(SemVer::parse("1.2.3-rc.1+b7").unwrap().to_text(), "1.2.3-rc.1+b7");
}

#[test]
fn semver_duplicate_is_equal() {
    let v = SemVer::parse("2.0.0-beta").unwrap();
    let d = v.duplicate();
    assert!(matches!(v.compare(&d), Precedence::Equal));
    assert_eq!(d.to_text(), "2.0.0-beta");
}

#[test]
fn into_version_accepts_text_and_versions() {
    assert_eq!("0.3.1".into_version().unwrap().to_text(), "0.3.1");
    assert_eq!(String::from("4.5.6").into_version().unwrap().minor(), 5);
    assert_eq!(SemVer::new(7, 8, 9).into_version().unwrap().patch(), 9);
    assert!("nope".into_version().is_err());
}
