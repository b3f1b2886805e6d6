use bevy_save::reflect::migration::Migrator;
use bevy_save::reflect::serde::{
    map_entry_keys,
    parse_type_key,
    resolve_type_key,
    sorted_by_type_path,
    split_type_key,
    text_less,
    type_key,
    KeyRegistration,
    ResolvedKey,
    TypeKeyError,
    ENTITY_FIELD_COMPONENTS,
    ENTITY_STRUCT,
};
use bevy_save::version::SemVer;

#[test]
fn entity_struct_names() {
    assert_eq!(ENTITY_STRUCT, "Entity");
    assert_eq!(ENTITY_FIELD_COMPONENTS, "components");
}

#[test]
fn type_key_adds_version_after_a_space() {
    assert_eq!(type_key("game::Score", None), "game::Score");
    let v = SemVer::parse("0.2.1").unwrap();
    assert_eq!(type_key("game::Score", Some(&v)), "game::Score 0.2.1");
}

#[test]
fn split_type_key_splits_at_first_space() {
    let (path, version) = split_type_key("game::Score 0.2.1");
    assert_eq!(path, "game::Score");
    assert_eq!(version.as_deref(), Some("0.2.1"));
    let (path, version) = split_type_key("a b c");
    assert_eq!(path, "a");
    assert_eq!(version.as_deref(), Some("b c"));
    let (path, version) = split_type_key("plain");
    assert_eq!(path, "plain");
    assert_eq!(version, None);
}

#[test]
fn written_key_reads_back() {
    let v = SemVer::parse("3.1.4-beta+x").unwrap();
    let key = type_key("my::Type", Some(&v));
    let (path, version) = parse_type_key(&key).unwrap();
    assert_eq!(path, "my::Type");
    assert_eq!(version.unwrap().to_text(), "3.1.4-beta+x");
    let (path, version) = parse_type_key(&type_key("my::Type", None)).unwrap();
    assert_eq!(path, "my::Type");
    assert!(version.is_none());
}

#[test]
fn parse_type_key_reports_bad_version() {
    match parse_type_key("my::Type one") {
        Err(TypeKeyError::InvalidVersion(text)) => assert_eq!(text, "one"),
        _ => panic!("expected an invalid version"),
    }
}

#[test]
fn text_less_orders_by_characters() {
    assert!(text_less("a", "b"));
    assert!(text_less("ab", "abc"));
    assert!(!text_less("abc", "ab"));
    assert!(!text_less("same", "same"));
    assert!(text_less("Z", "a"));
    assert!(text_less("", "x"));
}

#[test]
fn sorted_by_type_path_is_stable() {
    let paths = vec![
        String::from("c::C"),
        String::from("a::A"),
        String::from("b::B"),
        String::from("a::A"),
    ];
    assert_eq!(sorted_by_type_path(&paths), vec![1, 3, 2, 0]);
    assert!(sorted_by_type_path(&Vec::new()).is_empty());
}

fn v(text: &str) -> SemVer {
    SemVer::parse(text).unwrap()
}

#[test]
fn resolve_unversioned_key_by_path() {
    let regs: Vec<KeyRegistration<'_, ()>> = vec![
        KeyRegistration { type_path: String::from("a::A"), migrator: None },
        KeyRegistration { type_path: String::from("b::B"), migrator: None },
    ];
    assert!(matches!(resolve_type_key("b::B", &regs), Ok(ResolvedKey::Unversioned(1))));
    match resolve_type_key("c::C", &regs) {
        Err(TypeKeyError::NoRegistration(p)) => assert_eq!(p, "c::C"),
        _ => panic!("expected no registration"),
    }
}

#[test]
fn resolve_versioned_key_through_migrations() {
    let m = Migrator::new(v("0.1.0"), String::from("old::Pos"), 10u8)
        .version(v("0.2.0"), String::from("new::Pos"), 20u8);
    let regs = vec![
        KeyRegistration { type_path: String::from("x::X"), migrator: None },
        KeyRegistration { type_path: String::from("new::Pos"), migrator: Some(&m) },
    ];
    match resolve_type_key("new::Pos 0.2.0", &regs) {
        Ok(ResolvedKey::Versioned { version, output, input }) => {
            assert_eq!(version.to_text(), "0.2.0");
            assert_eq!(output, 1);
            assert_eq!(*input, 20);
        },
        _ => panic!("expected a versioned key"),
    }
    match resolve_type_key("old::Pos 0.1.0", &regs) {
        Ok(ResolvedKey::Versioned { output, input, .. }) => {
            assert_eq!(output, 1);
            assert_eq!(*input, 10);
        },
        _ => panic!("expected a migrated key"),
    }
}

#[test]
fn resolve_versioned_key_errors() {
    let m = Migrator::new(v("0.1.0"), String::from("new::Pos"), 1u8);
    let regs = vec![
        KeyRegistration { type_path: String::from("plain::P"), migrator: None },
        KeyRegistration { type_path: String::from("new::Pos"), migrator: Some(&m) },
    ];
    match resolve_type_key("plain::P 1.0.0", &regs) {
        Err(TypeKeyError::MigrateNotRegistered(p)) => assert_eq!(p, "plain::P"),
        _ => panic!("expected missing migrations"),
    }
    match resolve_type_key("new::Pos 0.9.0", &regs) {
        Err(TypeKeyError::NoMigration { type_path, output, version }) => {
            assert_eq!(type_path, "new::Pos");
            assert_eq!(output, "new::Pos");
            assert_eq!(version.to_text(), "0.9.0");
        },
        _ => panic!("expected no migration"),
    }
    match resolve_type_key("gone::G 0.1.0", &regs) {
        Err(TypeKeyError::NoRegistration(p)) => assert_eq!(p, "gone::G"),
        _ => panic!("expected no registration"),
    }
    assert!(matches!(
        resolve_type_key("new::Pos zero", &regs),
        Err(TypeKeyError::InvalidVersion(_))
    ));
}

#[test]
fn map_entries_are_written_sorted_with_their_keys() {
    let paths = vec![String::from("b::Pos"), String::from("a::Name"), String::from("c::Hp")];
    let pos_version = SemVer::parse("0.4.0").unwrap();
    let versions = vec![Some(&pos_version), None, None];
    let keys = map_entry_keys(&paths, &versions);
    assert_eq!(
        keys,
        vec![
            (1, String::from("a::Name")),
            (0, String::from("b::Pos 0.4.0")),
            (2, String::from("c::Hp")),
        ]
    );
}
