use bevy_save::reflect::migration::Migrator;
use bevy_save::version::SemVer;

fn v(text: &str) -> SemVer {
    SemVer::parse(text).unwrap()
}

fn sample() -> Migrator<&'static str> {
    Migrator::new(v("0.1.0"), String::from("game::PositionV1"), "first")
        .version(v("0.3.0"), String::from("game::Position"), "third")
        .version(v("0.2.0"), String::from("game::PositionV2"), "second")
}

#[test]
fn migrator_matches_its_type_paths() {
    let m = sample();
    assert!(m.matches("game::PositionV1"));
    assert!(m.matches("game::PositionV2"));
    assert!(m.matches("game::Position"));
    assert!(!m.matches("game::Velocity"));
}

#[test]
fn migrator_registration_by_exact_version() {
    let m = sample();
    assert_eq!(m.registration(&v("0.2.0")), Some(&"second"));
    assert_eq!(m.registration(&v("0.1.0")), Some(&"first"));
    assert_eq!(m.registration(&v("0.2.1")), None);
}

#[test]
fn migrator_same_version_replaces_step() {
    let m = sample().version(v("0.2.0"), String::from("game::PositionV2"), "again");
    assert_eq!(m.registration(&v("0.2.0")), Some(&"again"));
    assert_eq!(m.latest_version().unwrap().to_text(), "0.3.0");
}

#[test]
fn migrator_latest_version_is_the_highest() {
    assert_eq!(sample().latest_version().unwrap().to_text(), "0.3.0");
    let single = Migrator::new(v("1.0.0-rc.1"), String::from("T"), ());
    assert_eq!(single.latest_version().unwrap().to_text(), "1.0.0-rc.1");
}

#[test]
fn migration_plan_runs_steps_from_the_version_upward() {
    let m = sample();
    let plan = m.migration_plan(&v("0.2.0"));
    let steps: Vec<&str> = plan.iter().map(|&i| *m.step_at(i).1).collect();
    assert_eq!(steps, vec!["second", "third"]);
    let all = m.migration_plan(&v("0.0.1"));
    let steps: Vec<&str> = all.iter().map(|&i| *m.step_at(i).1).collect();
    assert_eq!(steps, vec!["first", "second", "third"]);
    let versions: Vec<String> = all.iter().map(|&i| m.step_at(i).0.to_text()).collect();
    assert_eq!(versions, vec!["0.1.0", "0.2.0", "0.3.0"]);
    assert!(m.migration_plan(&v("0.4.0")).is_empty());
}

#[test]
fn migration_plan_between_versions_starts_at_next_step() {
    let m = sample();
    let plan = m.migration_plan(&v("0.1.5"));
    let steps: Vec<&str> = plan.iter().map(|&i| *m.step_at(i).1).collect();
    assert_eq!(steps, vec!["second", "third"]);
}
