use bevy_save::rollbacks::Rollbacks;

fn three() -> Rollbacks<u32> {
    let mut r = Rollbacks::new();
    r.checkpoint(1);
    r.checkpoint(2);
    r.checkpoint(3);
    r
}

#[test]
fn rollbacks_start_empty() {
    let mut r: Rollbacks<u32> = Rollbacks::new();
    assert!(r.is_empty());
    assert_eq!(r.len(), 0);
    assert_eq!(r.active_index(), None);
    assert_eq!(r.rollback(1), None);
    let d: Rollbacks<u32> = Rollbacks::default();
    assert!(d.is_empty());
}

#[test]
fn checkpoint_makes_newest_active() {
    let r = three();
    assert_eq!(r.len(), 3);
    assert_eq!(r.active_index(), Some(2));
    assert_eq!(r.checkpoint_slice(), &[1, 2, 3]);
}

#[test]
fn rollback_moves_and_clamps() {
    let mut r = three();
    assert_eq!(r.rollback(1), Some(&2));
    assert_eq!(r.active_index(), Some(1));
    assert_eq!(r.rollback(10), Some(&1));
    assert_eq!(r.active_index(), Some(0));
    assert_eq!(r.rollback(-1), Some(&2));
    assert_eq!(r.rollback(-10), Some(&3));
    assert_eq!(r.active_index(), Some(2));
    assert_eq!(r.rollback(isize::MIN), Some(&3));
    assert_eq!(r.rollback(isize::MAX), Some(&1));
}

#[test]
fn rollback_zero_stays() {
    let mut r = three();
    assert_eq!(r.rollback(0), Some(&3));
    assert_eq!(r.active_index(), Some(2));
}

#[test]
fn rollback_then_forward_returns() {
    let mut r = three();
    r.rollback(2);
    assert_eq!(r.rollback(-2), Some(&3));
}

#[test]
fn checkpoint_after_rollback_erases_rollforward() {
    let mut r = three();
    r.rollback(2);
    r.checkpoint(9);
    assert_eq!(r.checkpoint_slice(), &[1, 9]);
    assert_eq!(r.active_index(), Some(1));
    assert_eq!(r.rollback(-1), Some(&9));
}

#[test]
fn checkpoint_without_active_keeps_first() {
    let mut r = Rollbacks::from_parts(vec![5u32, 6, 7], None).unwrap();
    r.checkpoint(8);
    assert_eq!(r.checkpoint_slice(), &[5, 8]);
    assert_eq!(r.active_index(), Some(1));
}

#[test]
fn from_parts_refuses_active_without_checkpoints() {
    assert!(Rollbacks::<u32>::from_parts(vec![], Some(0)).is_none());
    assert!(Rollbacks::<u32>::from_parts(vec![], None).is_some());
    let r = Rollbacks::from_parts(vec![1u32, 2], Some(1)).unwrap();
    assert_eq!(r.active_index(), Some(1));
}

#[test]
fn active_past_end_is_clamped_on_rollback() {
    let mut r = Rollbacks::from_parts(vec![1u32, 2], Some(5)).unwrap();
    assert_eq!(r.rollback(0), Some(&2));
    assert_eq!(r.active_index(), Some(1));
}

#[test]
fn rollbacks_in_one_direction_add_up() {
    let mut a = three();
    a.rollback(1);
    let first = a.rollback(1).copied();
    let mut b = three();
    assert_eq!(b.rollback(2).copied(), first);
    let mut c = three();
    c.rollback(2);
    c.rollback(-1);
    c.rollback(-1);
    let mut d = three();
    d.rollback(2);
    assert_eq!(c.active_index(), Some(2));
    assert_eq!(d.rollback(-2), Some(&3));
}

#[test]
fn unclamped_rollback_then_forward_adds_up() {
    let mut a = three();
    a.rollback(1);
    a.rollback(-1);
    assert_eq!(a.active_index(), Some(2));
    let mut b = three();
    b.rollback(2);
    assert_eq!(b.rollback(-1), Some(&2));
    let mut c = three();
    assert_eq!(c.rollback(1), Some(&2));
}
