use bevy_save::entity_map::EntityMap;

#[test]
fn entity_map_insert_and_get() {
    let mut m = EntityMap::new();
    assert_eq!(m.get(1), None);
    m.insert(1, 100);
    m.insert(3, 300);
    m.insert(2, 200);
    assert_eq!(m.get(2), Some(200));
    assert!(m.contains(3));
    assert!(!m.contains(4));
    m.insert(2, 201);
    assert_eq!(m.get(2), Some(201));
    assert_eq!(m.pairs(), vec![(1, 100), (2, 201), (3, 300)]);
}

#[test]
fn missing_lists_unmapped_scene_entities_once_in_order() {
    let mut m = EntityMap::new();
    m.insert(5, 50);
    let scene = vec![7, 5, 3, 7, 9, 3];
    assert_eq!(m.missing(&scene), vec![7, 3, 9]);
    assert!(m.missing(&Vec::new()).is_empty());
}

#[test]
fn prepared_map_covers_the_scene() {
    let mut m = EntityMap::new();
    m.insert(5, 50);
    let scene = vec![7, 5, 3, 7];
    let missing = m.missing(&scene);
    let spawned = vec![70, 30];
    m.insert_spawned(&missing, &spawned);
    for s in &scene {
        assert!(m.contains(*s));
    }
    assert_eq!(m.get(5), Some(50));
    assert_eq!(m.get(7), Some(70));
    assert_eq!(m.get(3), Some(30));
}

#[test]
fn close_targets_maps_targets_to_themselves() {
    let mut m = EntityMap::new();
    m.insert(1, 10);
    m.insert(2, 20);
    m.insert(10, 99);
    m.close_targets();
    assert_eq!(m.pairs(), vec![(1, 10), (2, 20), (10, 10), (20, 20), (99, 99)]);
    let before = m.pairs();
    m.close_targets();
    assert_eq!(m.pairs(), before);
}
