use bevy_save::scene::SaveableScene;

#[test]
fn scene_keeps_first_entity_per_index_in_index_order() {
    let scene = SaveableScene::from_extracted(vec![
        (3, vec![Some("a"), None, Some("b")]),
        (1, vec![None]),
        (3, vec![Some("c")]),
        (2, vec![Some("d")]),
    ]);
    let got: Vec<(u32, Vec<&str>)> =
        scene.entities.into_iter().map(|e| (e.entity, e.components)).collect();
    assert_eq!(got, vec![(1, vec![]), (2, vec!["d"]), (3, vec!["a", "b"])]);
}

#[test]
fn empty_world_gives_empty_scene() {
    let scene: SaveableScene<u8> = SaveableScene::from_extracted(vec![]);
    assert!(scene.entities.is_empty());
}
