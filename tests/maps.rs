use scene_graph::{
    resolve_transforms, EntityKey, MapError, Node, Prefab, Quat, Scene, SceneMap,
    TransformComponent, Vec3, GraftError, MAX_PARENT_DEPTH,
};

fn v3(x: f32, y: f32, z: f32) -> Vec3 {
    Vec3 { bits: [x.to_bits(), y.to_bits(), z.to_bits()] }
}

fn small_prefab() -> Prefab {
    let mut scene = Scene::new();
    let root = scene.create_entity(TransformComponent::default());
    let mut child = TransformComponent::from_trs(v3(0.0, 1.0, 0.0), Quat::identity(), Vec3::one());
    child.parent = Some(root);
    scene.create_entity(child);
    Prefab { root, scene }
}

#[test]
fn map_with_prefab_and_empty_child() {
    let mut root = Node::default();
    root.prefab_id = Some(0);
    root.translation = v3(5.0, 0.0, 0.0);
    root.children.push(Node::default());
    let map = SceneMap { prefabs: vec!["assets/gltf/monkey.glb".to_string()], root };
    let mut scene = Scene::new();
    let r = scene.load_map(&vec![small_prefab()], &map).unwrap();
    assert_eq!(scene.len(), 3);
    let t = scene.transform(r).unwrap();
    assert_eq!(t.translation, v3(5.0, 0.0, 0.0));
    assert_eq!(t.parent, None);
    let empty = scene.entity_at(2);
    assert_eq!(scene.transform(empty).unwrap().parent, Some(r));
    resolve_transforms(&mut scene);
    let copied_child = scene.entity_at(1);
    assert_eq!(scene.transform(copied_child).unwrap().parent, Some(r));
    let w = scene.transform(copied_child).unwrap().world;
    let expected = glam::Mat4::from_translation(glam::vec3(5.0, 1.0, 0.0));
    let got: Vec<f32> = w.cols.iter().map(|b| f32::from_bits(*b)).collect();
    assert_eq!(got, expected.to_cols_array().to_vec());
}

#[test]
fn map_with_unknown_prefab_fails() {
    let mut root = Node::default();
    root.prefab_id = Some(3);
    let map = SceneMap { prefabs: vec![], root };
    let mut scene = Scene::new();
    assert_eq!(scene.load_map(&vec![small_prefab()], &map), Err(MapError::UnknownPrefab));
}

#[test]
fn map_with_bad_prefab_fails() {
    let mut root = Node::default();
    root.prefab_id = Some(0);
    let map = SceneMap { prefabs: vec![], root };
    let p = Prefab { root: EntityKey { bits: (1u64 << 32) | 42 }, scene: small_prefab().scene };
    let mut scene = Scene::new();
    assert_eq!(scene.load_map(&vec![p], &map), Err(MapError::Graft(GraftError::RootMissing)));
}

#[test]
fn map_nested_too_deep_fails() {
    let mut node = Node::default();
    for _ in 0..MAX_PARENT_DEPTH {
        let mut parent = Node::default();
        parent.children.push(node);
        node = parent;
    }
    let map = SceneMap { prefabs: vec![], root: node };
    let mut scene = Scene::new();
    assert_eq!(scene.load_map(&vec![], &map), Err(MapError::TooDeep));
}

#[test]
fn map_nested_to_the_limit_loads() {
    let mut node = Node::default();
    for _ in 0..(MAX_PARENT_DEPTH - 1) {
        let mut parent = Node::default();
        parent.children.push(node);
        node = parent;
    }
    let map = SceneMap { prefabs: vec![], root: node };
    let mut scene = Scene::new();
    assert!(scene.load_map(&vec![], &map).is_ok());
    assert_eq!(scene.len(), MAX_PARENT_DEPTH);
    assert!(resolve_transforms(&mut scene).is_empty());
}
