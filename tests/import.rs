use scene_graph::{
    build_prefab, graft, resolve_transforms, ImportError, ImportNode, MeshComponent, MeshPrimitive,
    PbrMaterial, Quat, Scene, TransformComponent, Vec3, Vec4, MAX_PARENT_DEPTH,
};

fn v3(x: f32, y: f32, z: f32) -> Vec3 {
    Vec3 { bits: [x.to_bits(), y.to_bits(), z.to_bits()] }
}

fn node(x: f32, mesh: Option<usize>, children: Vec<ImportNode>) -> ImportNode {
    ImportNode { translation: v3(x, 0.0, 0.0), rotation: Quat::identity(), scale: Vec3::one(), mesh, children }
}

fn mesh(geometry_id: usize) -> MeshComponent {
    MeshComponent::from_primitives(vec![MeshPrimitive {
        geometry_id,
        pipeline_id: 0,
        material: PbrMaterial { color: Vec4 { bits: [0; 4] }, color_texture: None },
    }])
}

#[test]
fn imported_tree_becomes_a_graftable_prefab() {
    let roots = vec![node(1.0, Some(0), vec![node(2.0, Some(0), vec![])]), node(3.0, Some(1), vec![])];
    let meshes = vec![mesh(10), mesh(11)];
    let prefab = build_prefab(&roots, &meshes).unwrap();
    let s = &prefab.scene;
    assert_eq!(s.len(), 4);
    assert_eq!(s.entity_at(0), prefab.root);
    assert_eq!(s.transform(prefab.root).unwrap(), TransformComponent::default());
    let (a, b, c) = (s.entity_at(1), s.entity_at(2), s.entity_at(3));
    assert_eq!(s.transform(a).unwrap().parent, Some(prefab.root));
    assert_eq!(s.transform(b).unwrap().parent, Some(a));
    assert_eq!(s.transform(c).unwrap().parent, Some(prefab.root));
    assert_eq!(s.mesh(b).unwrap().primitive(0).geometry_id, 10);
    assert_eq!(s.mesh(c).unwrap().primitive(0).geometry_id, 11);
    assert!(s.mesh(prefab.root).is_none());

    let mut scene = Scene::new();
    let r = graft(&mut scene, &prefab).unwrap();
    resolve_transforms(&mut scene);
    assert_eq!(scene.transform(r).unwrap().parent, None);
    let world = scene.transform(scene.entity_at(2)).unwrap().world;
    let x = f32::from_bits(world.cols[12]);
    assert_eq!(x, 3.0);
}

#[test]
fn unknown_mesh_index_is_refused() {
    let roots = vec![node(0.0, Some(2), vec![])];
    assert_eq!(build_prefab(&roots, &vec![mesh(1)]).err(), Some(ImportError::UnknownMesh));
}

#[test]
fn overly_nested_import_is_refused() {
    let mut n = node(0.0, None, vec![]);
    for _ in 0..MAX_PARENT_DEPTH {
        n = node(0.0, None, vec![n]);
    }
    assert_eq!(build_prefab(&vec![n], &vec![]).err(), Some(ImportError::TooDeep));
}
