use scene_graph::{
    camera_view_proj, extend_data_color, graft, pack_draws, prepare_texture, resolve_transforms,
    CameraComponent, EntityKey, GpuTextureFormat, GraftError, LoaderError, Mat4, MaterialComponent,
    MeshComponent, MeshPrimitive, PbrMaterial, PixelFormat, PlayerComponent, PlayerSystem, Prefab,
    Quat, ResourceTables, Scene, TextureBinding, TransformComponent, UniformLimits, Vec3, Vec4,
};

fn v3(x: f32, y: f32, z: f32) -> Vec3 {
    Vec3 { bits: [x.to_bits(), y.to_bits(), z.to_bits()] }
}

fn color(r: f32) -> Vec4 {
    Vec4 { bits: [r.to_bits(), 0.0f32.to_bits(), 0.0f32.to_bits(), 1.0f32.to_bits()] }
}

fn to_glam(m: &Mat4) -> glam::Mat4 {
    let mut a = [0.0f32; 16];
    for i in 0..16 {
        a[i] = f32::from_bits(m.cols[i]);
    }
    glam::Mat4::from_cols_array(&a)
}

fn at(translation: Vec3, parent: Option<EntityKey>) -> TransformComponent {
    let mut t = TransformComponent::from_trs(translation, Quat::identity(), Vec3::one());
    t.parent = parent;
    t
}

fn prim(geometry_id: usize, texture: Option<usize>, r: f32) -> MeshPrimitive {
    MeshPrimitive {
        geometry_id,
        pipeline_id: 0,
        material: PbrMaterial { color: color(r), color_texture: texture },
    }
}

fn all_registered() -> ResourceTables {
    ResourceTables { geometries: vec![true; 8], pipelines: vec![true], textures: vec![true; 2] }
}

fn prefab() -> Prefab {
    let mut scene = Scene::new();
    let root = scene.create_entity(TransformComponent::default());
    let child = scene.create_entity(at(v3(0.0, 0.0, 2.0), Some(root)));
    scene.insert_mesh(child, MeshComponent::from_primitives(vec![prim(1, None, 0.5)]));
    scene.insert_camera(child, CameraComponent::new(0.8f32.to_bits(), 1.5f32.to_bits(), 0.1f32.to_bits(), 100.0f32.to_bits()));
    Prefab { root, scene }
}

#[test]
fn grafting_twice_gives_disjoint_isolated_copies() {
    let p = prefab();
    let mut scene = Scene::new();
    let r1 = graft(&mut scene, &p).unwrap();
    let r2 = graft(&mut scene, &p).unwrap();
    assert_ne!(r1, r2);
    assert_eq!(scene.len(), 4);
    let (a_root, a_child, b_root, b_child) =
        (scene.entity_at(0), scene.entity_at(1), scene.entity_at(2), scene.entity_at(3));
    assert_eq!((a_root, b_root), (r1, r2));
    assert_eq!(scene.transform(a_child).unwrap().parent, Some(a_root));
    assert_eq!(scene.transform(b_child).unwrap().parent, Some(b_root));
    assert_eq!(scene.mesh(b_child).unwrap().primitives_vec(), vec![prim(1, None, 0.5)]);
    assert!(scene.camera(a_child).is_some() && scene.camera(b_child).is_some());

    let mut untouched = Scene::new();
    graft(&mut untouched, &p).unwrap();
    graft(&mut untouched, &p).unwrap();
    resolve_transforms(&mut untouched);

    let mut t = scene.transform(r1).unwrap();
    t.translation = v3(10.0, 0.0, 0.0);
    scene.set_transform(r1, t);
    resolve_transforms(&mut scene);
    assert_eq!(scene.transform(b_child).unwrap().world, untouched.transform(untouched.entity_at(3)).unwrap().world);
    assert_eq!(
        to_glam(&scene.transform(a_child).unwrap().world),
        glam::Mat4::from_translation(glam::vec3(10.0, 0.0, 2.0))
    );
    assert_eq!(
        to_glam(&scene.transform(b_child).unwrap().world),
        glam::Mat4::from_translation(glam::vec3(0.0, 0.0, 2.0))
    );
}

#[test]
fn graft_refuses_parent_after_child() {
    let mut bad = Scene::new();
    let child = bad.create_entity(TransformComponent::default());
    let parent = bad.create_entity(TransformComponent::default());
    bad.set_parent(child, Some(parent));
    let mut scene = Scene::new();
    scene.create_entity(TransformComponent::default());
    let r = graft(&mut scene, &Prefab { root: parent, scene: bad });
    assert_eq!(r, Err(GraftError::ParentOutOfOrder));
    assert_eq!(scene.len(), 1);
}

#[test]
fn graft_refuses_missing_root() {
    let p = prefab();
    let mut scene = Scene::new();
    let r = scene.copy_from(&p.scene, EntityKey { bits: (1u64 << 32) | 77 });
    assert_eq!(r, Err(GraftError::RootMissing));
    assert_eq!(scene.len(), 0);
}

#[test]
fn packing_over_capacity_drops_the_excess() {
    let mut scene = Scene::new();
    let mut keys = Vec::new();
    for i in 0..5 {
        let k = scene.create_entity(at(v3(i as f32, 0.0, 0.0), None));
        scene.insert_mesh(k, MeshComponent::from_primitives(vec![prim(0, None, 0.1), prim(1, Some(1), 0.2)]));
        keys.push(k);
    }
    resolve_transforms(&mut scene);
    let limits = UniformLimits { alignment: 256, max_slots: 3 };
    let p = pack_draws(&scene, &all_registered(), limits);
    assert_eq!(p.transform_writes.len(), 3);
    assert_eq!(p.draws.len(), 3);
    assert_eq!(p.primitive_writes.len(), 3);
    assert_eq!(p.dropped, 7);
    assert_eq!(p.missing, 0);
    assert_eq!(p.draws[0].transform_offset, 0);
    assert_eq!(p.draws[1].transform_offset, 0);
    assert_eq!(p.draws[2].transform_offset, 256);
    assert_eq!(p.draws[2].primitive_offset, 512);
    assert_eq!(p.draws[0].texture, TextureBinding::Placeholder);
    assert_eq!(p.draws[1].texture, TextureBinding::Bound(1));
    assert_eq!(p.transform_writes[2].offset, 512);
    assert_eq!(p.transform_writes[1].model, scene.transform(keys[1]).unwrap().world);
    assert_eq!(p.primitive_writes[1].color, color(0.2));
}

#[test]
fn packing_within_capacity_draws_everything_in_order() {
    let mut scene = Scene::new();
    let a = scene.create_entity(TransformComponent::default());
    let _plain = scene.create_entity(TransformComponent::default());
    let b = scene.create_entity(TransformComponent::default());
    scene.insert_mesh(a, MeshComponent::from_primitives(vec![prim(2, None, 0.3)]));
    scene.insert_mesh(b, MeshComponent::from_primitives(vec![prim(3, None, 0.4), prim(4, None, 0.6)]));
    let p = pack_draws(&scene, &all_registered(), UniformLimits { alignment: 256, max_slots: 32 });
    let geometries: Vec<usize> = p.draws.iter().map(|d| d.geometry_id).collect();
    assert_eq!(geometries, vec![2, 3, 4]);
    assert_eq!(p.transform_writes.len(), 2);
    assert_eq!(p.dropped, 0);
}

#[test]
fn unregistered_resources_are_skipped() {
    let mut scene = Scene::new();
    let a = scene.create_entity(TransformComponent::default());
    scene.insert_mesh(a, MeshComponent::from_primitives(vec![
        prim(7, None, 0.1),
        prim(0, Some(5), 0.1),
        prim(1, Some(0), 0.1),
    ]));
    let res = ResourceTables { geometries: vec![true, true], pipelines: vec![true], textures: vec![true] };
    let p = pack_draws(&scene, &res, UniformLimits { alignment: 256, max_slots: 8 });
    assert_eq!(p.missing, 2);
    assert_eq!(p.draws.len(), 1);
    assert_eq!(p.draws[0].geometry_id, 1);
    assert_eq!(p.draws[0].texture, TextureBinding::Bound(0));
    assert_eq!(p.draws[0].primitive_offset, 0);
}

#[test]
fn camera_view_projection() {
    let mut scene = Scene::new();
    let cam = scene.create_entity(at(v3(0.0, 0.0, -5.0), None));
    let camera = CameraComponent::new(0.8f32.to_bits(), 1.5f32.to_bits(), 0.1f32.to_bits(), 100.0f32.to_bits());
    scene.insert_camera(cam, camera);
    resolve_transforms(&mut scene);
    let vp = camera_view_proj(&scene, cam).unwrap();
    let proj = glam::Mat4::perspective_lh(0.8, 1.5, 0.1, 100.0);
    assert_eq!(to_glam(&camera.proj), proj);
    let view = glam::Mat4::from_translation(glam::vec3(0.0, 0.0, -5.0)).inverse();
    assert_eq!(to_glam(&vp), proj.mul_mat4(&view));
    let plain = scene.create_entity(TransformComponent::default());
    assert!(camera_view_proj(&scene, plain).is_none());
}

#[test]
fn projection_follows_aspect() {
    let mut camera = CameraComponent::new(0.8f32.to_bits(), 1.5f32.to_bits(), 0.1f32.to_bits(), 100.0f32.to_bits());
    camera.aspect = 2.0f32.to_bits();
    camera.update_projection_matrix();
    assert_eq!(to_glam(&camera.proj), glam::Mat4::perspective_lh(0.8, 2.0, 0.1, 100.0));
}

#[test]
fn extend_rgb_to_rgba() {
    assert_eq!(extend_data_color(&[1, 2, 3, 4, 5, 6], 3, 4), vec![1, 2, 3, 255, 4, 5, 6, 255]);
    assert_eq!(extend_data_color(&[1, 2, 3, 4], 3, 4), vec![1, 2, 3, 255, 4, 255]);
    assert_eq!(extend_data_color(&[], 3, 4), Vec::<u8>::new());
    assert_eq!(extend_data_color(&[9, 9, 9, 9, 9, 9], 6, 8), vec![9, 9, 9, 9, 9, 9, 255, 255]);
}

#[test]
fn texture_formats() {
    let (f, data) = prepare_texture(PixelFormat::B8G8R8, &[1, 2, 3]);
    assert_eq!(f, GpuTextureFormat::Bgra8Unorm);
    assert_eq!(data, Some(vec![1, 2, 3, 255]));
    assert_eq!(prepare_texture(PixelFormat::R8G8B8A8, &[1, 2, 3, 4]), (GpuTextureFormat::Rgba8Unorm, None));
    assert_eq!(prepare_texture(PixelFormat::R16, &[1, 2]), (GpuTextureFormat::R16Uint, None));
    assert_eq!(prepare_texture(PixelFormat::R16G16B16, &[0; 6]).1.unwrap().len(), 8);
}

#[test]
fn player_setup_adds_a_root_with_a_player() {
    let mut scene = Scene::new();
    let p = PlayerSystem::setup(&mut scene);
    assert_eq!(scene.player(p), Some(PlayerComponent { x: 0, y: 0 }));
    assert_eq!(scene.transform(p).unwrap().parent, None);
    assert_eq!(scene.transform(p).unwrap(), TransformComponent::default());
}

#[test]
fn components_attach_only_to_entities() {
    let mut scene = Scene::new();
    let stranger = EntityKey { bits: (1u64 << 32) | 5 };
    assert!(!scene.insert_mesh(stranger, MeshComponent::new()));
    let k = scene.create_entity(TransformComponent::default());
    assert!(scene.mesh(k).is_none());
    assert!(scene.insert_mesh(k, MeshComponent::from_primitives(vec![prim(1, None, 1.0)])));
    let copy = scene.mesh(k).unwrap().clone();
    assert_eq!(copy.primitives_vec(), vec![prim(1, None, 1.0)]);
    assert_eq!(MaterialComponent { pipeline_id: 3 }.pipeline_id, 3);
}

#[test]
fn loader_error_message() {
    assert_eq!(LoaderError.message(), "Failed to load resource");
}
