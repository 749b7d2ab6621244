use scene_graph::{
    resolve_transforms, DetachCause, EntityKey, Mat4, Quat, Scene, TransformComponent,
    TransformSystem, Vec3, MAX_PARENT_DEPTH,
};

fn v3(x: f32, y: f32, z: f32) -> Vec3 {
    Vec3 { bits: [x.to_bits(), y.to_bits(), z.to_bits()] }
}

fn quat(q: glam::Quat) -> Quat {
    let a: [f32; 4] = q.into();
    Quat { bits: [a[0].to_bits(), a[1].to_bits(), a[2].to_bits(), a[3].to_bits()] }
}

fn to_glam(m: &Mat4) -> glam::Mat4 {
    let mut a = [0.0f32; 16];
    for i in 0..16 {
        a[i] = f32::from_bits(m.cols[i]);
    }
    glam::Mat4::from_cols_array(&a)
}

fn at(translation: Vec3, parent: Option<EntityKey>) -> TransformComponent {
    let mut t = TransformComponent::from_trs(translation, Quat::identity(), Vec3::one());
    t.parent = parent;
    t
}

fn world(scene: &Scene, k: EntityKey) -> glam::Mat4 {
    to_glam(&scene.transform(k).unwrap().world)
}

fn chain() -> (Scene, EntityKey, EntityKey, EntityKey) {
    let mut scene = Scene::new();
    let e0 = scene.create_entity(TransformComponent::default());
    let e1 = scene.create_entity(at(v3(1.0, 0.0, 0.0), Some(e0)));
    let e2 = scene.create_entity(at(v3(0.0, 1.0, 0.0), Some(e1)));
    (scene, e0, e1, e2)
}

#[test]
fn chain_of_three_resolves_to_translations() {
    let (mut scene, e0, e1, e2) = chain();
    let report = resolve_transforms(&mut scene);
    assert!(report.is_empty());
    assert_eq!(world(&scene, e0), glam::Mat4::identity());
    assert_eq!(world(&scene, e1), glam::Mat4::from_translation(glam::vec3(1.0, 0.0, 0.0)));
    assert_eq!(world(&scene, e2), glam::Mat4::from_translation(glam::vec3(1.0, 1.0, 0.0)));
}

#[test]
fn reparenting_into_a_cycle_detaches_exactly_one() {
    let (mut scene, _e0, e1, e2) = chain();
    resolve_transforms(&mut scene);
    assert!(scene.set_parent(e1, Some(e2)));
    let report = resolve_transforms(&mut scene);
    let p1 = scene.transform(e1).unwrap().parent;
    let p2 = scene.transform(e2).unwrap().parent;
    assert_eq!(p1.is_none() as u32 + p2.is_none() as u32, 1);
    assert_eq!(report.len(), 1);
    assert_eq!(report[0].cause, DetachCause::Cycle);
    // the detached entity is a root for good; the other hangs from it
    let detached = report[0].entity;
    let other = if detached == e1 { e2 } else { e1 };
    assert_eq!(scene.transform(other).unwrap().parent, Some(detached));
    let again = resolve_transforms(&mut scene);
    assert!(again.is_empty());
}

#[test]
fn resolving_twice_gives_identical_worlds() {
    let (mut scene, e0, e1, e2) = chain();
    let mut t = scene.transform(e0).unwrap();
    t.rotation = quat(glam::Quat::from_rotation_y(0.7));
    t.scale = v3(2.0, 0.5, 3.0);
    scene.set_transform(e0, t);
    resolve_transforms(&mut scene);
    let first: Vec<TransformComponent> = [e0, e1, e2].iter().map(|k| scene.transform(*k).unwrap()).collect();
    resolve_transforms(&mut scene);
    let second: Vec<TransformComponent> = [e0, e1, e2].iter().map(|k| scene.transform(*k).unwrap()).collect();
    for (a, b) in first.iter().zip(second.iter()) {
        assert_eq!(a.world.cols, b.world.cols);
        assert_eq!(a.local.cols, b.local.cols);
    }
}

#[test]
fn root_world_equals_local() {
    let mut scene = Scene::new();
    let r = scene.create_entity(TransformComponent::from_trs(
        v3(3.0, -2.0, 5.0),
        quat(glam::Quat::from_rotation_z(1.1)),
        v3(1.5, 1.5, 1.5),
    ));
    resolve_transforms(&mut scene);
    let t = scene.transform(r).unwrap();
    assert_eq!(t.world, t.local);
    let expected = glam::Mat4::from_scale_rotation_translation(
        glam::vec3(1.5, 1.5, 1.5),
        glam::Quat::from_rotation_z(1.1),
        glam::vec3(3.0, -2.0, 5.0),
    );
    assert_eq!(to_glam(&t.local), expected);
}

#[test]
fn child_world_is_parent_world_times_local() {
    let mut scene = Scene::new();
    let p = scene.create_entity(TransformComponent::from_trs(
        v3(1.0, 2.0, 3.0),
        quat(glam::Quat::from_rotation_x(0.3)),
        v3(2.0, 2.0, 2.0),
    ));
    let mut ct = TransformComponent::from_trs(v3(0.5, 0.0, -1.0), quat(glam::Quat::from_rotation_y(0.9)), v3(1.0, 1.0, 1.0));
    ct.parent = Some(p);
    let c = scene.create_entity(ct);
    resolve_transforms(&mut scene);
    let pt = scene.transform(p).unwrap();
    let tc = scene.transform(c).unwrap();
    assert_eq!(tc.parent, Some(p));
    assert_eq!(to_glam(&tc.world), to_glam(&pt.world).mul_mat4(&to_glam(&tc.local)));
}

#[test]
fn child_listed_before_parent_still_composes() {
    let mut scene = Scene::new();
    let c = scene.create_entity(at(v3(0.0, 0.0, 1.0), None));
    let p = scene.create_entity(at(v3(4.0, 0.0, 0.0), None));
    scene.set_parent(c, Some(p));
    let report = TransformSystem::update(&mut scene);
    assert!(report.is_empty());
    assert_eq!(world(&scene, c), glam::Mat4::from_translation(glam::vec3(4.0, 0.0, 1.0)));
}

#[test]
fn mutual_parents_leave_one_root() {
    let mut scene = Scene::new();
    let a = scene.create_entity(at(v3(1.0, 0.0, 0.0), None));
    let b = scene.create_entity(at(v3(0.0, 2.0, 0.0), Some(a)));
    scene.set_parent(a, Some(b));
    let report = resolve_transforms(&mut scene);
    let pa = scene.transform(a).unwrap().parent;
    let pb = scene.transform(b).unwrap().parent;
    assert!(pa.is_none() || pb.is_none());
    assert_eq!(report.len(), 1);
    for k in [a, b] {
        let t = scene.transform(k).unwrap();
        if t.parent.is_none() {
            assert_eq!(t.world, t.local);
        }
        for bits in t.world.cols.iter() {
            assert!(f32::from_bits(*bits).is_finite());
        }
    }
}

#[test]
fn missing_parent_detaches() {
    let mut scene = Scene::new();
    let ghost = EntityKey { bits: (1u64 << 32) | 999 };
    let e = scene.create_entity(at(v3(1.0, 1.0, 1.0), Some(ghost)));
    let report = resolve_transforms(&mut scene);
    assert_eq!(report.len(), 1);
    assert_eq!(report[0].entity, e);
    assert_eq!(report[0].cause, DetachCause::MissingParent);
    let t = scene.transform(e).unwrap();
    assert_eq!(t.parent, None);
    assert_eq!(t.world, t.local);
}

#[test]
fn overly_deep_chain_is_cut() {
    let mut scene = Scene::new();
    let mut keys = vec![scene.create_entity(TransformComponent::default())];
    for _ in 0..(MAX_PARENT_DEPTH + 5) {
        let last = *keys.last().unwrap();
        keys.push(scene.create_entity(at(v3(1.0, 0.0, 0.0), Some(last))));
    }
    let report = resolve_transforms(&mut scene);
    assert_eq!(report.len(), 1);
    assert_eq!(report[0].cause, DetachCause::TooDeep);
    assert_eq!(report[0].entity, keys[MAX_PARENT_DEPTH + 1]);
    assert_eq!(scene.transform(keys[MAX_PARENT_DEPTH]).unwrap().parent, Some(keys[MAX_PARENT_DEPTH - 1]));
    assert_eq!(
        world(&scene, keys[MAX_PARENT_DEPTH]),
        glam::Mat4::from_translation(glam::vec3(MAX_PARENT_DEPTH as f32, 0.0, 0.0))
    );
}

#[test]
fn keys_are_fresh_and_ordered() {
    let mut scene = Scene::new();
    let a = scene.create_entity(TransformComponent::default());
    let b = scene.create_entity(TransformComponent::default());
    assert_ne!(a, b);
    assert_eq!(scene.len(), 2);
    assert_eq!(scene.entity_at(0), a);
    assert_eq!(scene.entity_at(1), b);
    let other = Scene::new();
    assert!(other.transform(a).is_none());
}

#[test]
fn nan_entries_are_made_canonical() {
    let mut m = Mat4::identity();
    m.cols[3] = 0xFFC0_0001;
    m.cols[7] = f32::INFINITY.to_bits();
    let c = scene_graph::math::canonical(m);
    assert_eq!(c.cols[3], 0x7FC0_0000);
    assert_eq!(c.cols[7], f32::INFINITY.to_bits());
    assert_eq!(c.cols[0], Mat4::identity().cols[0]);

    let mut scene = Scene::new();
    let e = scene.create_entity(TransformComponent::from_trs(
        v3(0.0, 0.0, 0.0),
        Quat::identity(),
        v3(f32::INFINITY, 1.0, 1.0),
    ));
    resolve_transforms(&mut scene);
    let t = scene.transform(e).unwrap();
    for bits in t.local.cols.iter() {
        let x = f32::from_bits(*bits);
        assert!(!x.is_nan() || *bits == 0x7FC0_0000);
    }
    assert_eq!(t.world, t.local);
}
