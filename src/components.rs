//! Per-entity component records.
use vstd::prelude::*;
use crate::key::EntityKey;
use crate::math::{Mat4, Quat, Vec3, Vec4, perspective_lh, perspective_shape, identity_cols, ONE_BITS};
use crate::store::{primitive_items, primitives_from_vec, empty_primitives, clone_primitives, primitive_at, primitive_count, PrimitiveList};

verus! {

/// Position of one entity: its local translation, rotation and scale, the
/// matrices derived from them, and a weak reference to its parent.
#[derive(Clone, Copy, Debug, PartialEq)]
pub struct TransformComponent {
    pub translation: Vec3,
    pub scale: Vec3,
    pub rotation: Quat,
    pub local: Mat4,
    pub world: Mat4,
    pub parent: Option<EntityKey>,
}

pub open spec fn is_identity_trs(t: TransformComponent) -> bool {
    &&& t.translation.bits@ == seq![0u32, 0, 0]
    &&& t.scale.bits@ == seq![ONE_BITS, ONE_BITS, ONE_BITS]
    &&& t.rotation.bits@ == seq![0u32, 0, 0, ONE_BITS]
    &&& t.local.cols@ == identity_cols()
    &&& t.world.cols@ == identity_cols()
}

impl Default for TransformComponent {
    fn default() -> (r: Self)
        ensures
            is_identity_trs(r),
            r.parent.is_none(),
    {
        TransformComponent {
            translation: Vec3::zero(),
            scale: Vec3::one(),
            rotation: Quat::identity(),
            local: Mat4::identity(),
            world: Mat4::identity(),
            parent: None,
        }
    }
}

impl TransformComponent {
    /// A root transform with the given translation, rotation and scale; its
    /// matrices are identity until the next resolution.
    pub fn from_trs(translation: Vec3, rotation: Quat, scale: Vec3) -> (r: Self)
        ensures
            r.translation == translation,
            r.rotation == rotation,
            r.scale == scale,
            r.local.cols@ == identity_cols(),
            r.world.cols@ == identity_cols(),
            r.parent.is_none(),
    {
        TransformComponent {
            translation,
            scale,
            rotation,
            local: Mat4::identity(),
            world: Mat4::identity(),
            parent: None,
        }
    }
}

/// Surface parameters of a primitive: a constant color and, optionally, the
/// handle of a color texture.
#[derive(Clone, Copy, Debug, PartialEq)]
pub struct PbrMaterial {
    pub color: Vec4,
    pub color_texture: Option<usize>,
}

/// One drawable part of a mesh: geometry and pipeline handles plus material.
#[derive(Clone, Copy, Debug, PartialEq)]
pub struct MeshPrimitive {
    pub geometry_id: usize,
    pub pipeline_id: usize,
    pub material: PbrMaterial,
}

/// Pipeline selection for an entity.
#[derive(Clone, Copy, Debug, PartialEq, Eq)]
pub struct MaterialComponent {
    pub pipeline_id: usize,
}

/// The ordered primitives that make an entity visible.
#[derive(Debug)]
pub struct MeshComponent {
    pub primitives: PrimitiveList,
}

impl View for MeshComponent {
    type V = Seq<MeshPrimitive>;

    open spec fn view(&self) -> Seq<MeshPrimitive> {
        primitive_items(self.primitives)
    }
}

impl Clone for MeshComponent {
    fn clone(&self) -> (r: Self)
        ensures
            r@ == self@,
    {
        MeshComponent { primitives: clone_primitives(&self.primitives) }
    }
}

impl MeshComponent {
    pub fn new() -> (r: Self)
        ensures
            r@ == Seq::<MeshPrimitive>::empty(),
    {
        MeshComponent { primitives: empty_primitives() }
    }

    pub fn from_primitives(primitives: Vec<MeshPrimitive>) -> (r: Self)
        ensures
            r@ == primitives@,
    {
        MeshComponent { primitives: primitives_from_vec(primitives) }
    }

    pub fn len(&self) -> (r: usize)
        ensures
            r == self@.len(),
    {
        primitive_count(&self.primitives)
    }

    pub fn primitive(&self, i: usize) -> (r: MeshPrimitive)
        requires
            i < self@.len(),
        ensures
            r == self@[i as int],
    {
        primitive_at(&self.primitives, i)
    }

    /// The primitives, in order.
    pub fn primitives_vec(&self) -> (r: Vec<MeshPrimitive>)
        ensures
            r@ == self@,
    {
        let n = primitive_count(&self.primitives);
        let mut out: Vec<MeshPrimitive> = Vec::new();
        let mut i: usize = 0;
        while i < n
            invariant
                n == self@.len(),
                i <= n,
                out@ == self@.take(i as int),
            decreases n - i,
        {
            out.push(primitive_at(&self.primitives, i));
            proof {
                assert(self@.take(i + 1) =~= self@.take(i as int).push(self@[i as int]));
            }
            i += 1;
        }
        proof {
            assert(self@.take(n as int) =~= self@);
        }
        out
    }
}

/// A perspective camera; `proj` is the left-handed projection that glam
/// computes from the four other fields.
#[derive(Clone, Copy, Debug, PartialEq)]
pub struct CameraComponent {
    pub fov: u32,
    pub aspect: u32,
    pub near: u32,
    pub far: u32,
    pub proj: Mat4,
}

impl CameraComponent {
    pub fn new(fov: u32, aspect: u32, near: u32, far: u32) -> (r: Self)
        ensures
            r.fov == fov,
            r.aspect == aspect,
            r.near == near,
            r.far == far,
            perspective_shape(r.proj),
    {
        CameraComponent { fov, aspect, near, far, proj: perspective_lh(fov, aspect, near, far) }
    }

    pub fn update_projection_matrix(&mut self)
        ensures
            final(self).fov == old(self).fov,
            final(self).aspect == old(self).aspect,
            final(self).near == old(self).near,
            final(self).far == old(self).far,
            perspective_shape(final(self).proj),
    {
        self.proj = perspective_lh(self.fov, self.aspect, self.near, self.far);
    }
}

/// Orientation state of the player entity: yaw and pitch accumulators.
#[derive(Clone, Copy, Debug, PartialEq)]
pub struct PlayerComponent {
    pub x: u32,
    pub y: u32,
}

impl Default for PlayerComponent {
    fn default() -> (r: Self)
        ensures
            r.x == 0,
            r.y == 0,
    {
        PlayerComponent { x: 0, y: 0 }
    }
}

} // verus!
