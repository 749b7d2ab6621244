//! Per-frame packing of draw data into fixed-capacity, dynamic-offset
//! uniform buffers.
//!
//! Each entity with a mesh takes the next transform slot and each of its
//! drawable primitives the next primitive slot; slot `i` starts at byte
//! `i * alignment`. Both buffers hold `max_slots` slots. What does not fit is
//! dropped and counted, and a primitive whose geometry, pipeline or texture
//! is not registered is skipped and counted: packing never fails.
use vstd::prelude::*;
use crate::components::{MeshPrimitive, TransformComponent};
use crate::math::{inverse_mat4, mat_inverse, mat_product, mul_mat4, Mat4, Vec4};
use crate::key::{lemma_live_key_normalized, EntityKey};
use crate::scene::Scene;
use crate::store::{primitive_at, primitive_count};

verus! {

/// What the device allows for dynamic-offset uniform bindings.
#[derive(Clone, Copy, Debug, PartialEq, Eq)]
pub struct UniformLimits {
    /// Minimum dynamic-offset alignment in bytes; also the slot stride.
    pub alignment: u32,
    /// Slots in each of the two uniform buffers.
    pub max_slots: u32,
}

/// Which resource handles are registered: handle `i` is usable when entry
/// `i` exists and is true.
#[derive(Clone, Debug, PartialEq, Eq)]
pub struct ResourceTables {
    pub geometries: Vec<bool>,
    pub pipelines: Vec<bool>,
    pub textures: Vec<bool>,
}

/// The texture bound for a draw: the primitive's own, or the 1x1 placeholder.
#[derive(Clone, Copy, Debug, PartialEq, Eq)]
pub enum TextureBinding {
    Bound(usize),
    Placeholder,
}

/// One draw call: what to bind and where its uniform data lies.
#[derive(Clone, Copy, Debug, PartialEq, Eq)]
pub struct DrawDescriptor {
    pub pipeline_id: usize,
    pub geometry_id: usize,
    pub transform_offset: u64,
    pub primitive_offset: u64,
    pub texture: TextureBinding,
}

/// The world matrix to upload into the transform buffer at `offset`.
#[derive(Clone, Copy, Debug, PartialEq)]
pub struct TransformWrite {
    pub offset: u64,
    pub model: Mat4,
}

/// The color to upload into the primitive buffer at `offset`.
#[derive(Clone, Copy, Debug, PartialEq)]
pub struct PrimitiveWrite {
    pub offset: u64,
    pub color: Vec4,
}

/// Everything one frame needs: draws in order, buffer writes, and how many
/// primitives were dropped for lack of slots or skipped for a missing resource.
#[derive(Clone, Debug, PartialEq)]
pub struct FramePacket {
    pub draws: Vec<DrawDescriptor>,
    pub transform_writes: Vec<TransformWrite>,
    pub primitive_writes: Vec<PrimitiveWrite>,
    pub dropped: usize,
    pub missing: usize,
}

pub open spec fn registered(table: Seq<bool>, id: usize) -> bool {
    id < table.len() && table[id as int]
}

/// Every handle the primitive uses is registered.
pub open spec fn prim_ready(p: MeshPrimitive, res: ResourceTables) -> bool {
    &&& registered(res.geometries@, p.geometry_id)
    &&& registered(res.pipelines@, p.pipeline_id)
    &&& match p.material.color_texture {
        None => true,
        Some(t) => registered(res.textures@, t),
    }
}

/// The primitives that can be drawn, in order.
pub open spec fn ready_prims(prims: Seq<MeshPrimitive>, res: ResourceTables) -> Seq<MeshPrimitive>
    decreases prims.len(),
{
    if prims.len() == 0 {
        Seq::empty()
    } else {
        let rest = ready_prims(prims.drop_last(), res);
        if prim_ready(prims.last(), res) {
            rest.push(prims.last())
        } else {
            rest
        }
    }
}

/// World matrix and primitives of each entity with a mesh, in insertion order.
pub open spec fn mesh_entries(
    keys: Seq<u64>,
    tf: Map<u64, TransformComponent>,
    meshes: Map<u64, Seq<MeshPrimitive>>,
) -> Seq<(Mat4, Seq<MeshPrimitive>)>
    decreases keys.len(),
{
    if keys.len() == 0 {
        Seq::empty()
    } else {
        let rest = mesh_entries(keys.drop_last(), tf, meshes);
        if meshes.contains_key(keys.last()) {
            rest.push((tf[keys.last()].world, meshes[keys.last()]))
        } else {
            rest
        }
    }
}

/// Drawable primitives of the first `upto` entries, each with its entry's
/// transform slot.
pub open spec fn candidates(
    entries: Seq<(Mat4, Seq<MeshPrimitive>)>,
    res: ResourceTables,
    upto: nat,
) -> Seq<(nat, MeshPrimitive)>
    decreases upto,
{
    if upto == 0 {
        Seq::empty()
    } else {
        let e = (upto - 1) as nat;
        candidates(entries, res, e) + ready_prims(entries[e as int].1, res).map_values(
            |p: MeshPrimitive| (e, p),
        )
    }
}

/// Drawable primitives over all entries.
pub open spec fn ready_total(entries: Seq<(Mat4, Seq<MeshPrimitive>)>, res: ResourceTables) -> nat
    decreases entries.len(),
{
    if entries.len() == 0 {
        0
    } else {
        ready_total(entries.drop_last(), res) + ready_prims(entries.last().1, res).len()
    }
}

/// Primitives over all entries that use an unregistered handle.
pub open spec fn unready_total(entries: Seq<(Mat4, Seq<MeshPrimitive>)>, res: ResourceTables) -> nat
    decreases entries.len(),
{
    if entries.len() == 0 {
        0
    } else {
        unready_total(entries.drop_last(), res) + (entries.last().1.len() - ready_prims(
            entries.last().1,
            res,
        ).len()) as nat
    }
}

/// All primitives over all entries.
pub open spec fn prim_total(entries: Seq<(Mat4, Seq<MeshPrimitive>)>) -> nat
    decreases entries.len(),
{
    if entries.len() == 0 {
        0
    } else {
        prim_total(entries.drop_last()) + entries.last().1.len()
    }
}

pub open spec fn texture_of(p: MeshPrimitive) -> TextureBinding {
    match p.material.color_texture {
        Some(t) => TextureBinding::Bound(t),
        None => TextureBinding::Placeholder,
    }
}

/// The draw for candidate `c` in primitive slot `i`.
pub open spec fn descriptor(c: (nat, MeshPrimitive), i: int, alignment: u32) -> DrawDescriptor {
    DrawDescriptor {
        pipeline_id: c.1.pipeline_id,
        geometry_id: c.1.geometry_id,
        transform_offset: (c.0 * alignment) as u64,
        primitive_offset: (i * alignment) as u64,
        texture: texture_of(c.1),
    }
}

pub open spec fn min_nat(a: nat, b: nat) -> nat {
    if a <= b { a } else { b }
}

pub open spec fn transform_writes_for(e: Seq<(Mat4, Seq<MeshPrimitive>)>, cap: nat, alignment: u32) -> Seq<TransformWrite> {
    Seq::new(min_nat(cap, e.len()), |i: int| TransformWrite { offset: (i * alignment) as u64, model: e[i].0 })
}

pub open spec fn draws_for(c: Seq<(nat, MeshPrimitive)>, cap: nat, alignment: u32) -> Seq<DrawDescriptor> {
    Seq::new(min_nat(cap, c.len()), |i: int| descriptor(c[i], i, alignment))
}

pub open spec fn primitive_writes_for(c: Seq<(nat, MeshPrimitive)>, cap: nat, alignment: u32) -> Seq<PrimitiveWrite> {
    Seq::new(min_nat(cap, c.len()), |i: int| PrimitiveWrite { offset: (i * alignment) as u64, color: c[i].1.material.color })
}

/// The packet for `scene`: the first `max_slots` entities with a mesh get
/// transform slots; their drawable primitives, in order, get primitive slots
/// until those run out.
pub open spec fn packed(scene: &Scene, res: ResourceTables, limits: UniformLimits, p: FramePacket) -> bool {
    let e = mesh_entries(scene.keys(), scene.tf(), scene.meshes());
    let cap = limits.max_slots as nat;
    let t = min_nat(cap, e.len());
    let c = candidates(e, res, t);
    let d = min_nat(cap, c.len());
    &&& p.transform_writes@ == transform_writes_for(e, cap, limits.alignment)
    &&& p.draws@ == draws_for(c, cap, limits.alignment)
    &&& p.primitive_writes@ == primitive_writes_for(c, cap, limits.alignment)
    &&& p.dropped == ready_total(e, res) - d
    &&& p.missing == unready_total(e, res)
}

proof fn lemma_candidates_prefix(
    e: Seq<(Mat4, Seq<MeshPrimitive>)>,
    x: (Mat4, Seq<MeshPrimitive>),
    res: ResourceTables,
    u: nat,
)
    requires
        u <= e.len(),
    ensures
        candidates(e.push(x), res, u) == candidates(e, res, u),
    decreases u,
{
    if u > 0 {
        lemma_candidates_prefix(e, x, res, (u - 1) as nat);
        assert(e.push(x)[u - 1] == e[u - 1]);
    }
}

proof fn lemma_ready_len(prims: Seq<MeshPrimitive>, res: ResourceTables)
    ensures
        ready_prims(prims, res).len() <= prims.len(),
    decreases prims.len(),
{
    if prims.len() > 0 {
        lemma_ready_len(prims.drop_last(), res);
    }
}

proof fn lemma_entries_step(keys: Seq<u64>, tf: Map<u64, TransformComponent>, meshes: Map<u64, Seq<MeshPrimitive>>, i: int)
    requires
        0 <= i < keys.len(),
    ensures
        mesh_entries(keys.take(i + 1), tf, meshes) == if meshes.contains_key(keys[i]) {
            mesh_entries(keys.take(i), tf, meshes).push((tf[keys[i]].world, meshes[keys[i]]))
        } else {
            mesh_entries(keys.take(i), tf, meshes)
        },
        prim_total(mesh_entries(keys.take(i), tf, meshes)) <= prim_total(mesh_entries(keys.take(i + 1), tf, meshes)),
{
    assert(keys.take(i + 1).drop_last() =~= keys.take(i));
    let e = mesh_entries(keys.take(i), tf, meshes);
    if meshes.contains_key(keys[i]) {
        assert(e.push((tf[keys[i]].world, meshes[keys[i]])).drop_last() =~= e);
    }
}

proof fn lemma_entries_total_mono(keys: Seq<u64>, tf: Map<u64, TransformComponent>, meshes: Map<u64, Seq<MeshPrimitive>>, i: int, j: int)
    requires
        0 <= i <= j <= keys.len(),
    ensures
        prim_total(mesh_entries(keys.take(i), tf, meshes)) <= prim_total(mesh_entries(keys.take(j), tf, meshes)),
    decreases j - i,
{
    if i < j {
        lemma_entries_total_mono(keys, tf, meshes, i, j - 1);
        lemma_entries_step(keys, tf, meshes, j - 1);
    }
}

/// Packs the frame: see `packed` for exactly what comes out.
pub fn pack_draws(scene: &Scene, resources: &ResourceTables, limits: UniformLimits) -> (p: FramePacket)
    requires
        scene.wf(),
        prim_total(mesh_entries(scene.keys(), scene.tf(), scene.meshes())) < usize::MAX,
    ensures
        packed(scene, *resources, limits, p),
{
    let ghost keys = scene.keys();
    let ghost tf = scene.tf();
    let ghost meshes = scene.meshes();
    let ghost res = *resources;
    let ghost cap = limits.max_slots as nat;
    let ghost align = limits.alignment;
    let cap_slots = limits.max_slots as usize;
    let n = scene.transforms_sorted.len();
    let mut draws: Vec<DrawDescriptor> = Vec::new();
    let mut transform_writes: Vec<TransformWrite> = Vec::new();
    let mut primitive_writes: Vec<PrimitiveWrite> = Vec::new();
    let mut dropped: usize = 0;
    let mut missing: usize = 0;
    let mut i: usize = 0;
    proof {
        assert(keys.take(0) =~= Seq::<u64>::empty());
        assert(draws_for(Seq::empty(), cap, align) =~= Seq::<DrawDescriptor>::empty());
        assert(primitive_writes_for(Seq::empty(), cap, align) =~= Seq::<PrimitiveWrite>::empty());
        assert(transform_writes_for(Seq::empty(), cap, align) =~= Seq::<TransformWrite>::empty());
        assert(keys.take(n as int) =~= keys);
    }
    while i < n
        invariant
            scene.wf(),
            keys == scene.keys(),
            tf == scene.tf(),
            meshes == scene.meshes(),
            res == *resources,
            cap == cap_slots,
            cap == limits.max_slots,
            align == limits.alignment,
            n == keys.len(),
            i <= n,
            keys.take(n as int) == keys,
            prim_total(mesh_entries(keys, tf, meshes)) < usize::MAX,
            ({
                let e = mesh_entries(keys.take(i as int), tf, meshes);
                let c = candidates(e, res, min_nat(cap, e.len()));
                &&& transform_writes@ == transform_writes_for(e, cap, align)
                &&& draws@ == draws_for(c, cap, align)
                &&& primitive_writes@ == primitive_writes_for(c, cap, align)
                &&& dropped + min_nat(cap, c.len()) == ready_total(e, res)
                &&& missing == unready_total(e, res)
                &&& ready_total(e, res) + unready_total(e, res) == prim_total(e)
            }),
        decreases n - i,
    {
        let ghost e = mesh_entries(keys.take(i as int), tf, meshes);
        let ghost t0 = min_nat(cap, e.len());
        let ghost c0 = candidates(e, res, t0);
        proof {
            lemma_entries_step(keys, tf, meshes, i as int);
            lemma_entries_total_mono(keys, tf, meshes, i as int + 1, n as int);
        }
        let k = scene.transforms_sorted[i];
        proof {
            assert(crate::key::is_live_key(keys[i as int]));
            lemma_live_key_normalized(k);
            assert(keys.contains(k));
        }
        let key = EntityKey { bits: k };
        match scene.mesh(key) {
            None => {},
            Some(mesh) => {
                let world = match scene.transform(key) {
                    Some(t) => t.world,
                    None => Mat4::identity(),
                };
                let ghost prims = mesh@;
                let ghost entry = (world, prims);
                let ghost e1 = e.push(entry);
                proof {
                    assert(e1 == mesh_entries(keys.take(i as int + 1), tf, meshes));
                    assert(e1.drop_last() =~= e);
                }
                let slot = transform_writes.len();
                let eligible = slot < cap_slots;
                if eligible {
                    proof {
                        assert((slot as u64) * (limits.alignment as u64) <= 0xFFFF_FFFFu64 * 0xFFFF_FFFFu64) by (nonlinear_arith)
                            requires slot < 0x1_0000_0000u64, limits.alignment <= 0xFFFF_FFFFu32;
                    }
                    transform_writes.push(TransformWrite { offset: slot as u64 * limits.alignment as u64, model: world });
                    proof {
                        assert(transform_writes@ =~= transform_writes_for(e1, cap, align));
                    }
                } else {
                    proof {
                        assert(transform_writes@ =~= transform_writes_for(e1, cap, align));
                    }
                }
                let np = primitive_count(&mesh.primitives);
                let mut q: usize = 0;
                proof {
                    assert(prims.take(0) =~= Seq::<MeshPrimitive>::empty());
                    assert(ready_prims(Seq::<MeshPrimitive>::empty(), res) =~= Seq::<MeshPrimitive>::empty());
                    assert(ready_prims(Seq::<MeshPrimitive>::empty(), res).map_values(|p: MeshPrimitive| (slot as nat, p)) =~= Seq::<(nat, MeshPrimitive)>::empty());
                    assert(c0 + Seq::<(nat, MeshPrimitive)>::empty() =~= c0);
                    lemma_ready_len(prims, res);
                    assert(prim_total(e1) == prim_total(e) + prims.len());
                }
                while q < np
                    invariant
                        np == prims.len(),
                        prims == mesh@,
                        q <= np,
                        res == *resources,
                        cap == cap_slots,
                        cap == limits.max_slots,
                        align == limits.alignment,
                        eligible == (slot < cap_slots),
                        slot == min_nat(cap, e.len()),
                        eligible ==> slot == e.len(),
                        prim_total(e) + prims.len() < usize::MAX,
                        ({
                            let rq = ready_prims(prims.take(q as int), res);
                            let c = if eligible { c0 + rq.map_values(|p: MeshPrimitive| (slot as nat, p)) } else { c0 };
                            &&& draws@ == draws_for(c, cap, align)
                            &&& primitive_writes@ == primitive_writes_for(c, cap, align)
                            &&& dropped + min_nat(cap, c.len()) == ready_total(e, res) + rq.len()
                            &&& missing == unready_total(e, res) + q - rq.len()
                            &&& rq.len() <= q
                        }),
                        ready_total(e, res) + unready_total(e, res) == prim_total(e),
                    decreases np - q,
                {
                    let ghost rq = ready_prims(prims.take(q as int), res);
                    let ghost cq = if eligible { c0 + rq.map_values(|p: MeshPrimitive| (slot as nat, p)) } else { c0 };
                    let prim = primitive_at(&mesh.primitives, q);
                    proof {
                        assert(prims.take(q as int + 1).drop_last() =~= prims.take(q as int));
                        assert(prims.take(q as int + 1).last() == prim);
                    }
                    let ready = is_registered(&resources.geometries, prim.geometry_id)
                        && is_registered(&resources.pipelines, prim.pipeline_id)
                        && match prim.material.color_texture {
                            None => true,
                            Some(t) => is_registered(&resources.textures, t),
                        };
                    if ready {
                        let ghost rq1 = rq.push(prim);
                        proof {
                            assert(ready_prims(prims.take(q as int + 1), res) == rq1);
                        }
                        if eligible && draws.len() < cap_slots {
                            let ghost c1 = cq.push((slot as nat, prim));
                            proof {
                                assert(rq1.map_values(|p: MeshPrimitive| (slot as nat, p))
                                    =~= rq.map_values(|p: MeshPrimitive| (slot as nat, p)).push((slot as nat, prim)));
                                assert(c0 + rq1.map_values(|p: MeshPrimitive| (slot as nat, p)) =~= c1);
                            }
                            let d = draws.len();
                            proof {
                                assert((d as u64) * (limits.alignment as u64) <= 0xFFFF_FFFFu64 * 0xFFFF_FFFFu64) by (nonlinear_arith)
                                    requires d < 0x1_0000_0000u64, limits.alignment <= 0xFFFF_FFFFu32;
                                assert((slot as u64) * (limits.alignment as u64) <= 0xFFFF_FFFFu64 * 0xFFFF_FFFFu64) by (nonlinear_arith)
                                    requires slot < 0x1_0000_0000u64, limits.alignment <= 0xFFFF_FFFFu32;
                            }
                            let texture = match prim.material.color_texture {
                                Some(t) => TextureBinding::Bound(t),
                                None => TextureBinding::Placeholder,
                            };
                            draws.push(DrawDescriptor {
                                pipeline_id: prim.pipeline_id,
                                geometry_id: prim.geometry_id,
                                transform_offset: slot as u64 * limits.alignment as u64,
                                primitive_offset: d as u64 * limits.alignment as u64,
                                texture,
                            });
                            primitive_writes.push(PrimitiveWrite {
                                offset: d as u64 * limits.alignment as u64,
                                color: prim.material.color,
                            });
                            proof {
                                assert(draws@ =~= draws_for(c1, cap, align));
                                assert(primitive_writes@ =~= primitive_writes_for(c1, cap, align));
                            }
                        } else {
                            proof {
                                if eligible {
                                    let c1 = cq.push((slot as nat, prim));
                                    assert(rq1.map_values(|p: MeshPrimitive| (slot as nat, p))
                                        =~= rq.map_values(|p: MeshPrimitive| (slot as nat, p)).push((slot as nat, prim)));
                                    assert(c0 + rq1.map_values(|p: MeshPrimitive| (slot as nat, p)) =~= c1);
                                    assert(draws_for(c1, cap, align) =~= draws_for(cq, cap, align));
                                    assert(primitive_writes_for(c1, cap, align) =~= primitive_writes_for(cq, cap, align));
                                }
                                assert(dropped <= ready_total(e, res) + rq.len());
                                assert(ready_total(e, res) <= prim_total(e));
                            }
                            dropped = dropped + 1;
                        }
                    } else {
                        proof {
                            assert(ready_prims(prims.take(q as int + 1), res) == rq);
                            assert(unready_total(e, res) <= prim_total(e));
                        }
                        missing = missing + 1;
                    }
                    q += 1;
                }
                proof {
                    assert(prims.take(np as int) =~= prims);
                    let rp = ready_prims(prims, res);
                    let t1 = min_nat(cap, e1.len());
                    lemma_candidates_prefix(e, entry, res, e.len());
                    lemma_candidates_prefix(e, entry, res, t0);
                    if eligible {
                        assert(t1 == e.len() + 1);
                        assert(e1[e.len() as int] == entry);
                        assert(candidates(e1, res, t1) == candidates(e1, res, e.len()) + rp.map_values(|p: MeshPrimitive| (e.len(), p)));
                    } else {
                        assert(t1 == t0);
                    }
                }
            },
        }
        i += 1;
    }
    FramePacket { draws, transform_writes, primitive_writes, dropped, missing }
}

/// Whether handle `id` is registered in `table`.
fn is_registered(table: &Vec<bool>, id: usize) -> (r: bool)
    ensures
        r == registered(table@, id),
{
    id < table.len() && table[id]
}

/// The camera's view-projection matrix: its projection times the inverse of
/// its world matrix. `None` when `camera` has no transform or no camera.
pub fn camera_view_proj(scene: &Scene, camera: EntityKey) -> (r: Option<Mat4>)
    ensures
        r.is_some() == (scene.tf().contains_key(camera@) && scene.cameras().contains_key(camera@)),
        r.is_some() ==> r.unwrap() == mat_product(
            scene.cameras()[camera@].proj,
            mat_inverse(scene.tf()[camera@].world),
        ),
{
    match (scene.transform(camera), scene.camera(camera)) {
        (Some(t), Some(c)) => {
            let view = inverse_mat4(&t.world);
            Some(mul_mat4(&c.proj, &view))
        },
        _ => None,
    }
}

proof fn lemma_totals_add(e: Seq<(Mat4, Seq<MeshPrimitive>)>, res: ResourceTables)
    ensures
        ready_total(e, res) + unready_total(e, res) == prim_total(e),
    decreases e.len(),
{
    if e.len() > 0 {
        lemma_totals_add(e.drop_last(), res);
        lemma_ready_len(e.last().1, res);
    }
}

/// Packing accounts for every primitive of every meshed entity exactly once:
/// drawn, dropped for lack of slots, or skipped for a missing resource; and
/// neither buffer is given more than `max_slots` slots, however large the
/// scene.
pub proof fn lemma_packing_accounts(scene: &Scene, res: ResourceTables, limits: UniformLimits, p: FramePacket)
    requires
        packed(scene, res, limits, p),
    ensures
        p.draws@.len() + p.dropped + p.missing == prim_total(mesh_entries(scene.keys(), scene.tf(), scene.meshes())),
        p.draws@.len() <= limits.max_slots,
        p.primitive_writes@.len() == p.draws@.len(),
        p.transform_writes@.len() <= limits.max_slots,
        p.transform_writes@.len() == min_nat(limits.max_slots as nat, mesh_entries(scene.keys(), scene.tf(), scene.meshes()).len()),
{
    lemma_totals_add(mesh_entries(scene.keys(), scene.tf(), scene.meshes()), res);
}

} // verus!
