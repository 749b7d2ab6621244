//! The outside collections behind the scene: slotmap's `HopSlotMap` holds the
//! transforms, its `SecondaryMap`s hold the optional components, and smallvec
//! holds a mesh's primitives. Each contents is named here, and every method
//! that the library calls has a wrapper whose contract is stated over it.
use vstd::prelude::*;
use crate::components::{CameraComponent, MeshComponent, MeshPrimitive, PlayerComponent, TransformComponent};
use crate::key::{is_live_key, key_index, normalized};
use slotmap::{DefaultKey, HopSlotMap, KeyData, SecondaryMap};
use smallvec::SmallVec;

verus! {

/// The slot map that owns every transform of a scene.
#[derive(Debug)]
#[verifier::external_body]
pub struct TransformSlots {
    slots: HopSlotMap<DefaultKey, TransformComponent>,
}

/// A sparse table of meshes, keyed by entity.
#[derive(Debug)]
#[verifier::external_body]
pub struct MeshTable {
    slots: SecondaryMap<DefaultKey, MeshComponent>,
}

/// A sparse table of cameras, keyed by entity.
#[derive(Debug)]
#[verifier::external_body]
pub struct CameraTable {
    slots: SecondaryMap<DefaultKey, CameraComponent>,
}

/// A sparse table of player records, keyed by entity.
#[derive(Debug)]
#[verifier::external_body]
pub struct PlayerTable {
    slots: SecondaryMap<DefaultKey, PlayerComponent>,
}

/// The primitives of one mesh.
#[derive(Debug)]
#[verifier::external_body]
pub struct PrimitiveList {
    items: SmallVec<[MeshPrimitive; 4]>,
}

/// The transforms of a slot map, keyed by the integer encoding of their keys.
pub uninterp spec fn transform_slots(m: TransformSlots) -> Map<u64, TransformComponent>;

/// The meshes of a secondary map, keyed like `transform_slots`.
pub uninterp spec fn mesh_slots(m: MeshTable) -> Map<u64, MeshComponent>;

/// The cameras of a secondary map, keyed like `transform_slots`.
pub uninterp spec fn camera_slots(m: CameraTable) -> Map<u64, CameraComponent>;

/// The player records of a secondary map, keyed like `transform_slots`.
pub uninterp spec fn player_slots(m: PlayerTable) -> Map<u64, PlayerComponent>;

/// The items of a small vector, in order.
pub uninterp spec fn primitive_items(v: PrimitiveList) -> Seq<MeshPrimitive>;

pub open spec fn lookup<V>(m: Map<u64, V>, k: u64) -> Option<V> {
    if m.contains_key(k) {
        Some(m[k])
    } else {
        None
    }
}

/// No entry of `m` other than `k` itself occupies the slot index of `k`.
pub open spec fn slot_free_for<V>(m: Map<u64, V>, k: u64) -> bool {
    forall|j: u64| #[trigger] m.contains_key(j) && key_index(j) == key_index(k) ==> j == k
}

/// Relies on HopSlotMap::new: the map starts empty.
#[verifier::external_body]
pub(crate) fn new_transform_map() -> (r: TransformSlots)
    ensures
        transform_slots(r).dom() == Set::<u64>::empty(),
{
    TransformSlots { slots: HopSlotMap::new() }
}

/// Relies on HopSlotMap::insert, which panics only when the element count
/// would reach `u32::MAX`, and stores the value in a vacant slot under an odd
/// version; KeyData::as_ffi encodes that key as `version << 32 | index`.
#[verifier::external_body]
pub(crate) fn insert_transform(m: &mut TransformSlots, v: TransformComponent) -> (r: u64)
    requires
        transform_slots(*old(m)).len() + 1 < 0xFFFF_FFFF,
    ensures
        is_live_key(r),
        forall|j: u64| #[trigger] transform_slots(*old(m)).contains_key(j) ==> key_index(j) != key_index(r),
        transform_slots(*final(m)) == transform_slots(*old(m)).insert(r, v),
{
    slotmap::Key::data(&m.slots.insert(v)).as_ffi()
}

/// Relies on HopSlotMap::get and KeyData::from_ffi: the key read back from `k`
/// has its version forced odd, and matches only a slot holding that version.
#[verifier::external_body]
pub(crate) fn get_transform(m: &TransformSlots, k: u64) -> (r: Option<TransformComponent>)
    ensures
        r == lookup(transform_slots(*m), normalized(k)),
{
    m.slots.get(DefaultKey::from(KeyData::from_ffi(k))).copied()
}

/// Relies on HopSlotMap's IndexMut, which panics on a key that it does not hold.
#[verifier::external_body]
pub(crate) fn set_transform(m: &mut TransformSlots, k: u64, v: TransformComponent)
    requires
        transform_slots(*old(m)).contains_key(normalized(k)),
    ensures
        transform_slots(*final(m)) == transform_slots(*old(m)).insert(normalized(k), v),
{
    m.slots[DefaultKey::from(KeyData::from_ffi(k))] = v;
}

/// Relies on SecondaryMap::new: the map starts empty.
#[verifier::external_body]
pub(crate) fn new_mesh_map() -> (r: MeshTable)
    ensures
        mesh_slots(r).dom() == Set::<u64>::empty(),
{
    MeshTable { slots: SecondaryMap::new() }
}

/// Relies on SecondaryMap::insert: for a non-null key whose slot index holds
/// no other key, the value is stored under that key.
#[verifier::external_body]
pub(crate) fn insert_mesh(m: &mut MeshTable, k: u64, v: MeshComponent)
    requires
        is_live_key(k),
    ensures
        slot_free_for(mesh_slots(*old(m)), k) ==> mesh_slots(*final(m)) == mesh_slots(*old(m)).insert(k, v),
{
    m.slots.insert(DefaultKey::from(KeyData::from_ffi(k)), v);
}

/// Relies on SecondaryMap::get, which matches only a slot holding the key's
/// version (forced odd by KeyData::from_ffi).
#[verifier::external_body]
pub(crate) fn get_mesh(m: &MeshTable, k: u64) -> (r: Option<&MeshComponent>)
    ensures
        r.is_some() == mesh_slots(*m).contains_key(normalized(k)),
        r.is_some() ==> *r.unwrap() == mesh_slots(*m)[normalized(k)],
{
    m.slots.get(DefaultKey::from(KeyData::from_ffi(k)))
}

/// Relies on SecondaryMap::new: the map starts empty.
#[verifier::external_body]
pub(crate) fn new_camera_map() -> (r: CameraTable)
    ensures
        camera_slots(r).dom() == Set::<u64>::empty(),
{
    CameraTable { slots: SecondaryMap::new() }
}

/// Relies on SecondaryMap::insert, as for meshes.
#[verifier::external_body]
pub(crate) fn insert_camera(m: &mut CameraTable, k: u64, v: CameraComponent)
    requires
        is_live_key(k),
    ensures
        slot_free_for(camera_slots(*old(m)), k) ==> camera_slots(*final(m)) == camera_slots(*old(m)).insert(k, v),
{
    m.slots.insert(DefaultKey::from(KeyData::from_ffi(k)), v);
}

/// Relies on SecondaryMap::get, as for meshes.
#[verifier::external_body]
pub(crate) fn get_camera(m: &CameraTable, k: u64) -> (r: Option<CameraComponent>)
    ensures
        r == lookup(camera_slots(*m), normalized(k)),
{
    m.slots.get(DefaultKey::from(KeyData::from_ffi(k))).copied()
}

/// Relies on SecondaryMap::new: the map starts empty.
#[verifier::external_body]
pub(crate) fn new_player_map() -> (r: PlayerTable)
    ensures
        player_slots(r).dom() == Set::<u64>::empty(),
{
    PlayerTable { slots: SecondaryMap::new() }
}

/// Relies on SecondaryMap::insert, as for meshes.
#[verifier::external_body]
pub(crate) fn insert_player(m: &mut PlayerTable, k: u64, v: PlayerComponent)
    requires
        is_live_key(k),
    ensures
        slot_free_for(player_slots(*old(m)), k) ==> player_slots(*final(m)) == player_slots(*old(m)).insert(k, v),
{
    m.slots.insert(DefaultKey::from(KeyData::from_ffi(k)), v);
}

/// Relies on SecondaryMap::get, as for meshes.
#[verifier::external_body]
pub(crate) fn get_player(m: &PlayerTable, k: u64) -> (r: Option<PlayerComponent>)
    ensures
        r == lookup(player_slots(*m), normalized(k)),
{
    m.slots.get(DefaultKey::from(KeyData::from_ffi(k))).copied()
}

/// Relies on SmallVec::new: no items.
#[verifier::external_body]
pub(crate) fn empty_primitives() -> (r: PrimitiveList)
    ensures
        primitive_items(r) == Seq::<MeshPrimitive>::empty(),
{
    PrimitiveList { items: SmallVec::new() }
}

/// Relies on SmallVec::from_vec: the same items in the same order.
#[verifier::external_body]
pub(crate) fn primitives_from_vec(v: Vec<MeshPrimitive>) -> (r: PrimitiveList)
    ensures
        primitive_items(r) == v@,
{
    PrimitiveList { items: SmallVec::from_vec(v) }
}

/// Relies on SmallVec's Clone: a copy of the items (built from `as_slice`).
#[verifier::external_body]
pub(crate) fn clone_primitives(v: &PrimitiveList) -> (r: PrimitiveList)
    ensures
        primitive_items(r) == primitive_items(*v),
{
    PrimitiveList { items: v.items.clone() }
}

/// Relies on SmallVec::len.
#[verifier::external_body]
pub(crate) fn primitive_count(v: &PrimitiveList) -> (r: usize)
    ensures
        r == primitive_items(*v).len(),
{
    v.items.len()
}

/// Relies on SmallVec's Index, which panics past the end.
#[verifier::external_body]
pub(crate) fn primitive_at(v: &PrimitiveList, i: usize) -> (r: MeshPrimitive)
    requires
        i < primitive_items(*v).len(),
    ensures
        r == primitive_items(*v)[i as int],
{
    v.items[i]
}

} // verus!
