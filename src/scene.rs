//! The scene: one transform per entity, sparse component tables, and the
//! insertion order of the entities.
use vstd::prelude::*;
use crate::components::{CameraComponent, MeshComponent, MeshPrimitive, PlayerComponent, TransformComponent};
use crate::key::{is_live_key, key_index, lemma_live_key_normalized, EntityKey};
use crate::store::{
    camera_slots, get_camera, get_mesh, get_player, get_transform, insert_camera, insert_mesh,
    insert_player, insert_transform, mesh_slots, new_camera_map, new_mesh_map, new_player_map,
    new_transform_map, player_slots, set_transform, transform_slots, CameraTable, MeshTable,
    PlayerTable, TransformSlots, lookup,
};

verus! {

/// The most entities one scene can hold (the slot map's own limit).
pub const MAX_ENTITIES: usize = 0xFFFF_FFFE;

/// Entity storage plus the component tables keyed by the same entity keys.
#[derive(Debug)]
pub struct Scene {
    pub(crate) transforms: TransformSlots,
    pub(crate) transforms_sorted: Vec<u64>,
    pub(crate) meshes: MeshTable,
    pub(crate) cameras: CameraTable,
    pub(crate) players: PlayerTable,
}

impl Scene {
    /// The live entities, in insertion order.
    pub open(crate) spec fn keys(&self) -> Seq<u64> {
        self.transforms_sorted@
    }

    /// The transform record of each entity.
    pub open(crate) spec fn tf(&self) -> Map<u64, TransformComponent> {
        transform_slots(self.transforms)
    }

    /// The primitives of each entity that has a mesh.
    pub open(crate) spec fn meshes(&self) -> Map<u64, Seq<MeshPrimitive>> {
        mesh_slots(self.meshes).map_values(|m: MeshComponent| m@)
    }

    pub open(crate) spec fn cameras(&self) -> Map<u64, CameraComponent> {
        camera_slots(self.cameras)
    }

    pub open(crate) spec fn players(&self) -> Map<u64, PlayerComponent> {
        player_slots(self.players)
    }

    /// Keys are unique, live, in distinct slots, listed once each in
    /// insertion order; every component belongs to a live entity.
    pub open(crate) spec fn wf(&self) -> bool {
        &&& self.keys().no_duplicates()
        &&& forall|k: u64| #[trigger] self.tf().contains_key(k) <==> self.keys().contains(k)
        &&& forall|i: int| 0 <= i < self.keys().len() ==> #[trigger] is_live_key(self.keys()[i])
        &&& forall|i: int, j: int|
            0 <= i < self.keys().len() && 0 <= j < self.keys().len() && i != j
                ==> key_index(#[trigger] self.keys()[i]) != key_index(#[trigger] self.keys()[j])
        &&& self.tf().dom().finite()
        &&& self.tf().len() == self.keys().len()
        &&& forall|k: u64| #[trigger] mesh_slots(self.meshes).contains_key(k) ==> self.tf().contains_key(k)
        &&& forall|k: u64| #[trigger] camera_slots(self.cameras).contains_key(k) ==> self.tf().contains_key(k)
        &&& forall|k: u64| #[trigger] player_slots(self.players).contains_key(k) ==> self.tf().contains_key(k)
    }

    pub fn new() -> (r: Scene)
        ensures
            r.wf(),
            r.keys().len() == 0,
            r.tf().dom().is_empty(),
            r.meshes().dom().is_empty(),
            r.cameras().dom().is_empty(),
            r.players().dom().is_empty(),
    {
        let r = Scene {
            transforms: new_transform_map(),
            transforms_sorted: Vec::new(),
            meshes: new_mesh_map(),
            cameras: new_camera_map(),
            players: new_player_map(),
        };
        proof {
            assert(r.tf().dom() =~= Set::<u64>::empty());
        }
        r
    }

    /// Adds an entity with the given transform and returns its fresh key.
    pub fn create_entity(&mut self, transform: TransformComponent) -> (r: EntityKey)
        requires
            old(self).wf(),
            old(self).keys().len() < MAX_ENTITIES,
        ensures
            final(self).wf(),
            is_live_key(r@),
            r.bits == r@,
            !old(self).tf().contains_key(r@),
            final(self).keys() == old(self).keys().push(r@),
            final(self).tf() == old(self).tf().insert(r@, transform),
            final(self).meshes() == old(self).meshes(),
            final(self).cameras() == old(self).cameras(),
            final(self).players() == old(self).players(),
    {
        let bits = insert_transform(&mut self.transforms, transform);
        self.transforms_sorted.push(bits);
        proof {
            lemma_live_key_normalized(bits);
            let ks = self.keys();
            assert(ks.last() == bits);
            assert forall|i: int, j: int|
                0 <= i < ks.len() && 0 <= j < ks.len() && i != j
                    implies key_index(#[trigger] ks[i]) != key_index(#[trigger] ks[j]) by {
                if i < ks.len() - 1 && j < ks.len() - 1 {
                    assert(ks[i] == old(self).keys()[i]);
                    assert(ks[j] == old(self).keys()[j]);
                } else if i < ks.len() - 1 {
                    assert(old(self).tf().contains_key(old(self).keys()[i]));
                } else {
                    assert(old(self).tf().contains_key(old(self).keys()[j]));
                }
            }
            assert forall|k: u64| #[trigger] self.tf().contains_key(k) <==> self.keys().contains(k) by {
                if self.keys().contains(k) && k != bits {
                    let i = choose|i: int| 0 <= i < ks.len() && ks[i] == k;
                    assert(old(self).keys()[i] == k);
                }
                if old(self).keys().contains(k) {
                    let i = choose|i: int| 0 <= i < old(self).keys().len() && old(self).keys()[i] == k;
                    assert(ks[i] == k);
                }
            }
            assert forall|i: int, j: int| 0 <= i < ks.len() && 0 <= j < ks.len() && i != j
                implies ks[i] != ks[j] by {
                assert(key_index(ks[i]) != key_index(ks[j]));
            }
        }
        EntityKey { bits }
    }

    /// The number of entities.
    pub fn len(&self) -> (r: usize)
        ensures
            r == self.keys().len(),
    {
        self.transforms_sorted.len()
    }

    /// The `i`-th entity in insertion order.
    pub fn entity_at(&self, i: usize) -> (r: EntityKey)
        requires
            self.wf(),
            i < self.keys().len(),
        ensures
            r@ == self.keys()[i as int],
            r.bits == self.keys()[i as int],
    {
        proof {
            lemma_live_key_normalized(self.keys()[i as int]);
        }
        EntityKey { bits: self.transforms_sorted[i] }
    }

    /// The transform of `key`, if it is an entity of this scene.
    pub fn transform(&self, key: EntityKey) -> (r: Option<TransformComponent>)
        ensures
            r == lookup(self.tf(), key@),
    {
        get_transform(&self.transforms, key.bits)
    }

    /// Replaces the transform of `key`; false (and no change) if `key` is not
    /// an entity of this scene.
    pub fn set_transform(&mut self, key: EntityKey, transform: TransformComponent) -> (r: bool)
        requires
            old(self).wf(),
        ensures
            final(self).wf(),
            r == old(self).tf().contains_key(key@),
            r ==> final(self).tf() == old(self).tf().insert(key@, transform),
            !r ==> final(self).tf() == old(self).tf(),
            final(self).keys() == old(self).keys(),
            final(self).meshes() == old(self).meshes(),
            final(self).cameras() == old(self).cameras(),
            final(self).players() == old(self).players(),
    {
        match get_transform(&self.transforms, key.bits) {
            Some(_) => {
                set_transform(&mut self.transforms, key.bits, transform);
                proof {
                    assert(self.tf().dom() =~= old(self).tf().dom());
                }
                true
            },
            None => false,
        }
    }

    /// Sets or clears the parent of `key`; false (and no change) if `key` is
    /// not an entity of this scene.
    pub fn set_parent(&mut self, key: EntityKey, parent: Option<EntityKey>) -> (r: bool)
        requires
            old(self).wf(),
        ensures
            final(self).wf(),
            r == old(self).tf().contains_key(key@),
            r ==> final(self).tf() == old(self).tf().insert(
                key@,
                TransformComponent { parent, ..old(self).tf()[key@] },
            ),
            !r ==> final(self).tf() == old(self).tf(),
            final(self).keys() == old(self).keys(),
            final(self).meshes() == old(self).meshes(),
            final(self).cameras() == old(self).cameras(),
            final(self).players() == old(self).players(),
    {
        match get_transform(&self.transforms, key.bits) {
            Some(t) => {
                let t2 = TransformComponent { parent, ..t };
                self.set_transform(key, t2)
            },
            None => false,
        }
    }

    /// Attaches `mesh` to `key`, replacing any earlier one; false (and no
    /// change) if `key` is not an entity of this scene.
    pub fn insert_mesh(&mut self, key: EntityKey, mesh: MeshComponent) -> (r: bool)
        requires
            old(self).wf(),
        ensures
            final(self).wf(),
            r == old(self).tf().contains_key(key@),
            r ==> final(self).meshes() == old(self).meshes().insert(key@, mesh@),
            !r ==> final(self).meshes() == old(self).meshes(),
            final(self).keys() == old(self).keys(),
            final(self).tf() == old(self).tf(),
            final(self).cameras() == old(self).cameras(),
            final(self).players() == old(self).players(),
    {
        match get_transform(&self.transforms, key.bits) {
            Some(_) => {
                proof {
                    self.lemma_slot_free(key@, mesh_slots(self.meshes).dom());
                }
                insert_mesh(&mut self.meshes, key.stored_bits(), mesh);
                proof {
                    assert(self.meshes() =~= old(self).meshes().insert(key@, mesh@));
                }
                true
            },
            None => false,
        }
    }

    pub fn mesh(&self, key: EntityKey) -> (r: Option<&MeshComponent>)
        ensures
            r.is_some() == self.meshes().contains_key(key@),
            r.is_some() ==> r.unwrap()@ == self.meshes()[key@],
    {
        get_mesh(&self.meshes, key.bits)
    }

    /// Attaches `camera` to `key`, replacing any earlier one; false (and no
    /// change) if `key` is not an entity of this scene.
    pub fn insert_camera(&mut self, key: EntityKey, camera: CameraComponent) -> (r: bool)
        requires
            old(self).wf(),
        ensures
            final(self).wf(),
            r == old(self).tf().contains_key(key@),
            r ==> final(self).cameras() == old(self).cameras().insert(key@, camera),
            !r ==> final(self).cameras() == old(self).cameras(),
            final(self).keys() == old(self).keys(),
            final(self).tf() == old(self).tf(),
            final(self).meshes() == old(self).meshes(),
            final(self).players() == old(self).players(),
    {
        match get_transform(&self.transforms, key.bits) {
            Some(_) => {
                proof {
                    self.lemma_slot_free(key@, camera_slots(self.cameras).dom());
                }
                insert_camera(&mut self.cameras, key.stored_bits(), camera);
                true
            },
            None => false,
        }
    }

    pub fn camera(&self, key: EntityKey) -> (r: Option<CameraComponent>)
        ensures
            r == lookup(self.cameras(), key@),
    {
        get_camera(&self.cameras, key.bits)
    }

    /// Attaches a player record to `key`; false (and no change) if `key` is
    /// not an entity of this scene.
    pub fn insert_player(&mut self, key: EntityKey, player: PlayerComponent) -> (r: bool)
        requires
            old(self).wf(),
        ensures
            final(self).wf(),
            r == old(self).tf().contains_key(key@),
            r ==> final(self).players() == old(self).players().insert(key@, player),
            !r ==> final(self).players() == old(self).players(),
            final(self).keys() == old(self).keys(),
            final(self).tf() == old(self).tf(),
            final(self).meshes() == old(self).meshes(),
            final(self).cameras() == old(self).cameras(),
    {
        match get_transform(&self.transforms, key.bits) {
            Some(_) => {
                proof {
                    self.lemma_slot_free(key@, player_slots(self.players).dom());
                }
                insert_player(&mut self.players, key.stored_bits(), player);
                true
            },
            None => false,
        }
    }

    pub fn player(&self, key: EntityKey) -> (r: Option<PlayerComponent>)
        ensures
            r == lookup(self.players(), key@),
    {
        get_player(&self.players, key.bits)
    }

    /// A live key of the scene shares its slot index with no other entry of
    /// a table whose keys are all entities of the scene.
    proof fn lemma_slot_free(&self, k: u64, d: Set<u64>)
        requires
            self.wf(),
            self.tf().contains_key(k),
            forall|j: u64| #[trigger] d.contains(j) ==> self.tf().contains_key(j),
        ensures
            is_live_key(k),
            forall|j: u64| #[trigger] d.contains(j) && key_index(j) == key_index(k) ==> j == k,
    {
        let ks = self.keys();
        assert(ks.contains(k));
        let i = choose|i: int| 0 <= i < ks.len() && ks[i] == k;
        assert(is_live_key(ks[i]));
        assert forall|j: u64| #[trigger] d.contains(j) && key_index(j) == key_index(k) implies j == k by {
            assert(ks.contains(j));
            let i2 = choose|i2: int| 0 <= i2 < ks.len() && ks[i2] == j;
            if i2 != i {
                assert(key_index(ks[i2]) != key_index(ks[i]));
            }
        }
    }
}

} // verus!
