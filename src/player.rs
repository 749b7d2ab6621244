//! Setup of the player entity.
use vstd::prelude::*;
use crate::components::{is_identity_trs, PlayerComponent, TransformComponent};
use crate::key::EntityKey;
use crate::scene::{Scene, MAX_ENTITIES};

verus! {

/// The player system of the frame loop.
pub struct PlayerSystem;

impl PlayerSystem {
    /// Adds a root entity at the origin carrying a fresh player record.
    pub fn setup(scene: &mut Scene) -> (r: EntityKey)
        requires
            old(scene).wf(),
            old(scene).keys().len() < MAX_ENTITIES,
        ensures
            final(scene).wf(),
            !old(scene).tf().contains_key(r@),
            final(scene).keys() == old(scene).keys().push(r@),
            final(scene).tf().dom() == old(scene).tf().dom().insert(r@),
            is_identity_trs(final(scene).tf()[r@]),
            final(scene).tf()[r@].parent.is_none(),
            final(scene).players() == old(scene).players().insert(r@, PlayerComponent { x: 0, y: 0 }),
            final(scene).meshes() == old(scene).meshes(),
            final(scene).cameras() == old(scene).cameras(),
    {
        let key = scene.create_entity(TransformComponent::default());
        scene.insert_player(key, PlayerComponent::default());
        key
    }
}

} // verus!
