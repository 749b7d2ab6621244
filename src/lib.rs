//! Scene graph core: entity storage, transform resolution, prefab grafting
//! and per-frame packing of draw uniforms.

pub mod math;
pub mod key;
pub mod components;
pub mod store;
pub mod scene;
pub mod transform;
pub mod graft;
pub mod render;
pub mod texture;
pub mod error;
pub mod player;
pub mod map;
pub mod import;

pub use components::{
    CameraComponent, MaterialComponent, MeshComponent, MeshPrimitive, PbrMaterial, PlayerComponent,
    TransformComponent,
};
pub use error::LoaderError;
pub use graft::{graft, GraftError, Prefab};
pub use map::{MapError, Node, SceneMap};
pub use import::{build_prefab, ImportError, ImportNode};
pub use key::EntityKey;
pub use math::{Mat4, Quat, Vec3, Vec4};
pub use player::PlayerSystem;
pub use render::{
    camera_view_proj, pack_draws, DrawDescriptor, FramePacket, PrimitiveWrite, ResourceTables,
    TextureBinding, TransformWrite, UniformLimits,
};
pub use scene::{Scene, MAX_ENTITIES};
pub use texture::{extend_data_color, prepare_texture, GpuTextureFormat, PixelFormat};
pub use transform::{resolve_transforms, DetachCause, Detachment, TransformSystem, MAX_PARENT_DEPTH};

