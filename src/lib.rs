//! Core of an offline Monte Carlo path tracer: the flattened bounding volume
//! hierarchy, light bookkeeping, material validation and image indexing.

pub mod bvh;
pub mod error;
pub mod image;
pub mod lights;
pub mod material;
pub mod obj;
pub mod path;

pub use bvh::{chunk_ends, make_bvh, traverse_bvh, BoundingBox, BVH_LEAF_MAX, BVH_NUM_SPLITS, BVH_PRIMITIVES_MAX};
pub use error::SceneParseError;
pub use image::{pixel_index, pixel_position};
pub use lights::{light_ids, pick_index, pick_light};
pub use material::{check_material, has_emitter, is_light, MaterialIssue, MaterialKind};
pub use obj::{face_indices, indices_in_range};
pub use path::{next_bounce, roulette_applies, Bounce, ROULETTE_START};
