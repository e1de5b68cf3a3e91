//! Post-processing of scene boundaries for chunked video encoding: over-long
//! scenes are split into near-equal pieces so that no scene exceeds a limit.

pub mod policy;
pub mod sorted;
pub mod split;

pub use policy::{scene_frame_limit, total_frame_count, with_first_scene};
pub use sorted::normalize;
pub use split::split_long_scenes;
