//! Chunk streaming for an endless procedurally generated terrain.
//!
//! The library decides which square terrain chunks around a moving viewpoint
//! must exist, at which mesh resolution, and in which order the work of
//! creating, refining and removing them is handed out frame by frame. It also
//! frames the messages that peers of a shared world exchange.

mod chunk;
mod coord_set;
mod lod;
mod manager;
mod order;
mod protocol;

pub use chunk::{beyond_margin, chunk_map, coord, distinct_coords, hysteresis, in_range, Chunk};
pub use coord_set::coords_in;
pub use lod::{
    band_index_from, band_reaches, dist_sq, distance_sq, get_lod_subdivisions, lod_for, lod_monotonic,
    lod_table_descending, lod_table_wf, LodBand, MAX_DISTANCE_SQ,
};
pub use manager::{builds_to_collect, despawn_choice, ready_from, ChunkManager, TickWork, WorldGenerationSettings};
pub use order::{farthest_first, insert_nearest_first, is_nearer, nearer, nearest_first};
pub use protocol::{encode_frame, frame_body_len, frame_header_round_trip, le_bytes, le_value, FrameError, PlaneType, MAX_MESSAGE_SIZE};
