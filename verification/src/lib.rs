//! Terrain streaming and synchronization for a client/server voxel world.
//!
//! A server owns an authoritative voxel field; observers (the server's own
//! physics, and each connected client) stream a moving window of that field.
//! This crate holds the verified core: which regions must be resident at
//! which level of detail for an observer, the deduplicated pipeline that
//! turns a region request into generated or cached voxel data, and the
//! protocol discipline that keeps a client's view consistent with
//! server-side edits.

pub mod region;
pub mod material;
pub mod region_map;
pub mod pos_map;
pub mod field;
pub mod surroundings;
pub mod registry;
pub mod protocol;
pub mod gaia;
pub mod laws;
