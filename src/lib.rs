//! A uniform-grid spatial index and the proximity pipeline built on it:
//! entities are bucketed by grid cell, a 3x3 neighbourhood query returns
//! the candidates near a point, and each hitter turns its candidates into
//! at most one hit event per tick.
mod ants;
mod boundary;
mod collision;
mod geometry;
mod spatial_index;

pub use ants::{Reaction, ant_spawn_columns, react_to_hit};
pub use boundary::Bounding;
pub use collision::{
    Collider, CollisionPlugin, HitEvent, HitTest, collision_system, has_hit, initialize_hittables,
    lemma_gone_not_nearby, lemma_overlap_within_block, lemma_precise_hit_found, overlaps,
    qualifies, removed_all, resolves, served, spec_overlaps, update_hittable_positions, upserted_all,
};
pub use geometry::{
    CellKey, Point, adjacent, cell_of, floor_div, lemma_close_coordinates_adjacent_cells,
    lemma_floor_div_bounds, spec_cell_of,
};
pub use spatial_index::{
    Entity, SpatialIndex, lemma_removed_never_nearby, lemma_wf_size_positive, lemma_upsert_idempotent,
    lemma_upsert_moves, lemma_upsert_then_nearby, nearby, removed, upserted,
};
