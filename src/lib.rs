pub mod coord;
pub mod direction;
pub mod entity_store;
pub mod knowledge;
pub mod laws;
pub mod lighting;
pub mod shadowcast;
pub mod static_grid;
pub mod symmetry;
pub mod tile_type;
