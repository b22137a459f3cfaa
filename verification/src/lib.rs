//! Splits a rectangular area of a block world into square tiles and works
//! through the tiles one by one.

pub mod args;
pub mod batching;
pub mod buckets;
pub mod coordinates;
pub mod coverage_laws;
pub mod data_processing;
pub mod dispatch;
pub mod dispatch_laws;
pub mod elements;
pub mod grid;
pub mod ground;
pub mod ground_laws;
pub mod partition;
pub mod partition_laws;
pub mod regions;
pub mod resume;
pub mod run_laws;
pub mod tags;
pub mod tile_laws;
pub mod view_laws;
pub mod world_laws;
