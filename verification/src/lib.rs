//! Procedural dungeon generation: a tile grid, five generation algorithms,
//! shared geometry and connectivity utilities, and a snapshot history that
//! records each run step by step.

pub mod algorithms;
pub mod bsp;
pub mod bsp_interior;
pub mod builder;
pub mod cellular_automata;
pub mod common;
pub mod connectivity;
pub mod drunkard_walk;
pub mod grid;
pub mod random;
pub mod rect;
pub mod rng;
pub mod rooms;

pub use algorithms::Algorithm;
pub use algorithms::Param;
pub use bsp::BspMap;
pub use bsp_interior::BspInteriorMap;
pub use builder::MapBuilder;
pub use cellular_automata::CellularAutomataBuilder;
pub use drunkard_walk::DrunkSpawnMode;
pub use drunkard_walk::DrunkardSettings;
pub use drunkard_walk::DrunkardsWalkBuilder;
pub use grid::Grid;
pub use grid::TileType;
pub use random::RandomMap;
pub use rect::Rect;
pub use rng::RandomSource;
pub use rooms::RoomsMap;
