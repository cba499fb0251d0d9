//! Turn-based tactics on a rectangular map: dense grids, movement costs,
//! cost-weighted reachability fields, path reconstruction, and the rules of
//! the move/attack turn sequence.

pub mod actors;
pub mod combat;
pub mod data;
pub mod debug;
pub mod dijkstra;
pub mod enemy;
pub mod field;
pub mod game;
pub mod grid;
pub mod movement;
pub mod phase;
pub mod position;
pub mod scene;
pub mod turn;
