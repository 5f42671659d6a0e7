//! A turn-based roguelike core: dungeon generation, field of view, path finding
//! and the rules that resolve each turn.

pub mod geometry;
pub mod map;
pub mod dungeon;
mod rng;
pub mod fov;
pub mod path;
pub mod components;
pub mod storage;
pub mod ecs;
pub mod combat;
pub mod movement;
pub mod items;
pub mod ai;
pub mod input;
pub mod spawn;
pub mod game;
