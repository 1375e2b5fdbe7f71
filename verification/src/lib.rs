//! Core of a turn-based, grid-world roguelike: dungeon generation, field of
//! view, and the per-entity visibility bookkeeping that ties them together.

pub mod component;
pub mod connect;
pub mod dungeon;
pub mod entity;
pub mod fov;
pub mod grid;
pub mod map;
pub mod player;
pub mod rect;
pub mod rng;
pub mod state;
pub mod visibility;
