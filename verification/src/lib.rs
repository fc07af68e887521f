//! Battlesnake-style game engine and search helpers with machine-checked contracts.
#![allow(unused_imports)]

pub mod direction;
pub mod types;
pub mod rng;
pub mod bitboard;
pub mod model;
pub mod food;
pub mod engine;
pub mod tt;
pub mod grid;
pub mod search;
pub mod text;
pub mod api;
pub mod scenario;
pub mod config;
pub mod brain;
pub mod floodfill;
pub mod voronoi;
pub mod sfen;
pub mod matches;
pub mod arena;
pub mod regression;
pub mod json;
pub mod heuristics;
pub mod zobrist;
pub mod playground;
pub mod snapshot;
pub mod trainer;
pub mod session;
