//! World graph and procedural generation engine for a text-based RPG backend.
//!
//! The library models the game's dungeon topology as a graph of regions
//! connected by level-gated portals, validates that topology for referential
//! integrity, procedurally generates new regions that extend the graph while
//! keeping every new region connected to the root, and encodes and parses the
//! on-disk region and artifact records.

pub mod artifact;
pub mod character;
pub mod codec;
pub mod dungeon;
pub mod game_logic;
pub mod inventory;
pub mod item;
pub mod map_graph;
pub mod player;
pub mod quest;
pub mod rng;
pub mod text;
pub mod worldgen;
