//! Core logic of a voxel sandbox: block registry, chunk storage and
//! meshing, chunk streaming around the player, block picking and
//! collision queries, and the debug overlay's text model.
pub mod blocks;
pub mod chunk;
pub mod coords;
pub mod debug;
pub mod mesh;
pub mod player;
pub mod state;
pub mod text;
pub mod ui;
pub mod world;
