//! Level assembly and power simulation for a tile-based puzzle world.
//!
//! Rooms are authored as small color-coded images. This library decodes those
//! images into tile grids, finds the hallway junctions that stitch rooms
//! together, plans the pieces every tile turns into, decides which rooms are
//! live as the player walks around, and propagates power through the wires,
//! outlets and cables of the world.
pub mod cables;
pub mod grid;
pub mod hallway;
pub mod lines;
pub mod mainframe;
pub mod power;
pub mod reach;
pub mod region;
pub mod spawner;
pub mod streaming;
pub mod tile;
